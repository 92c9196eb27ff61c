use monitor::notification::MonitorNotification;

#[test]
fn a_notification_carries_its_label() {
    let notification = MonitorNotification::new("signal watch".to_string(), "saw it".to_string());
    assert_eq!(notification.description, "signal watch");
    assert_eq!(notification.body, "saw it");
    assert_eq!(notification.body(), "\n[signal watch] saw it\n");
}

#[test]
fn a_notification_is_a_marked_user_fragment() {
    let notification = MonitorNotification::new("d".to_string(), "b".to_string());
    assert_eq!(notification.role(), "user");
    assert_eq!(
        notification.markers(),
        ("<monitor_notification>", "</monitor_notification>")
    );
    assert_eq!(notification.markers(), MonitorNotification::type_markers());
    assert_eq!(notification.clone(), notification);
}
