//! The notification that carries a monitor's output to the agent.

use vstd::prelude::*;
use vstd::string::StringExecFns;

verus! {

/// A batch of output lines from a watcher, delivered as a contextual user
/// fragment so it stays distinguishable from real user input.
#[derive(Debug, Clone, PartialEq)]
pub struct MonitorNotification {
    pub description: String,
    pub body: String,
}

/// The body of a notification: what it says behind the monitor's label, on
/// lines of their own.
pub open spec fn labelled(description: Seq<char>, body: Seq<char>) -> Seq<char> {
    "\n["@ + description + "] "@ + body + "\n"@
}

impl MonitorNotification {
    pub fn new(description: String, body: String) -> (notification: Self)
        ensures
            notification.description == description,
            notification.body == body,
    {
        MonitorNotification { description, body }
    }

    /// The role that the fragment is delivered in.
    pub fn role(&self) -> (role: &'static str)
        ensures
            role@ == "user"@,
    {
        "user"
    }

    /// The markers around this fragment.
    pub fn markers(&self) -> (markers: (&'static str, &'static str))
        ensures
            markers.0@ == "<monitor_notification>"@,
            markers.1@ == "</monitor_notification>"@,
    {
        MonitorNotification::type_markers()
    }

    /// The markers around every fragment of this kind.
    pub fn type_markers() -> (markers: (&'static str, &'static str))
        ensures
            markers.0@ == "<monitor_notification>"@,
            markers.1@ == "</monitor_notification>"@,
    {
        ("<monitor_notification>", "</monitor_notification>")
    }

    /// The text between the markers.
    pub fn body(&self) -> (text: String)
        ensures
            text@ == labelled(self.description@, self.body@),
    {
        let mut text = "\n[".to_owned();
        text.append(self.description.as_str());
        text.append("] ");
        text.append(self.body.as_str());
        text.append("\n");
        text
    }
}

/// A notification holds its label and its body unchanged, each at its place:
/// the label in brackets on a line of its own, a blank, the body, and a newline.
pub proof fn law_a_notification_holds_its_label_and_body(
    description: Seq<char>,
    body: Seq<char>,
)
    ensures
        ({
            let text = labelled(description, body);
            let at = description.len() as int + 4;
            &&& text.len() == description.len() + body.len() + 5
            &&& text[0] == '\n'
            &&& text[1] == '['
            &&& text.subrange(2, at - 2) == description
            &&& text[at - 2] == ']'
            &&& text[at - 1] == ' '
            &&& text.subrange(at, at + body.len()) == body
            &&& text.last() == '\n'
        }),
{
    reveal_strlit("\n[");
    reveal_strlit("] ");
    reveal_strlit("\n");
    let text = labelled(description, body);
    let at = description.len() as int + 4;
    assert(text.subrange(2, at - 2) =~= description);
    assert(text.subrange(at, at + body.len()) =~= body);
}

} // verus!
