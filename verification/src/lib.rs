//! Command monitors: long-lived background commands whose output lines are
//! batched into notifications that wake an agent session.

pub mod channel;
pub mod clock;
pub mod delivery;
pub mod delivery_laws;
pub mod event_laws;
pub mod framing;
pub mod notification;
pub mod registry;
pub mod text;
pub mod wake;
