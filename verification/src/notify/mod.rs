//! Desktop notifications: the history kept for the panel and its grouping,
//! the id and action handling of the `org.freedesktop.Notifications`
//! service, the body markup filter and the image hint, popup placement and
//! the do-not-disturb switch.

pub mod history;
pub mod daemon;
pub mod render;
pub mod dnd;
pub mod groups;
pub mod popup;
pub mod image;
