//! Turns a public calendar feed into the list of upcoming events of a web page.

pub mod calendar;
pub mod clock;
pub mod composition;
pub mod json;
pub mod links;
pub mod listing;
pub mod order;
pub mod presentation;
pub mod recurrence;
pub mod selection;
pub mod sorting;
pub mod spaces;
pub mod time;
pub mod weekdays;
pub mod zone;
