//! Watches a ticketing page for newly available session dates: finds the
//! embedded `eventDatesData` array, reads the dates it lists and decides when
//! their number has grown.
pub mod crawler;
pub mod date;
pub mod json;
pub mod watch;
