//! Extraction of structured city records from world-clock web pages:
//! correlating the paired markup fragments that share a numeric id,
//! inferring each city's UTC offset from its relative-time text, loading
//! the catalog of pages to visit, and judging whether a stored
//! collection of page datasets may still be served.

pub mod cache;
pub mod parse_timeanddate_dot_com;
pub mod string_map;
pub mod text;
pub mod time_and_date_data;
