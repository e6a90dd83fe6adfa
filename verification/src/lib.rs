//! Strings over the letters of `GEOLYMP` that hold the word a chosen number
//! of times as a subsequence, together with the counting machinery and the
//! search that builds them.

pub mod keyword;
pub mod counts;
pub mod search;
pub mod seed;
pub mod driver;
pub mod format;
pub mod pretty;
