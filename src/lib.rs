//! Parsing of compact Busy Beaver style transition tables such as
//! `1RB1LB_1LA1RZ`, and rendering of the parsed table as a text report.

pub mod chunk;
pub mod machine;
pub mod report;
