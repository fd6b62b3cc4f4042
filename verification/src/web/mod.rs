//! The logic behind the web interface: scenario file names, scenario
//! listings, chart series and the listening address.

pub mod address;
pub mod charts;
pub mod forms;
pub mod names;
pub mod scenario;
