//! Bitsquatting explorer: enumerates the domain names one bit away from a
//! given name and gathers their resolution outcomes.

pub mod flipper;
pub mod name;
pub mod request;
pub mod result_map;
