//! Record data of the DNS mail-exchange (MX) record: its binary wire form and its
//! zone-file text form, with the domain names, byte cursors and tokens they need.

pub mod binary;
pub mod error;
pub mod name;
pub mod mx;
pub mod txt;
pub mod text_spec;
