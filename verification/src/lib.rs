//! Finds devices that hold a static address outside the expected range.
pub mod addr;
pub mod arp;
pub mod bytes;
pub mod capture;
pub mod cli;
pub mod correlate;
pub mod dhcp;
pub mod error;
pub mod iface;
pub mod inventory;
pub mod ndp;
pub mod net;
pub mod ordered;
pub mod oui;
pub mod report;
pub mod scan;
pub mod text;
pub mod tui;
