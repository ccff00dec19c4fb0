pub mod object_id;
pub mod soap;
pub mod text;
pub mod xml;
pub mod format;
pub mod state;
pub mod identity;
pub mod media;
pub mod didl;
pub mod listing;
pub mod browse;
pub mod ssdp;
pub mod web;
