//! Bookkeeping for ephemeral memory: consumers reserve ranges of their
//! dynamic-capacity device, donors lend parts of their donatable regions.

pub mod allocation;
pub mod consumer;
pub mod donor;
pub mod experiment;
pub mod path;
pub mod qmp;
pub mod qmp_types;
pub mod request;
pub mod search;
pub mod text;
pub mod vm_list;

