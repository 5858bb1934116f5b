pub mod codec;
pub mod key;
pub mod order;
pub mod types;
pub mod mockdb;
pub mod layout;
pub mod readback;
