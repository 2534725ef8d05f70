pub mod dispatcher;
pub mod error;
pub mod events;
pub mod extension_lock;
pub mod hash;
pub mod hex;
pub mod model;
pub mod payload;
pub mod store;
pub mod store_laws;
