pub mod api;
pub mod events;
pub mod limits;
pub mod store;
