pub mod activity;
pub mod block;
pub mod group;
pub mod session;
pub mod store;
pub mod user;
pub mod util;
