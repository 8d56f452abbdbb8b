pub mod codec;
pub mod data;
pub mod import;
pub mod store;
pub mod time;
pub mod util;
