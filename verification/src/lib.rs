pub mod adif;
pub mod db;
pub mod text;
pub mod util;
