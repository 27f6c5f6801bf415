pub mod util;
pub mod db;
pub mod table;
