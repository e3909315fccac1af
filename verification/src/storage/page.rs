pub mod data_page;
pub mod header_page;
pub mod index_page;
pub mod page;

pub use self::page::{Page, PageError};
