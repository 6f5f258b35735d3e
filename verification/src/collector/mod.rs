//! Collecting device entries from public pages.

pub mod apple;
pub mod columns;
pub mod dates;
pub mod entry;
pub mod google;
pub mod html;
pub mod huawei;
pub mod page;
pub mod tables;
pub mod tenaa;
pub mod url;
pub mod wiki;

pub use crate::collector::apple::parse_apple_support;
pub use crate::collector::columns::extract_apple_columns;
pub use crate::collector::dates::{add_days, mid_date};
pub use crate::collector::entry::DeviceEntry;
pub use crate::collector::tables::parse_wiki_tables;
pub use crate::collector::wiki::extract_from_tables;
