//! The verified core of MenuR, an application launcher menu: reading
//! desktop entries, the entry cache, the search index, and the decisions of
//! the menu's key handlers.
pub mod text;
pub mod unicode;
pub mod entries;
pub mod cache;
pub mod keywords;
pub mod menu;
