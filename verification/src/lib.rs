//! Verified core of a forum and ranking garden server: paths, routes, pages,
//! votes, search and posts as plain values with proved contracts.

pub mod browse;
pub mod compare;
pub mod editor;
pub mod external;
pub mod forum;
pub mod garden;
pub mod github;
pub mod github_items;
pub mod home;
pub mod identity;
pub mod item_page;
pub mod js;
pub mod landing;
pub mod live;
pub mod markup;
pub mod nav;
pub mod outside;
pub mod pages;
pub mod paths;
pub mod pin;
pub mod questions;
pub mod search;
pub mod snippet;
pub mod sort;
pub mod state;
pub mod text;
pub mod tree;
pub mod ui_action;
pub mod unicode;
pub mod votes;
