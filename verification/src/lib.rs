//! Previews how the files of a directory would be sorted into category
//! folders by the rules of a JSON configuration, and walks the result as a tree.

pub mod path;
pub mod matching;
pub mod config;
pub mod entry_collector;
pub mod path_tree;
pub mod walker;
pub mod item;
