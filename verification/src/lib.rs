//! Which rules of an ad-block filter list the adblock engine supports.

pub mod chars;
pub mod command;
pub mod domains;
pub mod explain;
pub mod filters;
pub mod lists;
pub mod options;
pub mod order;
pub mod regexcheck;
pub mod render;
pub mod report;
pub mod resources;
pub mod text;
