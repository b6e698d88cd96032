//! Browse the auto-memory notes of many projects: the encoding of project
//! paths into directory names and back, front matter parsing, the gathering
//! of projects, a collapsed project tree, links between notes and the
//! rendered HTML page.
pub mod text;
pub mod sort;
pub mod paths;
pub mod memory;
pub mod tree;
pub mod links;
pub mod route;
pub mod render;
