pub mod annotate;
pub mod browse;
pub mod document;
pub mod git;
pub mod nav;
pub mod outline;
pub mod pathname;
pub mod render;
pub mod session;
pub mod text;
pub mod tree;
pub mod html;
pub mod tree_fs;
pub mod viewer;
pub mod watch;
pub mod web;
