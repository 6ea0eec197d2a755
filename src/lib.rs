//! An arena-backed DOM tree and the construction sink that an HTML5 tree
//! builder drives to fill it.
pub mod dom;
pub mod html;
