//! Verified core of an ISO 9660 image maker: the file list kept by the
//! application, volume-label and size rules, the directory tree that is
//! handed to the image writer, and the template store.

pub mod builder;
pub mod iso;
pub mod placement;
pub mod state;
pub mod templates;
pub mod text;
pub mod tree;
