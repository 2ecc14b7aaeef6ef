//! Reading and rewriting of the comment metadata carried by Opus audio
//! streams inside an Ogg container, including embedded cover-art pictures.
//!
//! The crate is organised around three codec layers:
//! - [`picture`]: the binary picture block and its base64 transport form;
//! - [`header`]: the comment-header payload (vendor string plus `TAG=value`
//!   lines) that lives in the second Ogg packet;
//! - [`tag`]: the in-memory multimap of comments, [`Tag`], with
//!   picture-aware accessors, and the functions that read and rewrite a
//!   whole packet stream held in memory.

pub mod bytes32;
pub mod error;
pub mod header;
pub mod oggio;
pub mod picture;
pub mod strutil;
pub mod tag;
pub mod utils;

pub use error::Error;
pub use picture::Picture;
pub use picture::PictureError;
pub use picture::PictureType;
pub use tag::Tag;
pub use utils::LowercaseString;
