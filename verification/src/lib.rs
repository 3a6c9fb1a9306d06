//! The logic of a small HTTP file share: listing directories as web pages,
//! taking form submissions, and measuring the archives that are streamed back.

pub mod archive;
pub mod disposition;
pub mod form;
pub mod html;
pub mod page;
pub mod percent;
pub mod response;
pub mod server;
pub mod share_entry;
pub mod target;
pub mod text;
pub mod timestamp;
