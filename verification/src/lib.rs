//! Gallery: the verified core of a local media gallery — its paths and media formats, the
//! index's pages, duplicate detection and extension repair, stored settings and the
//! encrypted xAI key, editor sessions, the xAI image-editing workflow, window and tray
//! decisions, and the release packaging tool.

use vstd::prelude::*;

pub mod app;
pub mod config;
pub mod encoding;
pub mod library;
pub mod media;
pub mod paths;
pub mod release;
pub mod session;
pub mod text;
pub mod window;
pub mod xai;

pub use app::run;

verus! {

} // verus!
