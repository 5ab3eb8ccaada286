//! Verified core of PicTagger: tag normalisation, image-record models,
//! cache archive planning and restoring, upload bookkeeping and
//! scatter-plot selection rules.

pub mod text;
pub mod models;
pub mod bindings;
pub mod storage;
pub mod upload;
pub mod gallery;
