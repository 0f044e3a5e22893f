//! Archive engine core.
use vstd::prelude::*;

pub mod abyss;
pub mod ans;
pub mod archive_kind;
pub mod ans_model;
pub mod browser;
pub mod codec;
pub mod compress;
pub mod crypto;
pub mod format;
pub mod gui;
pub mod launch;
pub mod listing;
pub mod members;
pub mod paths;
pub mod progress;
pub mod single_instance;
pub mod text;
pub mod update;
pub mod util;

verus! {
}
