//! Verified core of the LJE launcher: the VDF reader used to find the game,
//! git status parsing, script registry dependency resolution, and the small
//! string computations behind binaries, scripts, updates and injection.

pub mod text;
pub mod vdf;
pub mod vdf_document;
pub mod vdf_layout;
pub mod locator;
pub mod settings;
pub mod wide;
pub mod updater;
pub mod injector;
pub mod order;
pub mod toggle;
pub mod binaries;
pub mod scripts;
pub mod git;
pub mod registry;
