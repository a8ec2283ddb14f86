//! Verified core logic of the Bifrons game engine: module versioning and load
//! ordering, language dictionaries, form-list injection, and the small pieces of
//! decision logic around asset and script loading.

pub mod assets;
pub mod collections;
pub mod formlist;
pub mod grid;
pub mod input;
pub mod keyed;
pub mod lang;
pub mod material;
pub mod mod_loading;
pub mod module;
pub mod scripts;
pub mod skeleton;
pub mod text;
pub mod texture_build;
pub mod version;
pub mod wave_map;
