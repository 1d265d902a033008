//! Decoding of the binary container and lookup-table formats of a
//! content-addressed asset distribution network, and resolution of a
//! content key to its decompressed bytes.
use vstd::prelude::*;

pub mod blte;
pub mod cdn;
pub mod encoding;
pub mod error;
pub mod hash;
pub mod index;
pub mod install;
pub mod parse;
pub mod product;
pub mod resolve;
pub mod scan;
pub mod tact;
pub mod text;
pub mod wire;

pub use encoding::{CeKeyPageEntry, CeKeyTableIndex, EncodingManifest};
pub use error::{DecodeError, FormatError, ResolutionError};
pub use hash::{Md5Error, Md5Hash};
pub use index::{IndexEntry, IndexFile};
pub use install::{
    DownloadManifest, DownloadManifestEntry, InstallManifest, InstallManifestEntry, ManifestTag,
};

verus! {

} // verus!
