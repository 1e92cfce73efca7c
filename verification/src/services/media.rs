//! Values of the media service.

use vstd::prelude::*;

verus! {

/// Where media comes from.
#[derive(Debug, Clone)]
pub enum MediaSource {
    /// Local file path.
    Local(String),
    /// Network address.
    Network([u8; 32]),
}

} // verus!
