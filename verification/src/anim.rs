//! Animation output formats.
use vstd::prelude::*;

verus! {

/// The binary container format to emit for an animation.
#[derive(Debug, Clone, Copy, PartialEq, Eq, Structural)]
pub enum OutputFormat {
    Gif,
    Webp,
    Video,
}

} // verus!
