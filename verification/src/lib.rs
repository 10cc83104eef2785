//! Codec, compositor, hit-tester and edit history for an offset-addressed
//! sprite container and a sibling fixed-stride glyph container.
//!
//! The sprite container bundles tile graphics, palettes, animation timelines
//! and sprite-composition instructions behind a 20-byte header of section
//! offsets.  `codec::decode` reads such a container into a [`sfsprite::SFSpriteFileHeader`],
//! `codec::encode` writes one back, and the two round-trip exactly on every
//! validly decoded document.  Rendering and hit-testing walk the decoded model
//! deterministically; the edit history keeps a bounded linear stack of
//! document snapshots.

pub mod codec;
pub mod editor;
pub mod font;
pub mod gbacolor;
pub mod render;
pub mod sfsprite;

pub use codec::ContainerError;
pub use editor::SFSpriteEditor;
pub use gbacolor::GBAColor;
pub use render::HittestResult;
pub use sfsprite::SFSpriteFileHeader;

use vstd::prelude::*;

verus! {

} // verus!
