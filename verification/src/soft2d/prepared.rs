//! What a preparation is bound to, and why it is not replayed against something else.
use super::geom::Extent2D;
use crate::bits::{equal, same};
use vstd::prelude::*;

verus! {

/// The target of a list, as far as preparing the list depends on it: its scale is a binary32 value by its bits,
/// its format and its colour space are the caller's numbers.
#[derive(Clone, Copy, PartialEq, Eq, Structural, Debug)]
pub struct TargetDescription {
    pub extent: Extent2D,
    pub scale: u32,
    pub format: u32,
    pub color_space: u32,
}

/// Why a list has to be prepared again.
#[derive(Clone, Copy, PartialEq, Eq, Structural, Debug)]
pub enum RePrepare {
    List,
    Extent,
    Scale,
    Format,
    ColorSpace,
    Backend,
    GlyphCache,
}

/// What a preparation is bound to: the list by its identity, the target, the version of the backend and the
/// generation of its glyph cache.
#[derive(Clone, Copy, PartialEq, Eq, Structural, Debug)]
pub struct PreparedKey {
    pub list: u64,
    pub target: TargetDescription,
    pub version: u32,
    pub generation: u64,
}

impl PreparedKey {
    /// Whether one part of two keys is the same. Scales are compared as numbers.
    pub open spec fn agrees(self, other: PreparedKey, part: RePrepare) -> bool {
        match part {
            RePrepare::List => self.list == other.list,
            RePrepare::Extent => self.target.extent == other.target.extent,
            RePrepare::Scale => same(self.target.scale, other.target.scale),
            RePrepare::Format => self.target.format == other.target.format,
            RePrepare::ColorSpace => self.target.color_space == other.target.color_space,
            RePrepare::Backend => self.version == other.version,
            RePrepare::GlyphCache => self.generation == other.generation,
        }
    }

    /// The first part two keys differ in.
    pub open spec fn change(self, other: PreparedKey) -> Option<RePrepare> {
        if !self.agrees(other, RePrepare::List) {
            Some(RePrepare::List)
        } else if !self.agrees(other, RePrepare::Extent) {
            Some(RePrepare::Extent)
        } else if !self.agrees(other, RePrepare::Scale) {
            Some(RePrepare::Scale)
        } else if !self.agrees(other, RePrepare::Format) {
            Some(RePrepare::Format)
        } else if !self.agrees(other, RePrepare::ColorSpace) {
            Some(RePrepare::ColorSpace)
        } else if !self.agrees(other, RePrepare::Backend) {
            Some(RePrepare::Backend)
        } else if !self.agrees(other, RePrepare::GlyphCache) {
            Some(RePrepare::GlyphCache)
        } else {
            None
        }
    }

    /// Whether a preparation with this key can be replayed against another, and what changed where it cannot.
    pub fn compatible_with(&self, other: &PreparedKey) -> (outcome: Result<(), RePrepare>)
        ensures
            match outcome {
                Ok(_) => self.change(*other) is None,
                Err(reason) => self.change(*other) == Some(reason),
            },
    {
        let (mine, its) = (self.target, other.target);
        if self.list != other.list {
            Err(RePrepare::List)
        } else if mine.extent != its.extent {
            Err(RePrepare::Extent)
        } else if !equal(mine.scale, its.scale) {
            Err(RePrepare::Scale)
        } else if mine.format != its.format {
            Err(RePrepare::Format)
        } else if mine.color_space != its.color_space {
            Err(RePrepare::ColorSpace)
        } else if self.version != other.version {
            Err(RePrepare::Backend)
        } else if self.generation != other.generation {
            Err(RePrepare::GlyphCache)
        } else {
            Ok(())
        }
    }
}

/// Two keys are compatible just where they agree in every part, and a refusal names a part that differs.
pub proof fn a_change_is_a_difference(key: PreparedKey, other: PreparedKey)
    ensures
        key.change(other) is None <==> forall|part: RePrepare| #[trigger] key.agrees(other, part),
        key.change(other) matches Some(part) ==> !key.agrees(other, part),
{
    if key.change(other) is None {
        assert forall|part: RePrepare| #[trigger] key.agrees(other, part) by {
            match part {
                RePrepare::List => {},
                RePrepare::Extent => {},
                RePrepare::Scale => {},
                RePrepare::Format => {},
                RePrepare::ColorSpace => {},
                RePrepare::Backend => {},
                RePrepare::GlyphCache => {},
            }
        }
    }
}

} // verus!
