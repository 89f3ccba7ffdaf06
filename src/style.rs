//! Drawing style of a parcel from its state and owner.
use vstd::prelude::*;
use crate::model::{Parcel, ParcelModel};

verus! {

/// A colour, eight bits per channel, `a` for opacity.
#[derive(Clone, Copy, Debug, PartialEq, Eq, Structural)]
pub struct Color {
    pub r: u8,
    pub g: u8,
    pub b: u8,
    pub a: u8,
}

/// How a parcel's polygon is drawn: its fill, its outline colour, and the
/// outline's width and inward offset in pixels.
#[derive(Clone, Copy, Debug, PartialEq, Eq, Structural)]
pub struct PolygonStyle {
    pub fill: Color,
    pub stroke: Color,
    pub stroke_width: u32,
    pub stroke_offset: i32,
}

pub const STROKE_WIDTH: u32 = 2;

pub const STROKE_OFFSET: i32 = -1;

/// Opacity of the flagged fill on a selected parcel.
pub const FLAGGED_ALPHA_SELECTED: u8 = 150;

/// Opacity of the flagged fill on any other parcel.
pub const FLAGGED_ALPHA: u8 = 50;

pub open spec fn base_color() -> Color {
    Color { r: 0, g: 0, b: 0, a: 255 }
}

pub open spec fn highlight_color() -> Color {
    Color { r: 0, g: 0, b: 255, a: 255 }
}

pub open spec fn transparent() -> Color {
    Color { r: 0, g: 0, b: 0, a: 0 }
}

pub open spec fn flagged_fill(selected: bool) -> Color {
    Color {
        r: 255,
        g: 0,
        b: 0,
        a: if selected {
            FLAGGED_ALPHA_SELECTED
        } else {
            FLAGGED_ALPHA
        },
    }
}

/// The owner name flagged by default, as bytes: "CITY OF GRANTS PASS".
pub open spec fn default_flagged_owner() -> Seq<u8> {
    seq![67u8, 73, 84, 89, 32, 79, 70, 32, 71, 82, 65, 78, 84, 83, 32, 80, 65, 83, 83]
}

/// The style of parcel `p` when owner name `flagged` is singled out.
pub open spec fn style_of(p: ParcelModel, flagged: Seq<u8>) -> PolygonStyle {
    PolygonStyle {
        fill: if p.name == Some(flagged) {
            flagged_fill(p.selected)
        } else {
            transparent()
        },
        stroke: if p.selected {
            highlight_color()
        } else {
            base_color()
        },
        stroke_width: STROKE_WIDTH,
        stroke_offset: STROKE_OFFSET,
    }
}

/// Whether two byte strings are equal.
pub fn bytes_equal(a: &Vec<u8>, b: &Vec<u8>) -> (r: bool)
    ensures
        r == (a@ == b@),
{
    if a.len() != b.len() {
        return false;
    }
    let mut i: usize = 0;
    while i < a.len()
        invariant
            i <= a@.len(),
            a@.len() == b@.len(),
            forall|k: int| 0 <= k < i ==> a@[k] == b@[k],
        decreases a@.len() - i,
    {
        if a[i] != b[i] {
            return false;
        }
        i = i + 1;
    }
    assert(a@ =~= b@);
    true
}

/// The style rule of the parcel layer: one owner name, matched exactly and
/// case-sensitively, gets a red fill.
pub struct ParcelSymbol {
    pub flagged_owner: Vec<u8>,
}

impl ParcelSymbol {
    /// The rule that flags the default owner name.
    pub fn new() -> (r: ParcelSymbol)
        ensures
            r.flagged_owner@ == default_flagged_owner(),
    {
        let flagged_owner: Vec<u8> = vec![
            67u8, 73, 84, 89, 32, 79, 70, 32, 71, 82, 65, 78, 84, 83, 32, 80, 65, 83, 83,
        ];
        assert(flagged_owner@ =~= default_flagged_owner());
        ParcelSymbol { flagged_owner }
    }

    /// The rule that flags `name`.
    pub fn with_owner(name: Vec<u8>) -> (r: ParcelSymbol)
        ensures
            r.flagged_owner@ == name@,
    {
        ParcelSymbol { flagged_owner: name }
    }

    /// The style of `feature` in its current state.
    pub fn polygon(&self, feature: &Parcel) -> (r: PolygonStyle)
        ensures
            r == style_of(feature@, self.flagged_owner@),
    {
        let selected = feature.selected;
        let stroke = if selected {
            Color { r: 0, g: 0, b: 255, a: 255 }
        } else {
            Color { r: 0, g: 0, b: 0, a: 255 }
        };
        let mut fill = Color { r: 0, g: 0, b: 0, a: 0 };
        if let Some(name) = &feature.owner.name {
            if bytes_equal(name, &self.flagged_owner) {
                fill = Color {
                    r: 255,
                    g: 0,
                    b: 0,
                    a: if selected {
                        FLAGGED_ALPHA_SELECTED
                    } else {
                        FLAGGED_ALPHA
                    },
                };
            }
        }
        PolygonStyle { fill, stroke, stroke_width: STROKE_WIDTH, stroke_offset: STROKE_OFFSET }
    }
}

} // verus!
