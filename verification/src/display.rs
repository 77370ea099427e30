//! The little that drawing needs decided before anything is sent to the
//! graphics card.

use vstd::prelude::*;

verus! {

/// The three programs that a picture is drawn with.
#[derive(Clone, Copy, Debug, PartialEq, Eq, Hash)]
pub enum ShaderKind {
    Triangles,
    Lines,
    Points,
}

/// A vertex index as the signed number with the same thirty-two bits.
pub open spec fn as_signed(v: u32) -> i32 {
    if v <= 0x7FFF_FFFF {
        v as i32
    } else {
        (v - 0x1_0000_0000) as i32
    }
}

/// The two slots that tell the point program which vertices to highlight:
/// the first two of `selected`, and -1 in each slot that is left.
pub open spec fn highlight_slots(selected: Seq<u32>) -> Seq<i32> {
    seq![
        if selected.len() > 0 {
            as_signed(selected[0])
        } else {
            -1i32
        },
        if selected.len() > 1 {
            as_signed(selected[1])
        } else {
            -1i32
        },
    ]
}

fn signed(v: u32) -> (s: i32)
    ensures
        s == as_signed(v),
{
    if v <= 0x7FFF_FFFF {
        v as i32
    } else {
        (v as i64 - 0x1_0000_0000i64) as i32
    }
}

/// Fills the two highlight slots from the selected vertices.
pub fn selected_uniform(selected: &Vec<u32>) -> (slots: [i32; 2])
    ensures
        slots@ == highlight_slots(selected@),
{
    let first: i32 = if selected.len() > 0 {
        signed(selected[0])
    } else {
        -1
    };
    let second: i32 = if selected.len() > 1 {
        signed(selected[1])
    } else {
        -1
    };
    let slots = [first, second];
    assert(slots@ =~= highlight_slots(selected@));
    slots
}

} // verus!
