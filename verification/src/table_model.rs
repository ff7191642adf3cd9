//! The inputs and classes of the table-structure model.
use vstd::prelude::*;

verus! {

/// The shorter edge that an image is resized to, in pixels.
pub const SHORTEST_EDGE: u64 = 800;

/// The longest that the longer edge of a resized image may be, in pixels.
pub const LONGEST_EDGE: u64 = 1000;

/// What the model finds.
#[derive(Clone, Copy, Debug, PartialEq, Eq, Structural)]
pub enum TatrClass {
    /// A table.
    Table,
    /// A column.
    Column,
    /// A row.
    Row,
    /// The header of the columns.
    ColumnHeader,
    /// The header of a group of rows.
    ProjectedRowHeader,
    /// A cell that spans rows or columns.
    SpanningCell,
}

impl TatrClass {
    /// The position of a class among the outputs of the model.
    pub open spec fn index(self) -> usize {
        match self {
            TatrClass::Table => 0,
            TatrClass::Column => 1,
            TatrClass::Row => 2,
            TatrClass::ColumnHeader => 3,
            TatrClass::ProjectedRowHeader => 4,
            TatrClass::SpanningCell => 5,
        }
    }

    /// The class at a position among the outputs of the model.
    pub fn from_index(index: usize) -> (r: Option<TatrClass>)
        ensures
            match r {
                Some(class) => class.index() == index,
                None => index > 5,
            },
    {
        match index {
            0 => Some(TatrClass::Table),
            1 => Some(TatrClass::Column),
            2 => Some(TatrClass::Row),
            3 => Some(TatrClass::ColumnHeader),
            4 => Some(TatrClass::ProjectedRowHeader),
            5 => Some(TatrClass::SpanningCell),
            _ => None,
        }
    }
}

/// The edges of a resized image, the shorter one first: the shorter edge is brought to its length and the
/// longer one follows; where that makes the longer edge too long, both shrink until it fits.
pub open spec fn resized_edges(short: nat, long: nat) -> (nat, nat) {
    let stretched = SHORTEST_EDGE as nat * long / short;
    if stretched > LONGEST_EDGE {
        (SHORTEST_EDGE as nat * LONGEST_EDGE as nat / stretched, LONGEST_EDGE as nat)
    } else {
        (SHORTEST_EDGE as nat, stretched)
    }
}

/// The width and height of a resized image.
pub open spec fn resized(width: nat, height: nat) -> (nat, nat) {
    if width <= height {
        resized_edges(width, height)
    } else {
        let edges = resized_edges(height, width);
        (edges.1, edges.0)
    }
}

/// The width and height that an image is resized to before the model sees it.
pub fn compute_detr_resize(width: u32, height: u32) -> (r: (u32, u32))
    requires
        width > 0,
        height > 0,
    ensures
        (r.0 as nat, r.1 as nat) == resized(width as nat, height as nat),
{
    let (short, long): (u64, u64) = if width <= height {
        (width as u64, height as u64)
    } else {
        (height as u64, width as u64)
    };
    let stretched: u64 = SHORTEST_EDGE * long / short;
    let (small, large): (u64, u64) = if stretched > LONGEST_EDGE {
        (SHORTEST_EDGE * LONGEST_EDGE / stretched, LONGEST_EDGE)
    } else {
        (SHORTEST_EDGE, stretched)
    };
    proof {
        lemma_edges_are_bounded(short as nat, long as nat);
    }
    if width <= height {
        (small as u32, large as u32)
    } else {
        (large as u32, small as u32)
    }
}

/// Neither edge of a resized image is too long.
proof fn lemma_edges_are_bounded(short: nat, long: nat)
    requires
        0 < short <= long,
    ensures
        resized_edges(short, long).0 <= SHORTEST_EDGE,
        resized_edges(short, long).1 <= LONGEST_EDGE,
{
    let stretched = SHORTEST_EDGE as nat * long / short;
    if stretched > LONGEST_EDGE {
        assert(800_000nat / stretched <= 800) by (nonlinear_arith)
            requires
                stretched > 1000,
        ;
    }
}

/// A resized image fits: its shorter edge is at most the wanted length, its longer edge at most the longest
/// that there may be, and turning the image around turns the result around.
pub proof fn law_resized_images_fit(width: nat, height: nat)
    requires
        width > 0,
        height > 0,
    ensures
        resized(width, height).0 <= LONGEST_EDGE,
        resized(width, height).1 <= LONGEST_EDGE,
        resized(height, width) == (resized(width, height).1, resized(width, height).0),
{
    if width <= height {
        lemma_edges_are_bounded(width, height);
    } else {
        lemma_edges_are_bounded(height, width);
    }
    if width == height {
        assert(800 * width / width == 800) by (nonlinear_arith)
            requires
                width > 0,
        ;
    }
}

} // verus!
