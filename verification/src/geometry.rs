//! Hit-testing the on-screen rectangles panes are drawn in.

use vstd::prelude::*;

verus! {

/// A rectangle of terminal cells.
#[derive(Clone, Copy, Debug, PartialEq, Eq, Structural)]
pub struct Rect {
    pub x: u16,
    pub y: u16,
    pub width: u16,
    pub height: u16,
}

/// `a + b`, held at `u16::MAX`.
pub open spec fn sat_add(a: u16, b: u16) -> u16 {
    if a + b > u16::MAX {
        u16::MAX
    } else {
        (a + b) as u16
    }
}

impl Rect {
    /// The column just past the rectangle, saturating.
    pub fn right(self) -> (r: u16)
        ensures
            r == sat_add(self.x, self.width),
    {
        self.x.saturating_add(self.width)
    }

    /// The row just past the rectangle, saturating.
    pub fn bottom(self) -> (r: u16)
        ensures
            r == sat_add(self.y, self.height),
    {
        self.y.saturating_add(self.height)
    }
}

/// The cell at `col`, `row` lies in `r` (half-open on both axes).
pub open spec fn contains_model(r: Rect, col: u16, row: u16) -> bool {
    col >= r.x && col < sat_add(r.x, r.width) && row >= r.y && row < sat_add(r.y, r.height)
}

/// Half-open hit test.
pub fn contains(r: Rect, col: u16, row: u16) -> (b: bool)
    ensures
        b == contains_model(r, col, row),
{
    col >= r.x && col < r.right() && row >= r.y && row < r.bottom()
}

/// Cells a rectangle covers.
pub open spec fn area(r: Rect) -> int {
    r.width * r.height
}

/// Position `k` of `rects` is the first of the smallest rectangles holding the cell.
pub open spec fn is_hit(rects: Seq<(usize, Rect)>, col: u16, row: u16, k: int) -> bool {
    &&& 0 <= k < rects.len()
    &&& contains_model(rects[k].1, col, row)
    &&& forall|j: int| 0 <= j < rects.len() && contains_model(rects[j].1, col, row) ==> area(rects[k].1) <= area(#[trigger] rects[j].1)
    &&& forall|j: int| 0 <= j < k && contains_model(rects[j].1, col, row) ==> area(rects[k].1) < area(#[trigger] rects[j].1)
}

/// The pane whose rectangle takes the click: the smallest holding the cell, so
/// nested borders do not steal it; the earliest among equals.
pub open spec fn hit_model(rects: Seq<(usize, Rect)>, col: u16, row: u16) -> Option<usize> {
    if exists|k: int| is_hit(rects, col, row, k) {
        Some(rects[choose|k: int| is_hit(rects, col, row, k)].0)
    } else {
        None
    }
}

/// Smallest containing pane wins so nested borders do not steal the click.
pub fn hit(rects: &Vec<(usize, Rect)>, col: u16, row: u16) -> (r: Option<usize>)
    ensures
        r == hit_model(rects@, col, row),
        r is None <==> forall|j: int| 0 <= j < rects@.len() ==> !contains_model(#[trigger] rects@[j].1, col, row),
{
    let mut best: Option<usize> = None;
    let mut best_area: u32 = 0;
    for i in 0..rects.len()
        invariant
            match best {
                Some(k) => {
                    &&& k < i
                    &&& contains_model(rects@[k as int].1, col, row)
                    &&& best_area == area(rects@[k as int].1)
                    &&& forall|j: int| 0 <= j < i && contains_model(rects@[j].1, col, row) ==> area(rects@[k as int].1) <= area(#[trigger] rects@[j].1)
                    &&& forall|j: int| 0 <= j < k && contains_model(rects@[j].1, col, row) ==> area(rects@[k as int].1) < area(#[trigger] rects@[j].1)
                },
                None => forall|j: int| 0 <= j < i ==> !contains_model(#[trigger] rects@[j].1, col, row),
            },
    {
        let r = rects[i].1;
        if contains(r, col, row) {
            assert(r.width * r.height <= u16::MAX * u16::MAX) by (nonlinear_arith)
                requires r.width <= u16::MAX, r.height <= u16::MAX;
            assert(u16::MAX * u16::MAX <= u32::MAX);
            let a = (r.width as u32) * (r.height as u32);
            match best {
                Some(_) => {
                    if a < best_area {
                        best = Some(i);
                        best_area = a;
                    }
                },
                None => {
                    best = Some(i);
                    best_area = a;
                },
            }
        }
    }
    match best {
        Some(k) => {
            proof {
                assert(is_hit(rects@, col, row, k as int));
                let c = choose|c: int| is_hit(rects@, col, row, c);
                assert(is_hit(rects@, col, row, c));
                if c < k {
                    assert(area(rects@[k as int].1) < area(rects@[c].1));
                } else if k < c {
                    assert(area(rects@[c].1) < area(rects@[k as int].1));
                }
            }
            Some(rects[k].0)
        },
        None => None,
    }
}

} // verus!
