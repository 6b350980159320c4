//! How the screen is divided between the panes.

use crate::overlay::Area;
use crate::pane::WEIGHT_MAX;
use ratatui::layout::{Constraint, Layout, Rect};
use vstd::prelude::*;

verus! {

/// What one part of a divided area asks for.
#[derive(Clone, Copy, PartialEq, Eq, Debug, Structural)]
pub enum Part {
    /// So many cells.
    Length(u16),
    /// A share of what is left, in proportion to the weight.
    Fill(u16),
}

/// Whether one rectangle lies inside another.
pub open spec fn within(r: Area, area: Area) -> bool {
    &&& area.x <= r.x && r.x + r.width <= area.x + area.width
    &&& area.y <= r.y && r.y + r.height <= area.y + area.height
}

/// Whether every share is of a weight that a pane can have.
pub open spec fn modest(parts: Seq<Part>) -> bool {
    forall|i: int| 0 <= i < parts.len() ==> match #[trigger] parts[i] {
        Part::Length(_) => true,
        Part::Fill(w) => w <= WEIGHT_MAX,
    }
}

/// Trusted: `ratatui::layout::Layout::split` gives one rectangle for each
/// constraint. Side by side they all have the height of the area, one above the
/// other its width. The solver is bound to keep every edge between those of the
/// area, so each rectangle lies in it; it reckons in floating point and takes
/// coefficients close to zero for zero, so this is claimed for the weights that panes
/// have and not for all. How the area is shared out is left to the solver. It walks
/// hash maps that each process seeds anew, so nothing says that it always picks the
/// same of several best solutions, and nothing more is claimed.
#[verifier::external_body]
fn split_area(area: Area, parts: &[Part], stacked: bool) -> (r: Vec<Area>)
    requires
        area.wf(),
    ensures
        r@.len() == parts@.len(),
        forall|i: int|
            0 <= i < r@.len() ==> if stacked {
                (#[trigger] r@[i]).x == area.x && r@[i].width == area.width
            } else {
                r@[i].y == area.y && r@[i].height == area.height
            },
        modest(parts@) ==> forall|i: int| 0 <= i < r@.len() ==> within(#[trigger] r@[i], area),
{
    let asked = parts.iter().map(
        |p|
            match p {
                Part::Length(n) => Constraint::Length(*n),
                Part::Fill(w) => Constraint::Fill(*w),
            },
    );
    let layout = if stacked { Layout::vertical(asked) } else { Layout::horizontal(asked) };
    let rects = layout.split(Rect::new(area.x, area.y, area.width, area.height));
    rects.iter().map(|r| Area { x: r.x, y: r.y, width: r.width, height: r.height }).collect()
}

/// The parts from pane `i` on: a pane's share, and a separator of one cell in
/// front of each but the first.
pub open spec fn parts_from(weights: Seq<u16>, i: int) -> Seq<Part>
    decreases weights.len() - i,
{
    if i >= weights.len() {
        Seq::empty()
    } else {
        let w = if weights[i] == 0 {
            1
        } else {
            weights[i]
        };
        (if i > 0 {
            seq![Part::Length(1), Part::Fill(w)]
        } else {
            seq![Part::Fill(w)]
        }) + parts_from(weights, i + 1)
    }
}

/// The parts of the workspace, for panes of the given weights.
pub fn pane_parts(weights: &[u16]) -> (parts: Vec<Part>)
    requires
        weights@.len() > 0,
    ensures
        parts@ == parts_from(weights@, 0),
        parts@.len() == 2 * weights@.len() - 1,
{
    let mut parts: Vec<Part> = Vec::new();
    let mut i: usize = 0;
    assert(parts@ + parts_from(weights@, 0) =~= parts_from(weights@, 0));
    while i < weights.len()
        invariant
            i <= weights@.len(),
            parts@.len() == (if i == 0 {
                0
            } else {
                2 * i - 1
            }),
            parts@ + parts_from(weights@, i as int) == parts_from(weights@, 0),
        decreases weights@.len() - i,
    {
        let ghost before = parts@;
        let w: u16 = if weights[i] == 0 {
            1
        } else {
            weights[i]
        };
        if i > 0 {
            parts.push(Part::Length(1));
        }
        parts.push(Part::Fill(w));
        proof {
            let own = if i > 0 {
                seq![Part::Length(1), Part::Fill(w)]
            } else {
                seq![Part::Fill(w)]
            };
            assert(parts@ =~= before + own);
            let rest = parts_from(weights@, i + 1);
            assert(before + (own + rest) =~= parts@ + rest);
        }
        i += 1;
    }
    assert(parts@ + parts_from(weights@, i as int) =~= parts@);
    parts
}

proof fn lemma_modest(weights: Seq<u16>, i: int)
    requires
        0 <= i,
        forall|k: int| 0 <= k < weights.len() ==> #[trigger] weights[k] <= WEIGHT_MAX,
    ensures
        modest(parts_from(weights, i)),
    decreases weights.len() - i,
{
    if i < weights.len() {
        lemma_modest(weights, i + 1);
    }
}

/// Split the screen into pane rects interleaved with 1-cell separator rects:
/// `[pane0, sep, pane1, sep, …]`. Side by side (columns) by default, stacked
/// (rows) when `stacked`. Each pane takes a share of the leftover space (after the
/// fixed-size separators) in proportion to its weight. The shares are up to the
/// layout solver; what is handed to it are the parts of [`pane_parts`].
pub fn pane_layout(area: Area, weights: &[u16], stacked: bool) -> (r: Vec<Area>)
    requires
        area.wf(),
        weights@.len() > 0,
    ensures
        r@.len() == 2 * weights@.len() - 1,
        forall|i: int|
            0 <= i < r@.len() ==> if stacked {
                (#[trigger] r@[i]).x == area.x && r@[i].width == area.width
            } else {
                r@[i].y == area.y && r@[i].height == area.height
            },
        (forall|k: int| 0 <= k < weights@.len() ==> #[trigger] weights@[k] <= WEIGHT_MAX) ==> forall|
            i: int,
        |
            0 <= i < r@.len() ==> within(#[trigger] r@[i], area),
{
    let parts = pane_parts(weights);
    proof {
        if forall|k: int| 0 <= k < weights@.len() ==> #[trigger] weights@[k] <= WEIGHT_MAX {
            lemma_modest(weights@, 0);
        }
    }
    split_area(area, parts.as_slice(), stacked)
}

/// The area above the footer row.
pub open spec fn above_footer(area: Area) -> Area {
    Area {
        height: if area.height > 0 {
            (area.height - 1) as u16
        } else {
            0
        },
        ..area
    }
}

/// The vertical span used for panes: everything above the global footer row.
pub fn panes_area(area: Area) -> (r: Area)
    ensures
        r == above_footer(area),
        area.wf() ==> r.wf(),
{
    Area {
        x: area.x,
        y: area.y,
        width: area.width,
        height: if area.height > 0 {
            area.height - 1
        } else {
            0
        },
    }
}

/// The rows that a pane has for its content: all but its title, and at least one.
pub open spec fn content_rows(rect: Area) -> int {
    if rect.height > 1 {
        rect.height - 1
    } else {
        1
    }
}

pub fn content_height(rect: Area) -> (h: usize)
    ensures
        h == content_rows(rect),
        h > 0,
{
    if rect.height > 1 {
        (rect.height - 1) as usize
    } else {
        1
    }
}

/// Whether a cell of the screen lies in a rectangle.
pub open spec fn holds_cell(r: Area, col: u16, row: u16) -> bool {
    r.x <= col && col < r.x + r.width && r.y <= row && row < r.y + r.height
}

/// The first pane from number `i` on that a cell falls in.
pub open spec fn pane_of_cell(rects: Seq<Area>, panes: int, i: int, col: u16, row: u16) -> Option<int>
    decreases panes - i,
{
    if i >= panes {
        None
    } else if holds_cell(rects[2 * i], col, row) {
        Some(i)
    } else {
        pane_of_cell(rects, panes, i + 1, col, row)
    }
}

/// Which pane (index) the screen cell `(col, row)` falls in, if any, for routing a
/// mouse-wheel scroll to the pane under the cursor. `rects` is what [`pane_layout`]
/// gave for the panes.
pub fn pane_at(rects: &[Area], panes: usize, col: u16, row: u16) -> (r: Option<usize>)
    requires
        panes > 0 ==> rects@.len() >= 2 * panes - 1,
    ensures
        match r {
            Some(i) => pane_of_cell(rects@, panes as int, 0, col, row) == Some(i as int) && i
                < panes,
            None => pane_of_cell(rects@, panes as int, 0, col, row) is None,
        },
{
    let n: usize = rects.len();
    let mut i: usize = 0;
    while i < panes
        invariant
            panes > 0 ==> rects@.len() >= 2 * panes - 1,
            n == rects@.len(),
            i <= panes,
            pane_of_cell(rects@, panes as int, 0, col, row) == pane_of_cell(
                rects@,
                panes as int,
                i as int,
                col,
                row,
            ),
        decreases panes - i,
    {
        let a: Area = rects[i * 2];
        let inside = a.x <= col && ((col - a.x) as u32) < a.width as u32 && a.y <= row && ((row
            - a.y) as u32) < a.height as u32;
        if inside {
            return Some(i);
        }
        i += 1;
    }
    None
}

/// The pane that a cell falls in is one whose rectangle has the cell in it, the first such,
/// and there is none only where no pane has it.
pub proof fn law_the_pane_under_a_cell(
    rects: Seq<Area>,
    panes: int,
    i: int,
    col: u16,
    row: u16,
)
    requires
        0 <= i <= panes,
    ensures
        match pane_of_cell(rects, panes, i, col, row) {
            Some(k) => {
                let r = rects[2 * k];
                &&& i <= k < panes
                &&& r.x <= col < r.x + r.width
                &&& r.y <= row < r.y + r.height
                &&& forall|j: int| i <= j < k ==> !#[trigger] holds_cell(rects[2 * j], col, row)
            },
            None => forall|j: int|
                i <= j < panes ==> {
                    let r = #[trigger] rects[2 * j];
                    !(r.x <= col < r.x + r.width && r.y <= row < r.y + r.height)
                },
        },
    decreases panes - i,
{
    if i < panes && !holds_cell(rects[2 * i], col, row) {
        law_the_pane_under_a_cell(rects, panes, i + 1, col, row);
        if pane_of_cell(rects, panes, i, col, row) is None {
            assert forall|j: int| i <= j < panes implies ({
                let r = #[trigger] rects[2 * j];
                !(r.x <= col < r.x + r.width && r.y <= row < r.y + r.height)
            }) by {
                if j > i {
                    let r = rects[2 * j];
                }
            }
        }
    }
}

} // verus!
