//! The `T` table view: a sequence read as rows and columns instead of an outline.
//!
//! Columns come from the same inference that backs the `t` overlay
//! ([`crate::schema::columns`]), and rows are the container's own
//! lazily-enumerated children, so tabulating a 1 GB array costs what scrolling it
//! costs. Only the visible window is enumerated, and a cell is a byte range
//! resolved on the fly (a short `Cursor` walk inside one row), never a
//! materialized value.
//!
//! The table owns no data: it is a cursor (`row`, `col`), a scroll pair, and the
//! window of cells last painted. The rows themselves stay in the pane's [`Node`]
//! tree, which is why stepping out of the table lands on the row you were
//! reading.

use crate::columns::{column_views, Column, ColumnV};
use crate::comparing::{first_labelled, none_labelled};
use crate::filter::{
    elements, first_children, labelled, lemma_child_value_wf, lemma_level_of_wf, value_of,
    value_wf, ValueV,
};
use crate::scanner::{
    addressable, after_next, children_from, lemma_next_child, level_of, next_child, ChildV, Cursor,
    Kind,
};
use crate::text::texts;
use crate::tree::{
    brief_text, brief_value, fresh_node, lemma_scanned_to_keeps, node_wf, scanned_to, value_range,
    BRIEF_WIDTH, Node, NodeV,
};
use vstd::prelude::*;

verus! {

/// Narrowest a column may be drawn: enough for `…` plus a character or two.
pub const MIN_COL_W: usize = 3;

/// Blank cells between columns.
pub const COL_GAP: usize = 2;

/// Object keys scanned looking for one cell's field before giving up. A row with
/// more keys than this is pathological; the cell reads as missing.
pub const CELL_KEY_CAP: usize = 512;

/// Rows enumerated past the bottom of the window. Without slack the cursor could
/// only ever step one row past what's been scanned, so a page-down would crawl a
/// row at a time.
pub const ROW_LOOKAHEAD: usize = 64;

/// Widest the row-label gutter (index or map key) may grow.
pub const MAX_LABEL_W: usize = 16;

/// One cell of the visible window.
pub struct Cell {
    /// The value, briefly (`"alice"`, `42`, `{…}`); empty when the row has no
    /// such field, which is how a sparse column reads as a gap.
    pub text: String,
    /// The value's actual kind, for coloring. `None` when the field is missing.
    pub kind: Option<Kind>,
}

/// One visible row: the child's label (array index or map key) plus its cells,
/// one per column, in column order.
pub struct Row {
    pub label: String,
    pub cells: Vec<Cell>,
}

/// A pane's table view. Attached to the pane by `T` and dropped when it's
/// pressed again; the pane's tree keeps running underneath.
pub struct Table {
    /// Index path to the tabulated container in the pane's tree.
    pub root: Vec<usize>,
    /// The container's label, for the pane title.
    pub title: String,
    pub cols: Vec<Column>,
    /// How many columns the inferred type had before sparse ones were dropped,
    /// so the title can admit to hiding some.
    pub total_cols: usize,
    /// Cursor: which row (child index) and column are selected.
    pub row: usize,
    pub col: usize,
    /// Top visible row, and the leftmost visible column.
    pub scroll: usize,
    pub hscroll: usize,
    /// The rows currently on screen, rebuilt every frame by [`Table::refresh`].
    pub window: Vec<Row>,
    /// Children enumerated so far, and whether that's all of them. Like the tree,
    /// a huge level is only walked as far as it's scrolled.
    pub known: usize,
    pub done: bool,
    /// Drawn width of each column, and of the row-label gutter.
    pub widths: Vec<usize>,
    pub label_w: usize,
}

// ---------------------------------------------------------------------------
// The table as the contracts speak of it
// ---------------------------------------------------------------------------
pub struct CellV {
    pub text: Seq<char>,
    pub kind: Option<Kind>,
}

pub struct TableRowV {
    pub label: Seq<char>,
    pub cells: Seq<CellV>,
}

pub struct TableV {
    pub root: Seq<usize>,
    pub title: Seq<char>,
    pub cols: Seq<ColumnV>,
    pub total_cols: int,
    pub row: int,
    pub col: int,
    pub scroll: int,
    pub hscroll: int,
    pub window: Seq<TableRowV>,
    pub known: int,
    pub done: bool,
    pub widths: Seq<usize>,
    pub label_w: int,
}

pub open spec fn cell_views(cells: Seq<Cell>) -> Seq<CellV> {
    Seq::new(cells.len(), |i: int| CellV { text: cells[i].text@, kind: cells[i].kind })
}

pub open spec fn table_row_views(rows: Seq<Row>) -> Seq<TableRowV> {
    Seq::new(
        rows.len(),
        |i: int| TableRowV { label: rows[i].label@, cells: cell_views(rows[i].cells@) },
    )
}

impl View for Table {
    type V = TableV;

    open spec fn view(&self) -> TableV {
        TableV {
            root: self.root@,
            title: self.title@,
            cols: column_views(self.cols@),
            total_cols: self.total_cols as int,
            row: self.row as int,
            col: self.col as int,
            scroll: self.scroll as int,
            hscroll: self.hscroll as int,
            window: table_row_views(self.window@),
            known: self.known as int,
            done: self.done,
            widths: self.widths@,
            label_w: self.label_w as int,
        }
    }
}

pub open spec fn least(x: int, y: int) -> int {
    if x <= y {
        x
    } else {
        y
    }
}

pub open spec fn greatest(x: int, y: int) -> int {
    if x >= y {
        x
    } else {
        y
    }
}

/// The field of one row that `path` leads to.
pub open spec fn cell_value(b: Seq<u8>, v: ValueV, path: Seq<Seq<char>>, k: int) -> Option<ValueV>
    decreases path.len() - k,
{
    if k >= path.len() {
        Some(v)
    } else if !(v.kind is Object) {
        None
    } else {
        let cs = first_children(elements(b, v), CELL_KEY_CAP as int);
        match labelled(cs, path[k], 0) {
            Some(i) => cell_value(b, value_of(cs[i]), path, k + 1),
            None => None,
        }
    }
}

/// What a column shows of one row.
pub open spec fn cell(b: Seq<u8>, n: NodeV, c: ColumnV) -> CellV {
    match cell_value(b, ValueV { start: n.start, end: n.end, kind: n.kind }, c.path, 0) {
        Some(v) => CellV { text: brief_text(b, v.start, v.end, v.kind), kind: Some(v.kind) },
        None => CellV { text: Seq::empty(), kind: None },
    }
}

pub open spec fn table_row(b: Seq<u8>, n: NodeV, cols: Seq<ColumnV>) -> TableRowV {
    TableRowV { label: n.label, cells: Seq::new(cols.len(), |i: int| cell(b, n, cols[i])) }
}

/// The rows of the children from `from` up to `to`.
pub open spec fn window_rows(
    b: Seq<u8>,
    n: NodeV,
    cols: Seq<ColumnV>,
    from: int,
    to: int,
) -> Seq<TableRowV> {
    Seq::new((to - from) as nat, |i: int| table_row(b, n.children[from + i], cols))
}

/// The length of the longest label in the window.
pub open spec fn longest_label(w: Seq<TableRowV>) -> int
    decreases w.len(),
{
    if w.len() == 0 {
        0
    } else {
        greatest(longest_label(w.drop_last()), w.last().label.len() as int)
    }
}

/// The length of the longest text of column `i` in the window.
pub open spec fn longest_cell(w: Seq<TableRowV>, i: int) -> int
    decreases w.len(),
{
    if w.len() == 0 {
        0
    } else {
        greatest(
            longest_cell(w.drop_last(), i),
            if i < w.last().cells.len() {
                w.last().cells[i].text.len() as int
            } else {
                0
            },
        )
    }
}

/// `x` brought into `[lo, hi]`.
pub open spec fn clamped(x: int, lo: int, hi: int) -> int {
    if x < lo {
        lo
    } else if x > hi {
        hi
    } else {
        x
    }
}

/// A table with its columns sized to the widest thing in them: header or visible
/// cell, within the cell-preview cap.
#[verifier::opaque]
pub open spec fn measured(t: TableV) -> TableV {
    TableV {
        label_w: clamped(longest_label(t.window), 1, MAX_LABEL_W as int),
        widths: Seq::new(
            t.cols.len(),
            |i: int|
                clamped(
                    greatest(longest_cell(t.window, i), t.cols[i].label.len() as int),
                    MIN_COL_W as int,
                    BRIEF_WIDTH as int,
                ) as usize,
        ),
        ..t
    }
}

pub open spec fn column_width(t: TableV, i: int) -> int {
    if 0 <= i < t.widths.len() {
        t.widths[i] as int
    } else {
        MIN_COL_W as int
    }
}

/// The columns from number `i` on that fit in a pane, from `x` on, as column
/// number, offset and width. The first one counts as fitting.
pub open spec fn fitting(t: TableV, i: int, x: int, width: int, first: bool) -> Seq<
    (usize, usize, usize),
>
    decreases t.cols.len() - i,
{
    let w = column_width(t, i);
    if i >= t.cols.len() || x + w > width && !first {
        Seq::empty()
    } else {
        seq![(i as usize, x as usize, w as usize)] + fitting(
            t,
            i + 1,
            x + w + COL_GAP,
            width,
            false,
        )
    }
}

/// The columns on screen, behind the row-label gutter.
pub open spec fn placed(t: TableV, width: int) -> Seq<(usize, usize, usize)> {
    fitting(t, t.hscroll, t.label_w + COL_GAP, width, true)
}

pub open spec fn shows_column(t: TableV, width: int, col: int) -> bool {
    exists|k: int| 0 <= k < placed(t, width).len() && (#[trigger] placed(t, width)[k]).0 == col
}

/// How far the table is scrolled sideways to have the cursor's column on screen,
/// from `h` on.
#[verifier::opaque]
pub open spec fn followed(t: TableV, width: int, h: int) -> int
    decreases t.col - h,
{
    if h < t.col && !shows_column(TableV { hscroll: h, ..t }, width, t.col) {
        followed(t, width, h + 1)
    } else {
        h
    }
}

/// The top row once the cursor has been followed.
pub open spec fn scrolled(row: int, scroll: int, vis: int) -> int {
    if row < scroll {
        row
    } else if row >= scroll + vis {
        row + 1 - vis
    } else {
        scroll
    }
}

/// The table over the children of `n`, with `vis` rows and `width` columns of
/// room, and `n` as far as it had to be scanned.
pub open spec fn refreshed(b: Seq<u8>, t: TableV, n: NodeV, vis: int, width: int) -> (
    TableV,
    NodeV,
) {
    let vis = greatest(vis, 1);
    if t.cols.len() == 0 {
        (t, n)
    } else {
        let top = scrolled(t.row, t.scroll, vis);
        let m = scanned_to(b, n, top + vis + ROW_LOOKAHEAD);
        (filled_table(b, t, m, top, vis, width), m)
    }
}

/// The table over the children of `m` that have been scanned, from about `top` on.
pub open spec fn filled_table(
    b: Seq<u8>,
    t: TableV,
    m: NodeV,
    top: int,
    vis: int,
    width: int,
) -> TableV {
    let known = m.children.len() as int;
    let t1 = settled(t, known, m.done, top, vis);
    if known == 0 {
        measured(TableV { window: Seq::empty(), ..t1 })
    } else {
        let window = window_rows(b, m, t.cols, t1.scroll, least(t1.scroll + vis, known));
        let t2 = measured(TableV { window, ..t1 });
        let hscroll = if t2.col < t2.hscroll {
            t2.col
        } else {
            followed(t2, width, t2.hscroll)
        };
        TableV { hscroll, ..t2 }
    }
}

/// The table with its cursor and scroll brought into what is known.
pub open spec fn settled(t: TableV, known: int, done: bool, top: int, vis: int) -> TableV {
    let row = if known == 0 {
        0
    } else {
        least(t.row, known - 1)
    };
    TableV {
        col: least(t.col, t.cols.len() - 1),
        row,
        scroll: if known == 0 {
            0
        } else {
            scrolled(row, least(top, row), vis)
        },
        known,
        done,
        ..t
    }
}

/// Walk `path` inside one row's bytes, returning the field's range and kind.
/// Lenient like the filter language: a row missing the field simply has no cell.
pub fn resolve(b: &[u8], start: usize, end: usize, kind: Kind, path: &[String]) -> (r: Option<
    (usize, usize, Kind),
>)
    requires
        value_range(b@, start as int, end as int, kind),
    ensures
        ({
            let v = ValueV { start: start as int, end: end as int, kind };
            match cell_value(b@, v, texts(path@), 0) {
                Some(w) => r matches Some(x) && (ValueV {
                    start: x.0 as int,
                    end: x.1 as int,
                    kind: x.2,
                }) == w && value_wf(b@, w),
                None => r is None,
            }
        }),
{
    let ghost names = texts(path@);
    let ghost v0 = ValueV { start: start as int, end: end as int, kind };
    let mut s: usize = start;
    let mut e: usize = end;
    let mut k: Kind = kind;
    let mut i: usize = 0;
    while i < path.len()
        invariant
            i <= path@.len(),
            names == texts(path@),
            v0 == (ValueV { start: start as int, end: end as int, kind }),
            value_range(b@, s as int, e as int, k),
            cell_value(b@, v0, names, 0) == cell_value(
                b@,
                ValueV { start: s as int, end: e as int, kind: k },
                names,
                i as int,
            ),
        decreases path@.len() - i,
    {
        if !matches!(k, Kind::Object) {
            return None;
        }
        match find_field(b, s, e, &path[i]) {
            None => {
                return None;
            },
            Some((hs, he, hk)) => {
                s = hs;
                e = he;
                k = hk;
            },
        }
        i += 1;
    }
    Some((s, e, k))
}

/// The member of an object with the given key, among the first ones.
fn find_field(b: &[u8], start: usize, end: usize, key: &String) -> (r: Option<
    (usize, usize, Kind),
>)
    requires
        value_range(b@, start as int, end as int, Kind::Object),
    ensures
        ({
            let v = ValueV { start: start as int, end: end as int, kind: Kind::Object };
            let cs = first_children(elements(b@, v), CELL_KEY_CAP as int);
            match labelled(cs, key@, 0) {
                Some(i) => r matches Some(x) && (ValueV {
                    start: x.0 as int,
                    end: x.1 as int,
                    kind: x.2,
                }) == value_of(cs[i]) && value_wf(b@, value_of(cs[i])),
                None => r is None,
            }
        }),
{
    let ghost v = ValueV { start: start as int, end: end as int, kind: Kind::Object };
    let ghost all = elements(b@, v);
    let ghost cs = first_children(all, CELL_KEY_CAP as int);
    let mut cur = Cursor::new(start, end, false);
    let mut i: usize = 0;
    proof {
        lemma_level_of_wf(b@, v);
        assert(all.skip(0) =~= all);
    }
    while i < CELL_KEY_CAP
        invariant
            addressable(b@),
            cur.wf(b@),
            i <= CELL_KEY_CAP,
            i <= all.len(),
            cs == first_children(all, CELL_KEY_CAP as int),
            cur.model(b@).level.index == i,
            children_from(b@, cur.model(b@).level) == all.skip(i as int),
            labelled(cs, key@, 0) == labelled(cs, key@, i as int),
            v == (ValueV { start: start as int, end: end as int, kind: Kind::Object }),
            all == elements(b@, v),
        decreases CELL_KEY_CAP - i,
    {
        let ghost s = cur.model(b@).level;
        proof {
            lemma_next_child(b@, s);
        }
        match cur.next(b) {
            None => {
                assert(all.skip(i as int).len() == 0);
                return None;
            },
            Some(f) => {
                proof {
                    lemma_child_value_wf(b@, s);
                    assert(all.skip(i as int)[0] == f@);
                    assert(children_from(b@, cur.model(b@).level) =~= all.skip(i as int).skip(1));
                    assert(all.skip(i as int).skip(1) =~= all.skip(i + 1));
                    assert(cs[i as int] == f@);
                }
                if f.label == *key {
                    return Some((f.start, f.end, f.kind));
                }
                i += 1;
            },
        }
    }
    None
}

fn text_len(s: &String) -> (n: usize)
    ensures
        n == s@.len(),
{
    s.as_str().unicode_len()
}

impl Table {
    /// The measured widths are within their caps.
    pub open spec fn wf(&self) -> bool {
        &&& self.label_w <= MAX_LABEL_W
        &&& forall|i: int| 0 <= i < self.widths@.len() ==> #[trigger] self.widths@[i] <= BRIEF_WIDTH
    }

    pub fn new(root: Vec<usize>, title: String, cols: Vec<Column>, total_cols: usize) -> (r: Table)
        ensures
            r.wf(),
            r@ == (TableV {
                root: root@,
                title: title@,
                cols: column_views(cols@),
                total_cols: total_cols as int,
                row: 0,
                col: 0,
                scroll: 0,
                hscroll: 0,
                window: Seq::empty(),
                known: 0,
                done: false,
                widths: Seq::new(cols@.len(), |i: int| MIN_COL_W),
                label_w: 1,
            }),
    {
        let mut widths: Vec<usize> = Vec::new();
        let n: usize = cols.len();
        let mut i: usize = 0;
        while i < n
            invariant
                i <= n,
                widths@ == Seq::new(i as nat, |k: int| MIN_COL_W),
            decreases n - i,
        {
            widths.push(MIN_COL_W);
            i += 1;
            assert(widths@ =~= Seq::new(i as nat, |k: int| MIN_COL_W));
        }
        let r = Table {
            root,
            title,
            cols,
            total_cols,
            row: 0,
            col: 0,
            scroll: 0,
            hscroll: 0,
            window: Vec::new(),
            known: 0,
            done: false,
            widths,
            label_w: 1,
        };
        assert(r@.window =~= Seq::empty());
        assert(r@.widths =~= Seq::new(n as nat, |i: int| MIN_COL_W));
        r
    }

    /// Size each column to the widest thing in it (header or visible cell) within
    /// the cell-preview cap. Widths are per-window, so the grid settles as you
    /// scroll rather than reserving room for values you can't see.
    fn measure(&mut self)
        ensures
            final(self).wf(),
            final(self)@ == measured(old(self)@),
            final(self).row == old(self).row,
    {
        proof {
            reveal(measured);
        }
        let ghost t = self@;
        let ghost w = t.window;
        let mut longest: usize = 0;
        let mut i: usize = 0;
        assert(w.take(0) =~= Seq::empty());
        while i < self.window.len()
            invariant
                w == table_row_views(self.window@),
                i <= self.window@.len(),
                longest == longest_label(w.take(i as int)),
            decreases self.window@.len() - i,
        {
            let n: usize = text_len(&self.window[i].label);
            proof {
                assert(w.take(i + 1).drop_last() =~= w.take(i as int));
                assert(w.take(i + 1).last() == w[i as int]);
            }
            if n > longest {
                longest = n;
            }
            i += 1;
        }
        assert(w.take(w.len() as int) =~= w);
        let mut widths: Vec<usize> = Vec::new();
        let mut c: usize = 0;
        while c < self.cols.len()
            invariant
                t == self@,
                w == table_row_views(self.window@),
                w == t.window,
                c <= self.cols@.len(),
                widths@ == measured(t).widths.take(c as int),
                forall|k: int| 0 <= k < c ==> #[trigger] widths@[k] <= BRIEF_WIDTH,
            decreases self.cols@.len() - c,
        {
            let mut most: usize = 0;
            let mut k: usize = 0;
            assert(w.take(0) =~= Seq::empty());
            while k < self.window.len()
                invariant
                    w == table_row_views(self.window@),
                    k <= self.window@.len(),
                    most == longest_cell(w.take(k as int), c as int),
                decreases self.window@.len() - k,
            {
                proof {
                    assert(w.take(k + 1).drop_last() =~= w.take(k as int));
                    assert(w.take(k + 1).last() == w[k as int]);
                }
                if c < self.window[k].cells.len() {
                    let n: usize = text_len(&self.window[k].cells[c].text);
                    if n > most {
                        most = n;
                    }
                }
                k += 1;
            }
            assert(w.take(w.len() as int) =~= w);
            let n: usize = text_len(&self.cols[c].label);
            if n > most {
                most = n;
            }
            proof {
                reveal(measured);
            }
            let width: usize = if most < MIN_COL_W {
                MIN_COL_W
            } else if most > BRIEF_WIDTH {
                BRIEF_WIDTH
            } else {
                most
            };
            assert(t.cols[c as int].label.len() == n);
            widths.push(width);
            c += 1;
            assert(widths@ =~= measured(t).widths.take(c as int));
        }
        self.label_w = if longest < 1 {
            1
        } else if longest > MAX_LABEL_W {
            MAX_LABEL_W
        } else {
            longest
        };
        self.widths = widths;
        assert(self.widths@ =~= measured(t).widths);
    }

    /// The columns that fit in a pane `width` starting at `hscroll`, as `(column
    /// index, x offset, drawn width)`. The row-label gutter is always drawn first,
    /// so it acts as a pinned key column. At least one column is always returned
    /// where any is left, even in a pane too narrow for it.
    pub fn layout(&self, width: usize) -> (out: Vec<(usize, usize, usize)>)
        requires
            self.wf(),
            width <= usize::MAX - COL_GAP,
        ensures
            out@ == placed(self@, width as int),
    {
        let ghost t = self@;
        let mut out: Vec<(usize, usize, usize)> = Vec::new();
        let mut x: usize = self.label_w + COL_GAP;
        let mut i: usize = self.hscroll;
        assert(out@ + placed(t, width as int) =~= placed(t, width as int));
        while i < self.cols.len()
            invariant
                t == self@,
                self.wf(),
                width <= usize::MAX - COL_GAP,
                out@.len() == 0 ==> x <= MAX_LABEL_W + COL_GAP,
                out@ + fitting(t, i as int, x as int, width as int, out@.len() == 0) == placed(
                    t,
                    width as int,
                ),
            ensures
                out@ == placed(t, width as int),
            decreases self.cols@.len() - i,
        {
            let w: usize = if i < self.widths.len() {
                self.widths[i]
            } else {
                MIN_COL_W
            };
            let ghost before = out@;
            let rest = x > width || w > width - x;
            if rest && out.len() > 0 {
                assert(out@ + Seq::<(usize, usize, usize)>::empty() =~= out@);
                break;
            }
            let ghost tail = fitting(t, i + 1, x + w + COL_GAP, width as int, false);
            out.push((i, x, w));
            proof {
                assert(before.push((i, x, w)) + tail =~= before + (seq![(i, x, w)] + tail));
            }
            x = x + w + COL_GAP;
            i += 1;
            proof {
                if i >= self.cols@.len() {
                    assert(out@ + Seq::<(usize, usize, usize)>::empty() =~= out@);
                }
            }
        }
        out
    }

    fn shows(&self, width: usize, col: usize) -> (r: bool)
        requires
            self.wf(),
            width <= usize::MAX - COL_GAP,
        ensures
            r == shows_column(self@, width as int, col as int),
    {
        let out = self.layout(width);
        let mut k: usize = 0;
        while k < out.len()
            invariant
                k <= out@.len(),
                out@ == placed(self@, width as int),
                forall|j: int| 0 <= j < k ==> (#[trigger] out@[j]).0 != col,
            decreases out@.len() - k,
        {
            if out[k].0 == col {
                assert(placed(self@, width as int)[k as int].0 == col);
                return true;
            }
            k += 1;
        }
        false
    }

    /// Scroll horizontally just enough to keep the cursor column on screen.
    fn follow_col(&mut self, width: usize)
        requires
            old(self).wf(),
            width <= usize::MAX - COL_GAP,
        ensures
            final(self).wf(),
            ({
                let t = old(self)@;
                final(self)@ == (TableV {
                    hscroll: if t.col < t.hscroll {
                        t.col
                    } else {
                        followed(t, width as int, t.hscroll)
                    },
                    ..t
                })
            }),
    {
        proof {
            reveal_with_fuel(followed, 2);
        }
        let ghost t = self@;
        if self.col < self.hscroll {
            self.hscroll = self.col;
            return;
        }
        while self.hscroll < self.col && !self.shows(width, self.col)
            invariant
                self.wf(),
                width <= usize::MAX - COL_GAP,
                self@ == (TableV { hscroll: self.hscroll as int, ..t }),
                followed(t, width as int, self.hscroll as int) == followed(
                    t,
                    width as int,
                    t.hscroll,
                ),
            decreases self.col - self.hscroll,
        {
            proof {
                reveal_with_fuel(followed, 2);
            }
            self.hscroll = self.hscroll + 1;
        }
    }

    /// Enumerate the visible rows, resolve their cells, and re-measure the
    /// columns. `vis` is how many data rows fit (the header is already
    /// subtracted); `width` is the pane's, for the horizontal scroll.
    pub fn refresh(&mut self, node: &mut Node, b: &[u8], vis: usize, width: usize)
        requires
            old(self).wf(),
            old(node).wf(b@),
            old(self).row + vis + ROW_LOOKAHEAD < usize::MAX,
            old(self).scroll + vis + ROW_LOOKAHEAD < usize::MAX,
            width <= usize::MAX - COL_GAP,
        ensures
            final(self).wf(),
            final(node).wf(b@),
            final(node).jsonl == old(node).jsonl,
            refreshed(b@, old(self)@, old(node).model(b@), vis as int, width as int) == (
                final(self)@,
                final(node).model(b@),
            ),
    {
        let vis: usize = if vis > 1 {
            vis
        } else {
            1
        };
        if self.cols.len() == 0 {
            return;
        }
        // Follow the cursor vertically before enumerating, so a jump only scans as
        // far as the rows it actually lands on.
        let top: usize = if self.row < self.scroll {
            self.row
        } else if self.row >= self.scroll + vis {
            self.row + 1 - vis
        } else {
            self.scroll
        };
        let ghost n0 = node.model(b@);
        // One eager scan for the window plus its lookahead.
        node.ensure_child(b, top + vis + ROW_LOOKAHEAD);
        proof {
            lemma_scanned_to_keeps(b@, n0, top + vis + ROW_LOOKAHEAD);
        }
        self.fill(node, b, top, vis, width);
    }

    /// Show the children that have been scanned, from about `top` on.
    fn fill(&mut self, node: &Node, b: &[u8], top: usize, vis: usize, width: usize)
        requires
            old(self).wf(),
            node.wf(b@),
            vis >= 1,
            top + vis < usize::MAX,
            old(self).cols@.len() > 0,
            width <= usize::MAX - COL_GAP,
        ensures
            final(self).wf(),
            final(self)@ == filled_table(
                b@,
                old(self)@,
                node.model(b@),
                top as int,
                vis as int,
                width as int,
            ),
    {
        let end: usize = self.settle(node.children.len(), node.done, top, vis);
        let window = if self.known == 0 {
            Vec::new()
        } else {
            self.build_window(node, b, self.scroll, end)
        };
        self.window = window;
        let some = self.known > 0;
        if !some {
            // An empty container still draws its header, so the columns still need
            // measuring, off the labels alone.
            assert(self@.window =~= Seq::empty());
        }
        self.measure();
        if some {
            self.follow_col(width);
        }
    }

    /// Bring the cursor and the scroll into what is known, and give the row behind
    /// the last visible one.
    fn settle(&mut self, known: usize, done: bool, top: usize, vis: usize) -> (end: usize)
        requires
            old(self).wf(),
            old(self).cols@.len() > 0,
            vis >= 1,
            top + vis < usize::MAX,
        ensures
            final(self).wf(),
            final(self).cols == old(self).cols,
            final(self).known == known,
            final(self)@ == settled(old(self)@, known as int, done, top as int, vis as int),
            known > 0 ==> end == least(final(self).scroll + vis, known as int)
                && final(self).scroll <= end,
    {
        if self.col > self.cols.len() - 1 {
            self.col = self.cols.len() - 1;
        }
        self.known = known;
        self.done = done;
        if known == 0 {
            self.row = 0;
            self.scroll = 0;
            return 0;
        }
        if self.row > known - 1 {
            self.row = known - 1;
        }
        self.scroll = if top > self.row {
            self.row
        } else {
            top
        };
        if self.row >= self.scroll + vis {
            self.scroll = self.row + 1 - vis;
        }
        if vis < known - self.scroll {
            self.scroll + vis
        } else {
            known
        }
    }

    /// The rows of the children from `from` up to `to`.
    fn build_window(&self, node: &Node, b: &[u8], from: usize, to: usize) -> (window: Vec<Row>)
        requires
            node.wf(b@),
            from <= to <= node.children@.len(),
        ensures
            table_row_views(window@) == window_rows(
                b@,
                node.model(b@),
                column_views(self.cols@),
                from as int,
                to as int,
            ),
    {
        let mut window: Vec<Row> = Vec::new();
        let mut i: usize = from;
        let ghost cols = column_views(self.cols@);
        let ghost top = from as int;
        let ghost m = node.model(b@);
        while i < to
            invariant
                node.wf(b@),
                m == node.model(b@),
                cols == column_views(self.cols@),
                top <= i <= to <= node.children@.len(),
                table_row_views(window@) == window_rows(b@, m, cols, top, i as int),
            decreases to - i,
        {
            let child = &node.children[i];
            proof {
                assert(m.children[i as int] == child.model(b@));
                assert(node_wf(b@, m.children[i as int]));
            }
            let cells = self.row_cells(child, b);
            let ghost before = table_row_views(window@);
            window.push(Row { label: child.label.clone(), cells });
            i += 1;
            proof {
                assert(table_row_views(window@) =~= before.push(
                    table_row(b@, m.children[i - 1], cols),
                ));
                assert(table_row_views(window@) =~= window_rows(b@, m, cols, top, i as int));
            }
        }
        window
    }

    /// The cells of one row.
    fn row_cells(&self, child: &Node, b: &[u8]) -> (cells: Vec<Cell>)
        requires
            child.wf(b@),
        ensures
            cell_views(cells@) == table_row(
                b@,
                child.model(b@),
                column_views(self.cols@),
            ).cells,
    {
        let ghost n = child.model(b@);
        let ghost cols = column_views(self.cols@);
        let mut cells: Vec<Cell> = Vec::new();
        let mut c: usize = 0;
        while c < self.cols.len()
            invariant
                child.wf(b@),
                n == child.model(b@),
                cols == column_views(self.cols@),
                c <= self.cols@.len(),
                cell_views(cells@) == Seq::new(c as nat, |i: int| cell(b@, n, cols[i])),
            decreases self.cols@.len() - c,
        {
            let ghost before = cell_views(cells@);
            let one = match resolve(
                b,
                child.start,
                child.end,
                child.kind,
                self.cols[c].path.as_slice(),
            ) {
                Some((s, e, k)) => Cell { text: brief_value(b, s, e, k), kind: Some(k) },
                None => Cell { text: String::new(), kind: None },
            };
            proof {
                assert(one.text@.len() == 0 ==> one.text@ =~= Seq::empty());
                assert(cols[c as int].path == texts(self.cols@[c as int].path@));
                assert(CellV { text: one.text@, kind: one.kind } == cell(b@, n, cols[c as int]));
            }
            let ghost v = CellV { text: one.text@, kind: one.kind };
            cells.push(one);
            c += 1;
            assert(cell_views(cells@) =~= before.push(v));
            assert(cell_views(cells@) =~= Seq::new(c as nat, |i: int| cell(b@, n, cols[i])));
        }
        cells
    }

    /// The window row under the cursor, if it's on screen.
    pub fn cursor_row(&self) -> (r: Option<&Row>)
        ensures
            match r {
                Some(x) => self.scroll <= self.row && self.row - self.scroll < self.window@.len()
                    && *x == self.window@[self.row - self.scroll],
                None => self.row < self.scroll || self.row - self.scroll >= self.window@.len(),
            },
    {
        if self.row < self.scroll || self.row - self.scroll >= self.window.len() {
            None
        } else {
            Some(&self.window[self.row - self.scroll])
        }
    }

    /// The byte range of the cell under the cursor, resolved against the tree:
    /// what Enter peeks and `y` copies. `None` when the row lacks the field.
    pub fn cursor_range(&self, node: &Node, b: &[u8]) -> (r: Option<(usize, usize, Kind)>)
        requires
            node.wf(b@),
        ensures
            match cursor_value(b@, self@, node.model(b@)) {
                Some(w) => r matches Some(x) && (ValueV {
                    start: x.0 as int,
                    end: x.1 as int,
                    kind: x.2,
                }) == w && value_wf(b@, w),
                None => r is None,
            },
    {
        if self.row >= node.children.len() || self.col >= self.cols.len() {
            return None;
        }
        let child = &node.children[self.row];
        proof {
            assert(node.model(b@).children[self.row as int] == child.model(b@));
            assert(node_wf(b@, node.model(b@).children[self.row as int]));
            assert(column_views(self.cols@)[self.col as int].path == texts(
                self.cols@[self.col as int].path@,
            ));
        }
        resolve(b, child.start, child.end, child.kind, self.cols[self.col].path.as_slice())
    }

    /// The label of the cursor's column, for a peek/copy status line.
    pub fn cursor_label(&self) -> (r: String)
        ensures
            r@ == cursor_title(self@),
    {
        if self.col >= self.cols.len() {
            return self.title.clone();
        }
        match self.cursor_row() {
            Some(row) => {
                let mut s = row.label.clone();
                s.push_str(".");
                s.push_str(self.cols[self.col].label.as_str());
                s
            },
            None => self.cols[self.col].label.clone(),
        }
    }
}

/// The value of the cell under the cursor.
pub open spec fn cursor_value(b: Seq<u8>, t: TableV, n: NodeV) -> Option<ValueV> {
    if 0 <= t.row < n.children.len() && 0 <= t.col < t.cols.len() {
        let c = n.children[t.row];
        cell_value(b, ValueV { start: c.start, end: c.end, kind: c.kind }, t.cols[t.col].path, 0)
    } else {
        None
    }
}

/// The label of the cell under the cursor.
pub open spec fn cursor_title(t: TableV) -> Seq<char> {
    if !(0 <= t.col < t.cols.len()) {
        t.title
    } else if t.scroll <= t.row && t.row - t.scroll < t.window.len() {
        t.window[t.row - t.scroll].label + "."@ + t.cols[t.col].label
    } else {
        t.cols[t.col].label
    }
}

// ---------------------------------------------------------------------------
// Laws
// ---------------------------------------------------------------------------
/// Where any column is left, one is on screen, however narrow the pane; and it
/// is the first one scrolled to, behind the gutter.
pub proof fn law_layout_shows_a_column(t: TableV, width: int)
    requires
        0 <= t.hscroll < t.cols.len(),
        t.hscroll <= usize::MAX,
        0 <= t.label_w + COL_GAP <= usize::MAX,
    ensures
        placed(t, width).len() > 0,
        placed(t, width)[0].0 == t.hscroll,
        placed(t, width)[0].1 == t.label_w + COL_GAP,
{
}

proof fn lemma_followed(t: TableV, width: int, h: int)
    requires
        0 <= h <= t.col < t.cols.len(),
        t.col <= usize::MAX,
        0 <= t.label_w + COL_GAP <= usize::MAX,
    ensures
        h <= followed(t, width, h) <= t.col,
        shows_column(TableV { hscroll: followed(t, width, h), ..t }, width, t.col),
    decreases t.col - h,
{
    reveal_with_fuel(followed, 2);
    if h == t.col {
        let u = TableV { hscroll: h, ..t };
        law_layout_shows_a_column(u, width);
        assert(placed(u, width)[0].0 == t.col);
    } else if !shows_column(TableV { hscroll: h, ..t }, width, t.col) {
        lemma_followed(t, width, h + 1);
    }
}

/// After a refresh the cursor's column is on screen.
pub proof fn law_cursor_column_on_screen(
    b: Seq<u8>,
    t: TableV,
    n: NodeV,
    vis: int,
    width: int,
)
    requires
        0 < t.cols.len() <= usize::MAX,
        0 <= t.col,
        0 <= t.hscroll,
        refreshed(b, t, n, vis, width).1.children.len() > 0,
    ensures
        ({
            let u = refreshed(b, t, n, vis, width).0;
            shows_column(u, width, u.col)
        }),
{
    reveal(measured);
    let v = greatest(vis, 1);
    let top = scrolled(t.row, t.scroll, v);
    let m = refreshed(b, t, n, vis, width).1;
    let t1 = settled(t, m.children.len() as int, m.done, top, v);
    let window = window_rows(b, m, t.cols, t1.scroll, least(t1.scroll + v, t1.known));
    let t2 = measured(TableV { window, ..t1 });
    if t2.col < t2.hscroll {
        let u = TableV { hscroll: t2.col, ..t2 };
        law_layout_shows_a_column(u, width);
        assert(placed(u, width)[0].0 == u.col);
    } else {
        lemma_followed(t2, width, t2.hscroll);
        let h = followed(t2, width, t2.hscroll);
        assert(TableV { hscroll: h, ..t2 } == refreshed(b, t, n, vis, width).0);
    }
}

/// After a refresh the cursor is on a row that exists, that row is on screen, and
/// the window holds as many rows as fit from its top on.
pub proof fn law_cursor_row_on_screen(b: Seq<u8>, t: TableV, n: NodeV, vis: int, width: int)
    requires
        t.cols.len() > 0,
        0 <= t.row,
        0 <= t.scroll,
        refreshed(b, t, n, vis, width).1.children.len() > 0,
    ensures
        ({
            let u = refreshed(b, t, n, vis, width).0;
            let v = greatest(vis, 1);
            &&& 0 <= u.scroll <= u.row < u.known
            &&& u.row < u.scroll + v
            &&& u.window.len() == least(v, u.known - u.scroll)
            &&& u.row - u.scroll < u.window.len()
        }),
{
    reveal(measured);
}

proof fn lemma_scan_bound(b: Seq<u8>, n: NodeV, i: int)
    requires
        0 <= i,
    ensures
        scanned_to(b, n, i).children.len() <= greatest(i + 1, n.children.len() as int),
    decreases i + 1 - n.children.len(),
{
    if n.children.len() <= i && n.cursor is Some {
        let c = n.cursor->0;
        if let Some(ch) = next_child(b, c.level) {
            let n1 = NodeV {
                children: n.children.push(fresh_node(b, ch)),
                cursor: Some(after_next(b, c)),
                ..n
            };
            lemma_scan_bound(b, n1, i);
        }
    }
}

/// Only the visible window, and a little more, is enumerated, however long the
/// sequence is.
pub proof fn law_only_the_window_is_enumerated(
    b: Seq<u8>,
    t: TableV,
    n: NodeV,
    vis: int,
    width: int,
)
    requires
        0 <= t.row,
        0 <= t.scroll,
    ensures
        ({
            let v = greatest(vis, 1);
            let m = refreshed(b, t, n, vis, width).1;
            m.children.len() <= greatest(
                scrolled(t.row, t.scroll, v) + v + ROW_LOOKAHEAD + 1,
                n.children.len() as int,
            )
        }),
{
    let v = greatest(vis, 1);
    if t.cols.len() > 0 {
        lemma_scan_bound(b, n, scrolled(t.row, t.scroll, v) + v + ROW_LOOKAHEAD);
    }
}

/// The columns on screen follow one another from the first one scrolled to, two blanks
/// apart; each but the first ends inside the pane, and the one behind the last would not.
pub proof fn law_columns_stand_side_by_side(t: TableV, width: int)
    requires
        0 <= t.hscroll < t.cols.len() <= usize::MAX,
        0 <= t.label_w,
        0 <= width,
        t.label_w + width + 2 * 0x1_0000 <= usize::MAX,
        t.widths.len() == t.cols.len(),
        forall|k: int| 0 <= k < t.widths.len() ==> (#[trigger] t.widths[k]) <= 0x1_0000,
    ensures
        ({
            let ps = placed(t, width);
            &&& ps.len() > 0 && t.hscroll + ps.len() <= t.cols.len()
            &&& ps[0].1 == t.label_w + 2
            &&& forall|k: int|
                0 <= k < ps.len() ==> (#[trigger] ps[k]).0 == t.hscroll + k && ps[k].2
                    == t.widths[t.hscroll + k]
            &&& forall|k: int, j: int|
                0 <= k && j == k + 1 && j < ps.len() ==> (#[trigger] ps[j]).1 == (
                #[trigger] ps[k]).1 + ps[k].2 + 2
            &&& forall|k: int|
                0 < k < ps.len() ==> (#[trigger] ps[k]).1 + ps[k].2 <= width
            &&& t.hscroll + ps.len() < t.cols.len() ==> ps.last().1 + ps.last().2 + 2
                + t.widths[t.hscroll + ps.len()] > width
        }),
{
    lemma_fitting(t, t.hscroll, t.label_w + COL_GAP, width, true);
}

proof fn lemma_fitting(t: TableV, i: int, x: int, width: int, first: bool)
    requires
        0 <= i <= t.cols.len() <= usize::MAX,
        0 <= x,
        0 <= width,
        x <= usize::MAX,
        first ==> i < t.cols.len(),
        x + 0x1_0000 + 2 <= usize::MAX || !first,
        width + 0x1_0000 + 2 <= usize::MAX,
        t.widths.len() == t.cols.len(),
        forall|k: int| 0 <= k < t.widths.len() ==> (#[trigger] t.widths[k]) <= 0x1_0000,
    ensures
        ({
            let ps = fitting(t, i, x, width, first);
            &&& i + ps.len() <= t.cols.len()
            &&& first ==> ps.len() > 0
            &&& ps.len() > 0 ==> ps[0].1 == x
            &&& forall|k: int|
                0 <= k < ps.len() ==> (#[trigger] ps[k]).0 == i + k && ps[k].2 == t.widths[i + k]
            &&& forall|k: int, j: int|
                0 <= k && j == k + 1 && j < ps.len() ==> (#[trigger] ps[j]).1 == (
                #[trigger] ps[k]).1 + ps[k].2 + 2
            &&& forall|k: int|
                0 <= k < ps.len() && (k > 0 || !first) ==> (#[trigger] ps[k]).1 + ps[k].2 <= width
            &&& i + ps.len() < t.cols.len() ==> (if ps.len() > 0 {
                ps.last().1 + ps.last().2 + 2
            } else {
                x
            }) + t.widths[i + ps.len()] > width
        }),
    decreases t.cols.len() - i,
{
    let ps = fitting(t, i, x, width, first);
    if i < t.cols.len() {
        let w = column_width(t, i);
        assert(w == t.widths[i] && w <= 0x1_0000);
        if !(x + w > width && !first) {
            let rest = fitting(t, i + 1, x + w + COL_GAP, width, false);
            lemma_fitting(t, i + 1, x + w + COL_GAP, width, false);
            assert(ps =~= seq![(i as usize, x as usize, w as usize)] + rest);
            assert forall|k: int| 0 <= k < ps.len() implies (#[trigger] ps[k]).0 == i + k && ps[k].2
                == t.widths[i + k] by {
                if k > 0 {
                    assert(ps[k] == rest[k - 1]);
                }
            }
            assert forall|k: int, j: int|
                0 <= k && j == k + 1 && j < ps.len() implies (#[trigger] ps[j]).1 == (
            #[trigger] ps[k]).1 + ps[k].2 + 2 by {
                assert(ps[j] == rest[j - 1]);
                if k > 0 {
                    assert(ps[k] == rest[k - 1]);
                }
            }
            assert forall|k: int| 0 <= k < ps.len() && (k > 0 || !first) implies (
            #[trigger] ps[k]).1 + ps[k].2 <= width by {
                if k > 0 {
                    assert(ps[k] == rest[k - 1]);
                }
            }
            if rest.len() > 0 {
                assert(ps.last() == rest.last());
            } else {
                assert(ps.last() == ps[0]);
            }
        }
    }
}

proof fn lemma_longest_cell(w: Seq<TableRowV>, i: int)
    requires
        0 <= i,
    ensures
        longest_cell(w, i) >= 0,
        forall|k: int|
            0 <= k < w.len() && i < (#[trigger] w[k]).cells.len() ==> w[k].cells[i].text.len()
                <= longest_cell(w, i),
        longest_cell(w, i) > 0 ==> exists|k: int|
            0 <= k < w.len() && i < (#[trigger] w[k]).cells.len() && w[k].cells[i].text.len()
                == longest_cell(w, i),
    decreases w.len(),
{
    if w.len() > 0 {
        let d = w.drop_last();
        lemma_longest_cell(d, i);
        assert forall|k: int|
            0 <= k < w.len() && i < (#[trigger] w[k]).cells.len() implies w[k].cells[i].text.len()
            <= longest_cell(w, i) by {
            if k < d.len() {
                assert(d[k] == w[k]);
            }
        }
        if longest_cell(w, i) > 0 {
            if longest_cell(w, i) == longest_cell(d, i) {
                let k = choose|k: int|
                    0 <= k < d.len() && i < (#[trigger] d[k]).cells.len()
                        && d[k].cells[i].text.len() == longest_cell(d, i);
                assert(w[k] == d[k]);
            } else {
                assert(w[w.len() - 1] == w.last());
            }
        }
    }
}

/// A column is as wide as the longest of its header and the cells on screen, but no narrower
/// than three and no wider than twenty-four characters.
pub proof fn law_columns_fit_what_is_in_them(t: TableV, i: int)
    requires
        0 <= i < t.cols.len(),
    ensures
        ({
            let w = measured(t).widths[i] as int;
            &&& 3 <= w <= 24
            &&& t.cols[i].label.len() <= 24 ==> t.cols[i].label.len() <= w
            &&& forall|k: int|
                0 <= k < t.window.len() && i < (#[trigger] t.window[k]).cells.len()
                    && t.window[k].cells[i].text.len() <= 24 ==> t.window[k].cells[i].text.len()
                    <= w
            &&& w > 3 ==> t.cols[i].label.len() >= w || exists|k: int|
                0 <= k < t.window.len() && i < (#[trigger] t.window[k]).cells.len()
                    && t.window[k].cells[i].text.len() >= w
        }),
        measured(t) == (TableV {
            widths: measured(t).widths,
            label_w: measured(t).label_w,
            ..t
        }),
{
    reveal(measured);
    lemma_longest_cell(t.window, i);
}

/// The rows on screen are those of the values from the top one on, each with its label and,
/// column by column, what is found in it along the column's path.
pub proof fn law_the_window_shows_the_values(
    b: Seq<u8>,
    t: TableV,
    n: NodeV,
    vis: int,
    width: int,
    k: int,
    i: int,
)
    requires
        0 <= k < refreshed(b, t, n, vis, width).0.window.len(),
        0 <= i < t.cols.len(),
        refreshed(b, t, n, vis, width).1.children.len() > 0,
    ensures
        ({
            let (u, m) = refreshed(b, t, n, vis, width);
            let c = m.children[u.scroll + k];
            let found = cell_value(
                b,
                ValueV { start: c.start, end: c.end, kind: c.kind },
                t.cols[i].path,
                0,
            );
            let r = u.window[k];
            &&& r.label == c.label
            &&& r.cells.len() == t.cols.len()
            &&& found matches Some(v) ==> r.cells[i].kind == Some(v.kind) && r.cells[i].text
                == brief_text(b, v.start, v.end, v.kind)
            &&& found is None ==> r.cells[i].kind is None && r.cells[i].text.len() == 0
        }),
{
    reveal(measured);
}

/// What a column's path leads to in a row: the member of each name in turn, the first with
/// that name, where it is among the first five hundred and twelve, and nothing where there is
/// none.
pub proof fn law_what_a_path_finds_in_a_row(
    b: Seq<u8>,
    v: ValueV,
    path: Seq<Seq<char>>,
    k: int,
    i: int,
)
    requires
        0 <= k < path.len(),
    ensures
        ({
            let cs = children_from(b, level_of(v.start, v.end, false));
            &&& v.kind != Kind::Object ==> cell_value(b, v, path, k) is None
            &&& v.kind == Kind::Object && none_labelled(cs, path[k]) ==> cell_value(
                b,
                v,
                path,
                k,
            ) is None
            &&& v.kind == Kind::Object && first_labelled(cs, path[k], i) ==> cell_value(
                b,
                v,
                path,
                k,
            ) == (if i < 512 {
                cell_value(
                    b,
                    ValueV { start: cs[i].start, end: cs[i].end, kind: cs[i].kind },
                    path,
                    k + 1,
                )
            } else {
                None
            })
        }),
        cell_value(b, v, path, path.len() as int) == Some(v),
{
    if v.kind == Kind::Object {
        let all = elements(b, v);
        let cs = first_children(all, CELL_KEY_CAP as int);
        lemma_labelled_first(cs, path[k], 0);
        if let Some(m) = labelled(cs, path[k], 0) {
            assert(cs[m] == all[m]);
            assert(all[m].label == path[k]);
            if first_labelled(all, path[k], i) {
                if i < m {
                    assert(cs[i] == all[i]);
                    assert(cs[i].label != path[k]);
                } else if m < i {
                    assert(all[m].label != path[k]);
                }
            }
        } else if first_labelled(all, path[k], i) && i < 512 {
            assert(cs[i] == all[i]);
            assert(cs[i].label != path[k]);
        }
    }
}

proof fn lemma_labelled_first(cs: Seq<ChildV>, key: Seq<char>, i: int)
    requires
        0 <= i <= cs.len(),
    ensures
        match labelled(cs, key, i) {
            Some(k) => i <= k < cs.len() && cs[k].label == key && forall|j: int|
                i <= j < k ==> (#[trigger] cs[j]).label != key,
            None => forall|j: int| i <= j < cs.len() ==> (#[trigger] cs[j]).label != key,
        },
    decreases cs.len() - i,
{
    if i < cs.len() && cs[i].label != key {
        lemma_labelled_first(cs, key, i + 1);
    }
}

/// The cell under the cursor holds what its column's path finds in the value of its row, and
/// there is none where the cursor is on no row or on no column. Its label is that of the row
/// and that of the column.
pub proof fn law_the_cell_under_the_cursor(b: Seq<u8>, t: TableV, n: NodeV)
    ensures
        !(0 <= t.row < n.children.len()) || !(0 <= t.col < t.cols.len()) ==> cursor_value(b, t, n)
            is None,
        0 <= t.row < n.children.len() && 0 <= t.col < t.cols.len() ==> {
            let c = n.children[t.row];
            cursor_value(b, t, n) == cell_value(
                b,
                ValueV { start: c.start, end: c.end, kind: c.kind },
                t.cols[t.col].path,
                0,
            )
        },
        0 <= t.col < t.cols.len() && t.scroll <= t.row < t.scroll + t.window.len() ==> cursor_title(t)
            == t.window[t.row - t.scroll].label + seq!['.'] + t.cols[t.col].label,
{
    reveal_strlit(".");
    assert("."@ =~= seq!['.']);
}

} // verus!
