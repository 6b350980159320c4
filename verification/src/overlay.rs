//! Where the floating cards go, and how a long value is laid out in one.

use crate::text::{chars_of, string_of, texts};
use vstd::prelude::*;

verus! {

/// A rectangle of the screen, in character cells.
#[derive(Clone, Copy, PartialEq, Eq, Debug, Structural)]
pub struct Area {
    pub x: u16,
    pub y: u16,
    pub width: u16,
    pub height: u16,
}

impl Area {
    /// The rectangle ends within the range of a coordinate.
    pub open spec fn wf(&self) -> bool {
        self.x + self.width <= u16::MAX && self.y + self.height <= u16::MAX
    }
}

/// `x - y`, or 0 where that is negative.
pub open spec fn less(x: int, y: int) -> int {
    if x >= y {
        x - y
    } else {
        0
    }
}

pub open spec fn higher(x: int, y: int) -> int {
    if x >= y {
        x
    } else {
        y
    }
}

pub open spec fn lower(x: int, y: int) -> int {
    if x <= y {
        x
    } else {
        y
    }
}

/// A card of the given size in the middle of an area.
pub open spec fn centered(area: Area, w: int, h: int) -> Area {
    Area {
        x: (area.x + less(area.width as int, w) / 2) as u16,
        y: (area.y + less(area.height as int, h) / 2) as u16,
        width: w as u16,
        height: h as u16,
    }
}

pub fn center(area: Area, w: u16, h: u16) -> (r: Area)
    requires
        area.wf(),
    ensures
        r == centered(area, w as int, h as int),
{
    let dx: u16 = if area.width >= w {
        area.width - w
    } else {
        0
    };
    let dy: u16 = if area.height >= h {
        area.height - h
    } else {
        0
    };
    Area { x: area.x + dx / 2, y: area.y + dy / 2, width: w, height: h }
}

/// The width of the peek card: nearly the whole screen, and never below 8.
pub open spec fn peek_width(width: int) -> int {
    lower(higher(less(width, 6), 8), higher(width, 8))
}

/// The height of the peek card: nearly the whole screen, and never below 3.
pub open spec fn peek_height(height: int) -> int {
    lower(higher(less(height, 4), 3), higher(height, 3))
}

/// The centered peek card and its inner (text) dimensions `(rect, inner_w,
/// inner_h)`. A near-full-screen box so a long value has room to breathe. Shared
/// by the drawing and the peek scroll handler so the scroll clamp matches what is
/// actually drawn.
pub fn peek_layout(area: Area) -> (r: (Area, usize, usize))
    requires
        area.wf(),
    ensures
        r.0 == centered(
            area,
            peek_width(area.width as int),
            peek_height(area.height as int),
        ),
        r.1 == peek_width(area.width as int) - 2,
        r.2 == peek_height(area.height as int) - 2,
        r.1 >= 6,
        r.2 >= 1,
{
    let w: u16 = if area.width >= 14 {
        area.width - 6
    } else {
        8
    };
    let h: u16 = if area.height >= 7 {
        area.height - 4
    } else {
        3
    };
    (center(area, w, h), (w - 2) as usize, (h - 2) as usize)
}

// ---------------------------------------------------------------------------
// Wrapping
// ---------------------------------------------------------------------------
/// The control characters.
pub open spec fn control_char(c: char) -> bool {
    c <= '\u{1f}' || '\u{7f}' <= c <= '\u{9f}'
}

/// What is shown of one character: a tab as spaces, and nothing of any other
/// control character.
pub open spec fn shown_char(c: char) -> Seq<char> {
    if c == '\t' {
        seq![' ', ' ', ' ', ' ']
    } else if control_char(c) {
        Seq::empty()
    } else {
        seq![c]
    }
}

/// The pieces of `width` characters that a line is cut into.
pub open spec fn pieces(line: Seq<char>, width: int) -> Seq<Seq<char>>
    decreases line.len(),
{
    if width <= 0 || line.len() <= width {
        seq![line]
    } else {
        seq![line.take(width)] + pieces(line.skip(width), width)
    }
}

/// The lines of a text from `i` on, wrapped, where `line` is what is shown of the
/// current one so far.
pub open spec fn wrapped_from(text: Seq<char>, i: int, line: Seq<char>, width: int) -> Seq<
    Seq<char>,
>
    decreases text.len() - i,
{
    if i >= text.len() {
        pieces(line, width)
    } else if text[i] == '\n' {
        pieces(line, width) + wrapped_from(text, i + 1, Seq::empty(), width)
    } else {
        wrapped_from(text, i + 1, line + shown_char(text[i]), width)
    }
}

/// A text as lines of at most `width` characters.
pub open spec fn wrapped(text: Seq<char>, width: int) -> Seq<Seq<char>> {
    if width == 0 {
        seq![Seq::empty()]
    } else {
        wrapped_from(text, 0, Seq::empty(), width)
    }
}

fn push_pieces(line: &Vec<char>, width: usize, out: &mut Vec<String>)
    requires
        width > 0,
    ensures
        texts(final(out)@) == texts(old(out)@) + pieces(line@, width as int),
{
    let ghost before = texts(out@);
    let ghost all = pieces(line@, width as int);
    let n: usize = line.len();
    let mut i: usize = 0;
    assert(line@.skip(0) =~= line@);
    while n - i > width
        invariant
            width > 0,
            n == line@.len(),
            i <= n,
            texts(out@) + pieces(line@.skip(i as int), width as int) == before + all,
        decreases n - i,
    {
        let ghost so_far = texts(out@);
        let ghost rest = line@.skip(i as int);
        out.push(string_of(line.as_slice(), i, i + width));
        proof {
            assert(line@.subrange(i as int, i + width) =~= rest.take(width as int));
            assert(texts(out@) =~= so_far + seq![rest.take(width as int)]);
            assert(rest.skip(width as int) =~= line@.skip(i + width));
            let tail = pieces(line@.skip(i + width), width as int);
            assert(so_far + (seq![rest.take(width as int)] + tail) =~= texts(out@) + tail);
        }
        i += width;
    }
    let ghost so_far = texts(out@);
    out.push(string_of(line.as_slice(), i, n));
    proof {
        assert(line@.subrange(i as int, n as int) =~= line@.skip(i as int));
        assert(texts(out@) =~= so_far + seq![line@.skip(i as int)]);
    }
}

fn is_control_char(c: char) -> (r: bool)
    ensures
        r == control_char(c),
{
    c <= '\u{1f}' || ('\u{7f}' <= c && c <= '\u{9f}')
}

/// Lay a decoded value out for the peek overlay: hard-break on `\n`, expand tabs,
/// drop other control chars, and char-wrap each logical line to `width` columns.
/// Char counts (not display columns) mirror the width accounting the rest of the
/// UI uses, so wide glyphs are treated the same here.
pub fn wrap_for_peek(text: &str, width: usize) -> (out: Vec<String>)
    ensures
        texts(out@) == wrapped(text@, width as int),
{
    let mut out: Vec<String> = Vec::new();
    if width == 0 {
        out.push(String::new());
        proof {
            assert(out@[0]@ =~= Seq::empty());
            assert(texts(out@) =~= seq![Seq::empty()]);
        }
        return out;
    }
    let cs = chars_of(text);
    let mut line: Vec<char> = Vec::new();
    let mut i: usize = 0;
    assert(line@ =~= Seq::empty());
    assert(texts(out@) + wrapped(text@, width as int) =~= wrapped(text@, width as int));
    while i < cs.len()
        invariant
            width > 0,
            cs@ == text@,
            i <= cs@.len(),
            texts(out@) + wrapped_from(text@, i as int, line@, width as int) == wrapped(
                text@,
                width as int,
            ),
        decreases cs@.len() - i,
    {
        let c: char = cs[i];
        let ghost before = line@;
        if c == '\n' {
            let ghost so_far = texts(out@);
            push_pieces(&line, width, &mut out);
            line = Vec::new();
            proof {
                assert(line@ =~= Seq::empty());
                let p = pieces(before, width as int);
                let tail = wrapped_from(text@, i + 1, line@, width as int);
                assert(so_far + (p + tail) =~= (so_far + p) + tail);
            }
        } else if c == '\t' {
            line.push(' ');
            line.push(' ');
            line.push(' ');
            line.push(' ');
            assert(line@ =~= before + shown_char(c));
        } else if is_control_char(c) {
            assert(line@ =~= before + shown_char(c));
        } else {
            line.push(c);
            assert(line@ =~= before + shown_char(c));
        }
        i += 1;
    }
    push_pieces(&line, width, &mut out);
    out
}

// ---------------------------------------------------------------------------
// Laws
// ---------------------------------------------------------------------------
proof fn lemma_pieces(line: Seq<char>, width: int)
    requires
        width > 0,
    ensures
        pieces(line, width).len() > 0,
        forall|i: int| 0 <= i < pieces(line, width).len() ==> (#[trigger] pieces(line, width)[i]).len()
            <= width,
    decreases line.len(),
{
    if line.len() > width {
        lemma_pieces(line.skip(width), width);
        let tail = pieces(line.skip(width), width);
        assert forall|i: int| 0 <= i < pieces(line, width).len() implies (#[trigger] pieces(
            line,
            width,
        )[i]).len() <= width by {
            if i > 0 {
                assert(pieces(line, width)[i] == tail[i - 1]);
            }
        }
    }
}

proof fn lemma_wrapped_from(text: Seq<char>, i: int, line: Seq<char>, width: int)
    requires
        width > 0,
    ensures
        wrapped_from(text, i, line, width).len() > 0,
        forall|k: int| 0 <= k < wrapped_from(text, i, line, width).len() ==> (
        #[trigger] wrapped_from(text, i, line, width)[k]).len() <= width,
    decreases text.len() - i,
{
    lemma_pieces(line, width);
    if i < text.len() {
        if text[i] == '\n' {
            lemma_wrapped_from(text, i + 1, Seq::empty(), width);
        } else {
            lemma_wrapped_from(text, i + 1, line + shown_char(text[i]), width);
        }
    }
}

/// A wrapped value has at least one line, and none of its lines is wider than the
/// card.
pub proof fn law_wrapped_lines_fit(text: Seq<char>, width: int)
    requires
        width >= 0,
    ensures
        wrapped(text, width).len() > 0,
        forall|k: int| 0 <= k < wrapped(text, width).len() ==> (#[trigger] wrapped(
            text,
            width,
        )[k]).len() <= width,
{
    if width > 0 {
        lemma_wrapped_from(text, 0, Seq::empty(), width);
    }
}

/// Lines one after another.
pub open spec fn run_on(lines: Seq<Seq<char>>) -> Seq<char>
    decreases lines.len(),
{
    if lines.len() == 0 {
        Seq::empty()
    } else {
        lines[0] + run_on(lines.skip(1))
    }
}

proof fn lemma_pieces_run_on(line: Seq<char>, width: int)
    requires
        width > 0,
    ensures
        run_on(pieces(line, width)) == line,
        pieces(line, width).len() > 0,
        forall|k: int|
            0 <= k < pieces(line, width).len() - 1 ==> (#[trigger] pieces(line, width)[k]).len()
                == width,
    decreases line.len(),
{
    let ps = pieces(line, width);
    reveal_with_fuel(run_on, 2);
    if line.len() <= width {
        assert(ps.skip(1) =~= Seq::empty());
        assert(run_on(ps) =~= line);
    } else {
        let rest = pieces(line.skip(width), width);
        lemma_pieces_run_on(line.skip(width), width);
        assert(ps.skip(1) =~= rest);
        assert(run_on(ps) =~= line);
        assert forall|k: int| 0 <= k < ps.len() - 1 implies (#[trigger] ps[k]).len() == width by {
            if k > 0 {
                assert(ps[k] == rest[k - 1]);
            }
        }
    }
}

proof fn lemma_wrapped_line(text: Seq<char>, i: int, line: Seq<char>, width: int)
    requires
        0 <= i <= text.len(),
        forall|k: int| 0 <= k < text.len() ==> (#[trigger] text[k]) >= ' ' && text[k] <= '~',
    ensures
        wrapped_from(text, i, line, width) == pieces(line + text.skip(i), width),
    decreases text.len() - i,
{
    if i < text.len() {
        assert(text[i] >= ' ' && text[i] <= '~');
        lemma_wrapped_line(text, i + 1, line + seq![text[i]], width);
        assert(line + seq![text[i]] + text.skip(i + 1) =~= line + text.skip(i));
    } else {
        assert(line + text.skip(i) =~= line);
    }
}

/// Wrapping keeps a text: the lines of a text that is one line, one after another, are the
/// text, and every line but the last is full.
pub proof fn law_wrapping_keeps_the_text(text: Seq<char>, width: int)
    requires
        width > 0,
        forall|k: int| 0 <= k < text.len() ==> (#[trigger] text[k]) >= ' ' && text[k] <= '~',
    ensures
        run_on(wrapped(text, width)) == text,
        forall|k: int|
            0 <= k < wrapped(text, width).len() - 1 ==> (#[trigger] wrapped(
                text,
                width,
            )[k]).len() == width,
{
    lemma_wrapped_line(text, 0, Seq::empty(), width);
    assert(Seq::<char>::empty() + text.skip(0) =~= text);
    lemma_pieces_run_on(text, width);
}

proof fn lemma_wrapped_break(s: Seq<char>, t: Seq<char>, i: int, line: Seq<char>, width: int)
    requires
        0 <= i <= s.len(),
    ensures
        wrapped_from(s + seq!['\n'] + t, i, line, width) == wrapped_from(s, i, line, width)
            + wrapped_from(t, 0, Seq::empty(), width),
    decreases s.len() - i,
{
    let all = s + seq!['\n'] + t;
    if i < s.len() {
        assert(all[i] == s[i]);
        if s[i] == '\n' {
            lemma_wrapped_break(s, t, i + 1, Seq::empty(), width);
            assert(wrapped_from(all, i, line, width) =~= wrapped_from(s, i, line, width)
                + wrapped_from(t, 0, Seq::empty(), width));
        } else {
            lemma_wrapped_break(s, t, i + 1, line + shown_char(s[i]), width);
        }
    } else {
        assert(all[i] == '\n');
        lemma_wrapped_shift(s + seq!['\n'], t, 0, Seq::empty(), width);
    }
}

proof fn lemma_wrapped_shift(p: Seq<char>, t: Seq<char>, i: int, line: Seq<char>, width: int)
    requires
        0 <= i <= t.len(),
    ensures
        wrapped_from(p + t, p.len() + i, line, width) == wrapped_from(t, i, line, width),
    decreases t.len() - i,
{
    if i < t.len() {
        assert((p + t)[p.len() + i] == t[i]);
        if t[i] == '\n' {
            lemma_wrapped_shift(p, t, i + 1, Seq::empty(), width);
        } else {
            lemma_wrapped_shift(p, t, i + 1, line + shown_char(t[i]), width);
        }
    }
}

/// A line break ends a line: what stands before it and what stands behind it are wrapped
/// each for itself.
pub proof fn law_line_breaks_break(s: Seq<char>, t: Seq<char>, width: int)
    requires
        width > 0,
    ensures
        wrapped(s + seq!['\n'] + t, width) == wrapped(s, width) + wrapped(t, width),
{
    lemma_wrapped_break(s, t, 0, Seq::empty(), width);
}

} // verus!
