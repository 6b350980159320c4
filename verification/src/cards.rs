//! The cards that float over the panes: the bookmark picker, the shortcuts, the peek
//! and the schema overlay.

use crate::overlay::{
    center, centered, higher, less, lower, peek_height, peek_layout, peek_width, wrap_for_peek,
    wrapped, Area,
};
use crate::paint::{blanks, line_views, piece_views, said, say, Piece, PieceV, Tone};
use crate::pane::{Pane, PaneV};
use crate::paths::{join_path, path_title, segment_views};
use crate::text::{
    between, chars_of, decimal, decimal_string, joint, occurs_at, stands_at, string_of, texts,
};
use crate::tree::{breadcrumb_segments, crumbs};
use vstd::prelude::*;

verus! {

/// A framed box with a title and lines. What does not fit is cut off.
pub struct Card {
    pub area: Area,
    pub title: String,
    pub lines: Vec<Vec<Piece>>,
}

pub struct CardV {
    pub area: Area,
    pub title: Seq<char>,
    pub lines: Seq<Seq<PieceV>>,
}

impl View for Card {
    type V = CardV;

    open spec fn view(&self) -> CardV {
        CardV { area: self.area, title: self.title@, lines: line_views(self.lines@) }
    }
}

/// The length of the longest of the texts, 0 where there is none.
pub open spec fn widest(ts: Seq<Seq<char>>) -> int
    decreases ts.len(),
{
    if ts.len() == 0 {
        0
    } else {
        higher(widest(ts.drop_last()), ts.last().len() as int)
    }
}

fn widest_of(ts: &Vec<String>) -> (r: usize)
    ensures
        r == widest(texts(ts@)),
{
    let ghost views = texts(ts@);
    let mut most: usize = 0;
    let mut i: usize = 0;
    while i < ts.len()
        invariant
            i <= ts@.len(),
            views == texts(ts@),
            most == widest(views.take(i as int)),
        decreases ts@.len() - i,
    {
        let w: usize = ts[i].as_str().unicode_len();
        assert(views.take(i + 1).drop_last() =~= views.take(i as int));
        assert(views.take(i + 1).last() == ts@[i as int]@);
        if w > most {
            most = w;
        }
        i += 1;
    }
    assert(views.take(views.len() as int) =~= views);
    most
}

/// A text with blanks behind it, up to `n` columns.
pub open spec fn padded(s: Seq<char>, n: int) -> Seq<char> {
    s + blanks(less(n, s.len() as int))
}

fn spaces(n: usize) -> (r: String)
    ensures
        r@ == blanks(n as int),
{
    let mut s = String::new();
    let mut i: usize = 0;
    assert(s@ =~= blanks(0));
    while i < n
        invariant
            i <= n,
            s@ == blanks(i as int),
        decreases n - i,
    {
        s.push(' ');
        i += 1;
        assert(s@ =~= blanks(i as int));
    }
    s
}

fn missing(s: &str, n: usize) -> (r: String)
    ensures
        r@ == blanks(less(n as int, s@.len() as int)),
{
    let w: usize = s.unicode_len();
    spaces(
        if w < n {
            n - w
        } else {
            0
        },
    )
}

fn pad(s: &str, n: usize) -> (r: String)
    ensures
        r@ == padded(s@, n as int),
{
    let gap = missing(s, n);
    joint(s, gap.as_str())
}

fn push_line(lines: &mut Vec<Vec<Piece>>, line: Vec<Piece>)
    ensures
        line_views(final(lines)@) == line_views(old(lines)@).push(piece_views(line@)),
{
    let ghost before = line_views(lines@);
    lines.push(line);
    assert(line_views(lines@) =~= before.push(piece_views(line@)));
}

fn one_piece(text: String, tone: Tone) -> (r: Vec<Piece>)
    ensures
        piece_views(r@) == seq![said(text@, tone)],
{
    let mut line: Vec<Piece> = Vec::new();
    say(&mut line, text, tone);
    assert(piece_views(line@) =~= seq![said(text@, tone)]);
    line
}

// ---------------------------------------------------------------------------
// The bookmark picker
// ---------------------------------------------------------------------------
/// The paths of the bookmarked nodes.
pub open spec fn mark_titles(v: PaneV) -> Seq<Seq<char>> {
    Seq::new(v.bookmarks.len(), |i: int| path_title(""@, crumbs(v.root, v.bookmarks[i])))
}

/// How wide the bookmark picker is inside: as its longest line, or as its title.
pub open spec fn marks_width(v: PaneV, area: Area) -> int {
    lower(
        higher(widest(mark_titles(v)), " bookmarks · ↵ jump · d delete · esc "@.len() as int),
        less(area.width as int, 4),
    )
}

/// The bookmark picker: one padded line per bookmark, the picked one standing out.
pub open spec fn marks_shown(v: PaneV, area: Area) -> CardV {
    let inner = marks_width(v, area);
    let height = higher(lower(v.bookmarks.len() as int + 2, less(area.height as int, 2)), 3);
    CardV {
        area: centered(area, inner + 4, height),
        title: " bookmarks · ↵ jump · d delete · esc "@,
        lines: Seq::new(
            v.bookmarks.len(),
            |i: int|
                seq![
                    said(
                        " "@ + padded(mark_titles(v)[i], inner) + " "@,
                        if i == v.mark_idx {
                            Tone::Picked
                        } else {
                            Tone::Item
                        },
                    ),
                ],
        ),
    }
}

fn mark_items(v: &Pane, b: &[u8]) -> (out: Vec<String>)
    ensures
        texts(out@) == mark_titles(v.model(b@)),
        out@.len() == v.bookmarks@.len(),
{
    let ghost m = v.model(b@);
    let mut out: Vec<String> = Vec::new();
    let mut i: usize = 0;
    while i < v.bookmarks.len()
        invariant
            i <= v.bookmarks@.len(),
            m == v.model(b@),
            out@.len() == i,
            forall|k: int|
                0 <= k < i ==> (#[trigger] out@[k])@ == path_title(
                    ""@,
                    crumbs(m.root, m.bookmarks[k]),
                ),
        decreases v.bookmarks@.len() - i,
    {
        let segs = breadcrumb_segments(&v.root, v.bookmarks[i].as_slice());
        assert(segment_views(segs@) == crumbs(v.root.model(b@), v.bookmarks@[i as int]@));
        assert(m.bookmarks[i as int] == v.bookmarks@[i as int]@);
        out.push(join_path("", segs.as_slice()));
        i += 1;
    }
    assert(texts(out@) =~= mark_titles(m));
    out
}

/// The bookmark picker as a centered card listing each saved node's path; the
/// selected row is highlighted.
pub fn marks_card(v: &Pane, area: Area, b: &[u8]) -> (r: Card)
    requires
        area.wf(),
    ensures
        r@ == marks_shown(v.model(b@), area),
{
    let ghost m = v.model(b@);
    let items = mark_items(v, b);
    let title = " bookmarks · ↵ jump · d delete · esc ";
    let longest: usize = widest_of(&items);
    let title_w: usize = title.unicode_len();
    let asked: usize = if longest >= title_w {
        longest
    } else {
        title_w
    };
    let most: u16 = if area.width >= 4 {
        area.width - 4
    } else {
        0
    };
    let inner: u16 = if asked <= most as usize {
        asked as u16
    } else {
        most
    };
    assert(inner == marks_width(m, area));
    let tall: u16 = if area.height >= 2 {
        area.height - 2
    } else {
        0
    };
    let n: usize = items.len();
    let fit: u16 = if n < 65534 && n + 2 <= tall as usize {
        (n + 2) as u16
    } else {
        tall
    };
    let height: u16 = if fit >= 3 {
        fit
    } else {
        3
    };
    assert(m.bookmarks.len() == n);
    let mut lines: Vec<Vec<Piece>> = Vec::new();
    let mut i: usize = 0;
    while i < n
        invariant
            i <= n,
            n == items@.len(),
            m == v.model(b@),
            texts(items@) == mark_titles(m),
            inner == marks_width(m, area),
            m.bookmarks.len() == n,
            lines@.len() == i,
            forall|k: int|
                0 <= k < i ==> piece_views((#[trigger] lines@[k])@) == marks_shown(
                    m,
                    area,
                ).lines[k],
        decreases n - i,
    {
        assert(mark_titles(m)[i as int] == items@[i as int]@);
        let text = pad(items[i].as_str(), inner as usize);
        let tone = if i == v.mark_idx {
            Tone::Picked
        } else {
            Tone::Item
        };
        lines.push(one_piece(between(" ", text.as_str(), " "), tone));
        i += 1;
    }
    assert(line_views(lines@) =~= marks_shown(m, area).lines);
    Card { area: center(area, inner + 4, height), title: title.to_owned(), lines }
}

// ---------------------------------------------------------------------------
// Values and types
// ---------------------------------------------------------------------------
/// The lines of a card that are on screen: from `scroll` on, but for a full card.
pub open spec fn first_line(total: int, scroll: int, height: int) -> int {
    lower(scroll, less(total, height))
}

pub open spec fn last_line(total: int, scroll: int, height: int) -> int {
    lower(first_line(total, scroll, height) + height, total)
}

/// Which lines of how many are on screen.
pub open spec fn line_range(total: int, scroll: int, height: int) -> Seq<char> {
    decimal((first_line(total, scroll, height) + 1) as nat) + "–"@ + decimal(
        last_line(total, scroll, height) as nat,
    ) + ("/"@ + decimal(total as nat))
}

fn write_range(top: usize, bottom: usize, total: usize) -> (r: String)
    requires
        top <= bottom <= total,
        top < usize::MAX,
    ensures
        r@ == decimal((top + 1) as nat) + "–"@ + decimal(bottom as nat) + ("/"@ + decimal(
            total as nat,
        )),
{
    let a = decimal_string((top + 1) as u64);
    let z = decimal_string(bottom as u64);
    let n = decimal_string(total as u64);
    let of = joint("/", n.as_str());
    let range = between(a.as_str(), "–", z.as_str());
    joint(range.as_str(), of.as_str())
}

fn visible(total: usize, scroll: usize, height: usize) -> (r: (usize, usize))
    ensures
        r.0 == first_line(total as int, scroll as int, height as int),
        r.1 == last_line(total as int, scroll as int, height as int),
        r.0 <= r.1 <= total,
{
    let most: usize = if total >= height {
        total - height
    } else {
        0
    };
    let top: usize = if scroll <= most {
        scroll
    } else {
        most
    };
    let bottom: usize = if total - top >= height {
        top + height
    } else {
        total
    };
    (top, bottom)
}

/// The peek card: the value wrapped to the card, the lines that are on screen.
pub open spec fn peek_shown(v: PaneV, area: Area) -> Option<CardV> {
    match v.peek {
        None => None,
        Some(p) => {
            let w = peek_width(area.width as int);
            let h = peek_height(area.height as int);
            let all = wrapped(p.text, w - 2);
            let n = all.len() as int;
            let top = first_line(n, p.scroll, h - 2);
            let bottom = last_line(n, p.scroll, h - 2);
            let cap = if p.truncated {
                " · ⚠ capped"@
            } else {
                ""@
            };
            Some(
                CardV {
                    area: centered(area, w, h),
                    title: " peek · "@ + p.title + " · lines "@ + line_range(n, p.scroll, h - 2)
                        + cap + " · j/k scroll · esc "@,
                    lines: Seq::new(
                        (bottom - top) as nat,
                        |i: int| seq![said(all[top + i], Tone::CardText)],
                    ),
                },
            )
        },
    }
}

/// The value-peek overlay: the focused scalar's full value, wrapped and scrolled.
/// `None` where there is nothing to show.
pub fn peek_card(v: &Pane, area: Area, b: &[u8]) -> (r: Option<Card>)
    requires
        area.wf(),
    ensures
        match peek_shown(v.model(b@), area) {
            Some(c) => r matches Some(x) && x@ == c,
            None => r is None,
        },
{
    let pk = match &v.peek {
        None => {
            return None;
        },
        Some(pk) => pk,
    };
    let ghost p = pk.model();
    let (rect, inner_w, inner_h) = peek_layout(area);
    let all = wrap_for_peek(pk.text.as_str(), inner_w);
    let ghost views = texts(all@);
    let total: usize = all.len();
    assert(views.len() == total);
    let (top, bottom) = visible(total, pk.scroll, inner_h);
    let mut lines: Vec<Vec<Piece>> = Vec::new();
    let mut i: usize = top;
    while i < bottom
        invariant
            top <= i <= bottom <= all@.len(),
            views == texts(all@),
            lines@.len() == i - top,
            forall|k: int|
                0 <= k < lines@.len() ==> piece_views((#[trigger] lines@[k])@) == seq![
                    said(views[top + k], Tone::CardText),
                ],
        decreases bottom - i,
    {
        assert(views[i as int] == all@[i as int]@);
        lines.push(one_piece(all[i].clone(), Tone::CardText));
        i += 1;
    }
    let range = write_range(top, bottom, total);
    let named = between(" peek · ", pk.title.as_str(), " · lines ");
    let ranged = between(
        named.as_str(),
        range.as_str(),
        if pk.truncated {
            " · ⚠ capped"
        } else {
            ""
        },
    );
    let title = joint(ranged.as_str(), " · j/k scroll · esc ");
    let r = Card { area: rect, title, lines };
    assert(r@.lines =~= (peek_shown(v.model(b@), area)->0).lines);
    Some(r)
}

/// Where the comment of a line starts, from number `i` on: the length where there is
/// none.
pub open spec fn comment_start(s: Seq<char>, i: int) -> int
    decreases s.len() - i,
{
    if i >= s.len() {
        s.len() as int
    } else if occurs_at(s, "//"@, i) {
        i
    } else {
        comment_start(s, i + 1)
    }
}

/// A character of a name or of a number.
pub open spec fn name_char(c: char) -> bool {
    'a' <= c <= 'z' || 'A' <= c <= 'Z' || '0' <= c <= '9' || c == '_'
}

pub open spec fn keyword(s: Seq<char>) -> bool {
    s == "string"@ || s == "number"@ || s == "boolean"@ || s == "null"@ || s == "any"@ || s
        == "Record"@
}

/// A run of characters of one class: the name of a type, that of a field, or
/// punctuation.
pub open spec fn run_piece(run: Seq<char>) -> PieceV {
    said(
        run,
        if !name_char(run[0]) {
            Tone::Punct
        } else if keyword(run) {
            Tone::Str
        } else {
            Tone::Key
        },
    )
}

/// The runs of `s`, where the one at hand began at `from` and `i` is the next
/// character.
pub open spec fn runs(s: Seq<char>, from: int, i: int) -> Seq<PieceV>
    decreases s.len() + 1 - i,
{
    if i >= s.len() {
        if from < s.len() {
            seq![run_piece(s.subrange(from, s.len() as int))]
        } else {
            Seq::empty()
        }
    } else if from < i && name_char(s[i]) != name_char(s[i - 1]) {
        seq![run_piece(s.subrange(from, i))] + runs(s, i, i + 1)
    } else {
        runs(s, from, i + 1)
    }
}

/// One line of a type in tones.
pub open spec fn type_pieces(s: Seq<char>) -> Seq<PieceV> {
    let k = comment_start(s, 0);
    let code = runs(s.take(k), 0, 0);
    if k < s.len() {
        code.push(said(s.skip(k), Tone::Comment))
    } else {
        code
    }
}

fn find_comment(cs: &Vec<char>) -> (k: usize)
    ensures
        k == comment_start(cs@, 0),
        k <= cs@.len(),
{
    let slashes = chars_of("//");
    let mut i: usize = 0;
    while i < cs.len()
        invariant
            i <= cs@.len(),
            slashes@ == "//"@,
            comment_start(cs@, 0) == comment_start(cs@, i as int),
        decreases cs@.len() - i,
    {
        if stands_at(cs.as_slice(), slashes.as_slice(), i) {
            return i;
        }
        i += 1;
    }
    cs.len()
}

fn is_name_char(c: char) -> (r: bool)
    ensures
        r == name_char(c),
{
    ('a' <= c && c <= 'z') || ('A' <= c && c <= 'Z') || ('0' <= c && c <= '9') || c == '_'
}

fn is_keyword(s: &String) -> (r: bool)
    ensures
        r == keyword(s@),
{
    *s == "string".to_owned() || *s == "number".to_owned() || *s == "boolean".to_owned() || *s
        == "null".to_owned() || *s == "any".to_owned() || *s == "Record".to_owned()
}

fn say_run(out: &mut Vec<Piece>, cs: &Vec<char>, from: usize, to: usize)
    requires
        from < to <= cs@.len(),
    ensures
        piece_views(final(out)@) == piece_views(old(out)@).push(
            run_piece(cs@.subrange(from as int, to as int)),
        ),
{
    let run = string_of(cs.as_slice(), from, to);
    assert(run@[0] == cs@[from as int]);
    let tone = if !is_name_char(cs[from]) {
        Tone::Punct
    } else if is_keyword(&run) {
        Tone::Str
    } else {
        Tone::Key
    };
    say(out, run, tone);
}

/// One line of a rendered type in tones: type keywords, field names, punctuation, and
/// a trailing comment. Word runs are classified by a fixed keyword set, so a field
/// name looks like a key while `string`, `number` and the like look like types.
pub fn highlight_type_line(s: &str) -> (out: Vec<Piece>)
    ensures
        piece_views(out@) == type_pieces(s@),
{
    let cs = chars_of(s);
    let k: usize = find_comment(&cs);
    let ghost code = cs@.take(k as int);
    let mut out: Vec<Piece> = Vec::new();
    let mut from: usize = 0;
    let mut i: usize = 0;
    assert(piece_views(out@) + runs(code, 0, 0) =~= runs(code, 0, 0));
    while i < k
        invariant
            from <= i <= k <= cs@.len(),
            from < i || i == 0,
            code == cs@.take(k as int),
            piece_views(out@) + runs(code, from as int, i as int) == runs(code, 0, 0),
        decreases k - i,
    {
        if from < i && is_name_char(cs[i]) != is_name_char(cs[i - 1]) {
            let ghost before = piece_views(out@);
            say_run(&mut out, &cs, from, i);
            assert(code.subrange(from as int, i as int) =~= cs@.subrange(from as int, i as int));
            assert(piece_views(out@) + runs(code, i as int, i + 1) =~= before + runs(
                code,
                from as int,
                i as int,
            ));
            from = i;
        }
        i += 1;
    }
    if from < k {
        let ghost before = piece_views(out@);
        say_run(&mut out, &cs, from, k);
        assert(code.subrange(from as int, k as int) =~= cs@.subrange(from as int, k as int));
        assert(piece_views(out@) =~= before + runs(code, from as int, k as int));
    } else {
        assert(piece_views(out@) =~= piece_views(out@) + runs(code, from as int, k as int));
    }
    if k < cs.len() {
        let comment = string_of(cs.as_slice(), k, cs.len());
        assert(comment@ =~= s@.skip(k as int));
        say(&mut out, comment, Tone::Comment);
    }
    out
}

proof fn lemma_runs_text(s: Seq<char>, from: int, i: int)
    requires
        0 <= from <= i <= s.len(),
    ensures
        spoken(runs(s, from, i)) == s.skip(from),
    decreases s.len() + 1 - i,
{
    let all = runs(s, from, i);
    if i >= s.len() {
        if from < s.len() {
            assert(all.skip(1) =~= Seq::empty());
            assert(s.subrange(from, s.len() as int) + Seq::<char>::empty() =~= s.skip(from));
            assert(spoken(all.skip(1)) == Seq::<char>::empty());
        } else {
            assert(s.skip(from) =~= Seq::empty());
        }
    } else if from < i && name_char(s[i]) != name_char(s[i - 1]) {
        lemma_runs_text(s, i, i + 1);
        assert(all.skip(1) =~= runs(s, i, i + 1));
        assert(s.subrange(from, i) + s.skip(i) =~= s.skip(from));
    } else {
        lemma_runs_text(s, from, i + 1);
    }
}

/// The texts of pieces one after another.
pub open spec fn spoken(ps: Seq<PieceV>) -> Seq<char>
    decreases ps.len(),
{
    if ps.len() == 0 {
        Seq::empty()
    } else {
        ps[0].text + spoken(ps.skip(1))
    }
}

pub proof fn lemma_spoken_push(ps: Seq<PieceV>, p: PieceV)
    ensures
        spoken(ps.push(p)) == spoken(ps) + p.text,
    decreases ps.len(),
{
    if ps.len() == 0 {
        assert(ps.push(p).skip(1) =~= Seq::empty());
        assert(spoken(ps.push(p).skip(1)) == Seq::<char>::empty());
        assert(spoken(ps.push(p)) =~= spoken(ps) + p.text);
    } else {
        lemma_spoken_push(ps.skip(1), p);
        assert(ps.push(p).skip(1) =~= ps.skip(1).push(p));
        assert(spoken(ps.push(p)) =~= spoken(ps) + p.text);
    }
}

/// Highlighting a line changes nothing of its text.
pub proof fn law_highlighting_keeps_text(s: Seq<char>)
    ensures
        spoken(type_pieces(s)) == s,
{
    let k = comment_start(s, 0);
    lemma_comment_start(s, 0);
    lemma_runs_text(s.take(k), 0, 0);
    assert(s.take(k).skip(0) =~= s.take(k));
    if k < s.len() {
        lemma_spoken_push(runs(s.take(k), 0, 0), said(s.skip(k), Tone::Comment));
        assert(s.take(k) + s.skip(k) =~= s);
    } else {
        assert(s.take(k) =~= s);
    }
}

proof fn lemma_comment_start(s: Seq<char>, i: int)
    requires
        0 <= i <= s.len(),
    ensures
        i <= comment_start(s, i) <= s.len(),
    decreases s.len() - i,
{
    if i < s.len() && !occurs_at(s, "//"@, i) {
        lemma_comment_start(s, i + 1);
    }
}

/// The schema card: no larger than the peek card, and no larger than its lines and
/// its title need.
pub open spec fn schema_shown(v: PaneV, area: Area) -> Option<CardV> {
    match v.schema {
        None => None,
        Some(sc) => {
            let n = sc.lines.len() as int;
            let asked = higher(widest(sc.lines), lower(sc.title.len() as int + 38, 62));
            let w = lower(higher(asked, 1), peek_width(area.width as int) - 2);
            let h = lower(higher(n, 1), peek_height(area.height as int) - 2);
            let top = first_line(n, sc.scroll, h);
            let bottom = last_line(n, sc.scroll, h);
            Some(
                CardV {
                    area: centered(area, w + 2, h + 2),
                    title: " type · "@ + sc.title + " · lines "@ + line_range(n, sc.scroll, h)
                        + " · y copy · esc "@,
                    lines: Seq::new(
                        (bottom - top) as nat,
                        |i: int| type_pieces(sc.lines[top + i]),
                    ),
                },
            )
        },
    }
}

/// The schema overlay: the focused node's inferred type, scrolled. Use the peek box
/// only as an upper bound and shrink the card to fit its content, so a small type gets
/// a small card and only a large one grows toward full-screen.
pub fn schema_card(v: &Pane, area: Area, b: &[u8]) -> (r: Option<Card>)
    requires
        area.wf(),
    ensures
        match schema_shown(v.model(b@), area) {
            Some(c) => r matches Some(x) && x@ == c,
            None => r is None,
        },
{
    let sc = match &v.schema {
        None => {
            return None;
        },
        Some(sc) => sc,
    };
    let ghost views = texts(sc.lines@);
    let (_, max_w, max_h) = peek_layout(area);
    let total: usize = sc.lines.len();
    assert(views.len() == total);
    let content: usize = widest_of(&sc.lines);
    let named: usize = sc.title.as_str().unicode_len();
    let floor: usize = if named <= 24 {
        named + 38
    } else {
        62
    };
    let asked: usize = if content >= floor {
        content
    } else {
        floor
    };
    let inner_w: usize = if asked <= max_w {
        asked
    } else {
        max_w
    };
    let lines_asked: usize = if total >= 1 {
        total
    } else {
        1
    };
    let inner_h: usize = if lines_asked <= max_h {
        lines_asked
    } else {
        max_h
    };
    let (top, bottom) = visible(total, sc.scroll, inner_h);
    let mut lines: Vec<Vec<Piece>> = Vec::new();
    let mut i: usize = top;
    while i < bottom
        invariant
            top <= i <= bottom <= sc.lines@.len(),
            views == texts(sc.lines@),
            lines@.len() == i - top,
            forall|k: int|
                0 <= k < lines@.len() ==> piece_views((#[trigger] lines@[k])@) == type_pieces(
                    views[top + k],
                ),
        decreases bottom - i,
    {
        assert(views[i as int] == sc.lines@[i as int]@);
        lines.push(highlight_type_line(sc.lines[i].as_str()));
        i += 1;
    }
    let range = write_range(top, bottom, total);
    let head = between(" type · ", sc.title.as_str(), " · lines ");
    let title = between(head.as_str(), range.as_str(), " · y copy · esc ");
    let r = Card { area: center(area, (inner_w + 2) as u16, (inner_h + 2) as u16), title, lines };
    assert(r@.lines =~= (schema_shown(v.model(b@), area)->0).lines);
    Some(r)
}

// ---------------------------------------------------------------------------
// The shortcuts
// ---------------------------------------------------------------------------
/// The keys and what they do.
pub open spec fn shortcuts() -> Seq<(Seq<char>, Seq<char>)> {
    seq![
        ("↑/↓  k/j"@, "move focus"@),
        ("J / K"@, "next / prev sibling"@),
        ("PgUp/PgDn"@, "page up / down"@),
        ("Ctrl-D/U"@, "half page"@),
        ("g  Home"@, "jump to top"@),
        ("Enter  →"@, "expand · peek a leaf"@),
        ("←"@, "collapse / parent"@),
        ("wheel"@, "scroll the pane"@),
        ("t"@, "infer type (TS) · y copy"@),
        ("c"@, "count children"@),
        ("#"@, "aggregate numbers (Σ min/max/avg)"@),
        ("/"@, "search · ⇥ scope subtree"@),
        ("↵  ⇧↵"@, "next / prev match"@),
        (":"@, "jump to a path · *? in keys"@),
        ("|"@, "jq-style filter → new pane"@),
        ("m"@, "toggle bookmark"@),
        ("'"@, "bookmark picker"@),
        ("y / Y"@, "copy value / path"@),
        ("p"@, "pipe node · all hits on a filter pane"@),
        ("s"@, "split pane at node"@),
        ("o"@, "preview pane"@),
        ("\\"@, "toggle pane layout"@),
        ("+ / -"@, "grow / shrink pane"@),
        ("Tab/⇧Tab"@, "switch pane"@),
        ("x"@, "close pane"@),
        ("?"@, "toggle this help"@),
        ("q  Esc"@, "close pane / quit"@),
    ]
}

/// Worked examples for the syntaxes that don't fit a one-line key hint: the prompt,
/// what is typed there, and what it finds.
pub open spec fn examples() -> Seq<(Seq<char>, Seq<char>, Seq<char>)> {
    seq![
        ("/"@, "re:^id_\\d+$"@, "regex search"@),
        ("/"@, "g:log-*"@, "glob search (*, ? wildcards)"@),
        ("|"@, ".users[] | select(.age > 30) | .name"@, "names of users over 30"@),
        ("|"@, ".. | .id"@, "every .id at any depth"@),
        ("|"@, "select(.name ~ \"re:^a\")"@, "field value matches a regex"@),
        ("|"@, ".items[] | select(.f ~ \"g:*.log\")"@, "field value matches a glob"@),
    ]
}

fn shortcut_list() -> (out: Vec<(&'static str, &'static str)>)
    ensures
        Seq::new(out@.len(), |i: int| (out@[i].0@, out@[i].1@)) == shortcuts(),
{
    let mut out: Vec<(&'static str, &'static str)> = Vec::new();
    out.push(("↑/↓  k/j", "move focus"));
    out.push(("J / K", "next / prev sibling"));
    out.push(("PgUp/PgDn", "page up / down"));
    out.push(("Ctrl-D/U", "half page"));
    out.push(("g  Home", "jump to top"));
    out.push(("Enter  →", "expand · peek a leaf"));
    out.push(("←", "collapse / parent"));
    out.push(("wheel", "scroll the pane"));
    out.push(("t", "infer type (TS) · y copy"));
    out.push(("c", "count children"));
    out.push(("#", "aggregate numbers (Σ min/max/avg)"));
    out.push(("/", "search · ⇥ scope subtree"));
    out.push(("↵  ⇧↵", "next / prev match"));
    out.push((":", "jump to a path · *? in keys"));
    out.push(("|", "jq-style filter → new pane"));
    out.push(("m", "toggle bookmark"));
    out.push(("'", "bookmark picker"));
    out.push(("y / Y", "copy value / path"));
    out.push(("p", "pipe node · all hits on a filter pane"));
    out.push(("s", "split pane at node"));
    out.push(("o", "preview pane"));
    out.push(("\\", "toggle pane layout"));
    out.push(("+ / -", "grow / shrink pane"));
    out.push(("Tab/⇧Tab", "switch pane"));
    out.push(("x", "close pane"));
    out.push(("?", "toggle this help"));
    out.push(("q  Esc", "close pane / quit"));
    assert(Seq::new(out@.len(), |i: int| (out@[i].0@, out@[i].1@)) =~= shortcuts());
    out
}

fn example_list() -> (out: Vec<(&'static str, &'static str, &'static str)>)
    ensures
        Seq::new(out@.len(), |i: int| (out@[i].0@, out@[i].1@, out@[i].2@)) == examples(),
{
    let mut out: Vec<(&'static str, &'static str, &'static str)> = Vec::new();
    out.push(("/", "re:^id_\\d+$", "regex search"));
    out.push(("/", "g:log-*", "glob search (*, ? wildcards)"));
    out.push(("|", ".users[] | select(.age > 30) | .name", "names of users over 30"));
    out.push(("|", ".. | .id", "every .id at any depth"));
    out.push(("|", "select(.name ~ \"re:^a\")", "field value matches a regex"));
    out.push(("|", ".items[] | select(.f ~ \"g:*.log\")", "field value matches a glob"));
    assert(Seq::new(out@.len(), |i: int| (out@[i].0@, out@[i].1@, out@[i].2@)) =~= examples());
    out
}

/// One shortcut: the key right-aligned, so the columns line up, and what it does.
pub open spec fn shortcut_cell(e: (Seq<char>, Seq<char>), key_w: int, desc_w: int) -> Seq<PieceV> {
    seq![
        said(" "@ + (blanks(less(key_w, e.0.len() as int)) + e.0) + "  "@, Tone::CardKey),
        said(padded(e.1, desc_w) + " "@, Tone::CardText),
    ]
}

/// How many lines the shortcuts take in two columns.
pub open spec fn shortcut_rows() -> int {
    (shortcuts().len() as int + 1) / 2
}

/// The shortcuts number `r` of both columns: the list reads from top to bottom.
pub open spec fn shortcut_line(r: int, key_w: int, desc_w: int) -> Seq<PieceV> {
    let left = shortcut_cell(shortcuts()[r], key_w, desc_w);
    let k = r + shortcut_rows();
    if k < shortcuts().len() {
        left + seq![said("  "@, Tone::CardText)] + shortcut_cell(shortcuts()[k], key_w, desc_w)
    } else {
        left
    }
}

pub open spec fn example_line(e: (Seq<char>, Seq<char>, Seq<char>), code_w: int) -> Seq<PieceV> {
    seq![
        said(" "@ + e.0 + " "@, Tone::CardKey),
        said(padded(e.1, code_w), Tone::CardCode),
        said("  "@ + e.2, Tone::CardText),
    ]
}

/// How wide the keys, what they do, the examples and what those find are.
pub open spec fn key_width() -> int {
    widest(Seq::new(shortcuts().len(), |i: int| shortcuts()[i].0))
}

pub open spec fn action_width() -> int {
    widest(Seq::new(shortcuts().len(), |i: int| shortcuts()[i].1))
}

pub open spec fn code_width() -> int {
    widest(Seq::new(examples().len(), |i: int| examples()[i].1))
}

pub open spec fn finding_width() -> int {
    widest(Seq::new(examples().len(), |i: int| examples()[i].2))
}

/// The lines of the shortcuts card.
pub open spec fn help_lines() -> Seq<Seq<PieceV>> {
    let grid = Seq::new(
        shortcut_rows() as nat,
        |r: int| shortcut_line(r, key_width(), action_width()),
    );
    let worked = Seq::new(examples().len(), |i: int| example_line(examples()[i], code_width()));
    grid + seq![
        Seq::empty(),
        seq![said(" examples · / search · | filter"@, Tone::CardKey)],
    ] + worked
}

/// The shortcuts card.
pub open spec fn help_shown(area: Area) -> CardV {
    let title = " keyboard shortcuts · any key to close "@;
    let columns = 2 * (key_width() + action_width() + 4) + 2;
    let worked = 3 + code_width() + 2 + finding_width();
    let inner = lower(
        higher(higher(columns, worked), title.len() as int),
        less(area.width as int, 2),
    );
    CardV {
        area: centered(area, inner + 2, lower(help_lines().len() as int + 2, area.height as int)),
        title,
        lines: help_lines(),
    }
}

fn say_shortcut(out: &mut Vec<Piece>, key: &str, action: &str, key_w: usize, desc_w: usize)
    ensures
        piece_views(final(out)@) == piece_views(old(out)@) + shortcut_cell(
            (key@, action@),
            key_w as int,
            desc_w as int,
        ),
{
    let ghost before = piece_views(out@);
    let gap = missing(key, key_w);
    let aligned = joint(gap.as_str(), key);
    say(out, between(" ", aligned.as_str(), "  "), Tone::CardKey);
    let filled = pad(action, desc_w);
    say(out, joint(filled.as_str(), " "), Tone::CardText);
    assert(piece_views(out@) =~= before + shortcut_cell(
        (key@, action@),
        key_w as int,
        desc_w as int,
    ));
}

fn width_in_shortcuts(
    es: &Vec<(&'static str, &'static str)>,
    key: bool,
    Ghost(ts): Ghost<Seq<Seq<char>>>,
) -> (r: usize)
    requires
        ts.len() == es@.len(),
        forall|i: int|
            0 <= i < ts.len() ==> #[trigger] ts[i] == if key {
                es@[i].0@
            } else {
                es@[i].1@
            },
    ensures
        r == widest(ts),
{
    let mut out: Vec<String> = Vec::new();
    let mut i: usize = 0;
    while i < es.len()
        invariant
            i <= es@.len(),
            out@.len() == i,
            ts.len() == es@.len(),
            forall|k: int|
                0 <= k < ts.len() ==> #[trigger] ts[k] == if key {
                    es@[k].0@
                } else {
                    es@[k].1@
                },
            forall|k: int| 0 <= k < i ==> (#[trigger] out@[k])@ == ts[k],
        decreases es@.len() - i,
    {
        let text = if key {
            es[i].0
        } else {
            es[i].1
        };
        out.push(text.to_owned());
        i += 1;
    }
    assert(texts(out@) =~= ts);
    widest_of(&out)
}

fn width_in_examples(
    es: &Vec<(&'static str, &'static str, &'static str)>,
    code: bool,
    Ghost(ts): Ghost<Seq<Seq<char>>>,
) -> (r: usize)
    requires
        ts.len() == es@.len(),
        forall|i: int|
            0 <= i < ts.len() ==> #[trigger] ts[i] == if code {
                es@[i].1@
            } else {
                es@[i].2@
            },
    ensures
        r == widest(ts),
{
    let mut out: Vec<String> = Vec::new();
    let mut i: usize = 0;
    while i < es.len()
        invariant
            i <= es@.len(),
            out@.len() == i,
            ts.len() == es@.len(),
            forall|k: int|
                0 <= k < ts.len() ==> #[trigger] ts[k] == if code {
                    es@[k].1@
                } else {
                    es@[k].2@
                },
            forall|k: int| 0 <= k < i ==> (#[trigger] out@[k])@ == ts[k],
        decreases es@.len() - i,
    {
        let text = if code {
            es[i].1
        } else {
            es[i].2
        };
        out.push(text.to_owned());
        i += 1;
    }
    assert(texts(out@) =~= ts);
    widest_of(&out)
}

/// The lines of the card, and how wide they are together.
fn write_help() -> (r: (Vec<Vec<Piece>>, u128))
    ensures
        line_views(r.0@) == help_lines(),
        r.1 == higher(
            2 * (key_width() + action_width() + 4) + 2,
            3 + code_width() + 2 + finding_width(),
        ),
{
    let es = shortcut_list();
    let xs = example_list();
    let ghost table = Seq::new(es@.len(), |i: int| (es@[i].0@, es@[i].1@));
    let ghost worked = Seq::new(xs@.len(), |i: int| (xs@[i].0@, xs@[i].1@, xs@[i].2@));
    assert(table.len() == shortcuts().len() && worked.len() == examples().len());
    let n: usize = es.len();
    let ghost keys = Seq::new(shortcuts().len(), |i: int| shortcuts()[i].0);
    let ghost actions = Seq::new(shortcuts().len(), |i: int| shortcuts()[i].1);
    let ghost codes = Seq::new(examples().len(), |i: int| examples()[i].1);
    let ghost findings = Seq::new(examples().len(), |i: int| examples()[i].2);
    proof {
        assert forall|i: int| 0 <= i < n implies #[trigger] shortcuts()[i] == (
            es@[i].0@,
            es@[i].1@,
        ) by {
            assert(table[i] == shortcuts()[i]);
        }
        assert forall|i: int| 0 <= i < xs@.len() implies #[trigger] examples()[i] == (
            xs@[i].0@,
            xs@[i].1@,
            xs@[i].2@,
        ) by {
            assert(worked[i] == examples()[i]);
        }
    }
    let key_w: usize = width_in_shortcuts(&es, true, Ghost(keys));
    let desc_w: usize = width_in_shortcuts(&es, false, Ghost(actions));
    let code_w: usize = width_in_examples(&xs, true, Ghost(codes));
    let find_w: usize = width_in_examples(&xs, false, Ghost(findings));
    let rows: usize = n / 2 + n % 2;
    assert(rows == shortcut_rows());
    let mut lines: Vec<Vec<Piece>> = Vec::new();
    let mut r: usize = 0;
    while r < rows
        invariant
            r <= rows,
            n == es@.len(),
            n == shortcuts().len(),
            rows == shortcut_rows(),
            rows <= n,
            key_w == key_width(),
            desc_w == action_width(),
            forall|i: int| 0 <= i < n ==> #[trigger] shortcuts()[i] == (es@[i].0@, es@[i].1@),
            lines@.len() == r,
            forall|k: int|
                0 <= k < r ==> piece_views((#[trigger] lines@[k])@) == shortcut_line(
                    k,
                    key_width(),
                    action_width(),
                ),
        decreases rows - r,
    {
        let mut line: Vec<Piece> = Vec::new();
        assert(piece_views(line@) =~= Seq::empty());
        let (k1, d1) = es[r];
        say_shortcut(&mut line, k1, d1, key_w, desc_w);
        assert(shortcuts()[r as int] == (k1@, d1@));
        if r < n - rows {
            say(&mut line, "  ".to_owned(), Tone::CardText);
            let (k2, d2) = es[r + rows];
            say_shortcut(&mut line, k2, d2, key_w, desc_w);
            assert(shortcuts()[r + rows] == (k2@, d2@));
        }
        assert(piece_views(line@) =~= shortcut_line(r as int, key_width(), action_width()));
        lines.push(line);
        r += 1;
    }
    let ghost grid = Seq::new(
        shortcut_rows() as nat,
        |r: int| shortcut_line(r, key_width(), action_width()),
    );
    assert(line_views(lines@) =~= grid);
    let empty: Vec<Piece> = Vec::new();
    assert(piece_views(empty@) =~= Seq::empty());
    push_line(&mut lines, empty);
    push_line(&mut lines, one_piece(" examples · / search · | filter".to_owned(), Tone::CardKey));
    let ghost head = line_views(lines@);
    assert(head =~= grid + seq![
        Seq::empty(),
        seq![said(" examples · / search · | filter"@, Tone::CardKey)],
    ]);
    let mut i: usize = 0;
    assert(head =~= head + Seq::new(
        0nat,
        |i: int| example_line(examples()[i], code_width()),
    ));
    while i < xs.len()
        invariant
            i <= xs@.len(),
            xs@.len() == examples().len(),
            code_w == code_width(),
            forall|i: int|
                0 <= i < xs@.len() ==> #[trigger] examples()[i] == (
                    xs@[i].0@,
                    xs@[i].1@,
                    xs@[i].2@,
                ),
            line_views(lines@) == head + Seq::new(
                i as nat,
                |i: int| example_line(examples()[i], code_width()),
            ),
        decreases xs@.len() - i,
    {
        let (p, c, d) = xs[i];
        assert(examples()[i as int] == (p@, c@, d@));
        let mut line: Vec<Piece> = Vec::new();
        say(&mut line, between(" ", p, " "), Tone::CardKey);
        say(&mut line, pad(c, code_w), Tone::CardCode);
        say(&mut line, joint("  ", d), Tone::CardText);
        assert(piece_views(line@) =~= example_line(examples()[i as int], code_width()));
        push_line(&mut lines, line);
        i += 1;
        assert(line_views(lines@) =~= head + Seq::new(
            i as nat,
            |i: int| example_line(examples()[i], code_width()),
        ));
    }
    assert(line_views(lines@) =~= help_lines());
    let columns: u128 = 2 * (key_w as u128 + desc_w as u128 + 4) + 2;
    let shown: u128 = 3 + code_w as u128 + 2 + find_w as u128;
    (
        lines,
        if columns >= shown {
            columns
        } else {
            shown
        },
    )
}

/// The keyboard-shortcut cheatsheet as a centered card (opened with `?`, closed by any
/// key): two columns of keys and actions, and worked examples below.
pub fn help_card(area: Area) -> (r: Card)
    requires
        area.wf(),
    ensures
        r@ == help_shown(area),
{
    let (lines, wide) = write_help();
    let title = " keyboard shortcuts · any key to close ";
    let title_w: usize = title.unicode_len();
    let asked: u128 = if wide >= title_w as u128 {
        wide
    } else {
        title_w as u128
    };
    let most: u16 = if area.width >= 2 {
        area.width - 2
    } else {
        0
    };
    let inner: u16 = if asked <= most as u128 {
        asked as u16
    } else {
        most
    };
    let n: usize = lines.len();
    assert(line_views(lines@).len() == n);
    let height: u16 = if n < 65534 && n + 2 <= area.height as usize {
        (n + 2) as u16
    } else {
        area.height
    };
    Card { area: center(area, inner + 2, height), title: title.to_owned(), lines }
}

} // verus!
