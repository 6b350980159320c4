//! What stands on the screen, as pieces of text in tones: the titles and rows of the
//! panes, the footer and the prompts.

use crate::input::{InputV, TextInput};
use crate::overlay::{higher, less, lower};
use crate::pane::{
    absolute_match, find_path, focus_path, lemma_position, match_count, opt_path, opt_text,
    same_path, saturating_sum, Mode, Pane, PaneV,
};
use crate::paths::segment_views;
use crate::rows::{row_views, Row, RowV};
use crate::scanner::Kind;
use crate::text::{between, chars_of, decimal, decimal_string, joint, string_of};
use crate::tree::{breadcrumb_segments, crumbs, path_views};
use vstd::prelude::*;

verus! {

/// How a piece of text is to look.
#[derive(Clone, Copy, PartialEq, Eq, Debug, Structural)]
pub enum Tone {
    Plain,
    /// Object keys, and the last one of a path.
    Key,
    KeyBold,
    /// Array indices, and the last one of a path.
    Index,
    IndexBold,
    /// Strings, and the names of types.
    Str,
    Num,
    Bool,
    /// Braces, colons, markers, previews.
    Punct,
    /// The marker in front of a bookmarked row.
    Bookmark,
    /// A prompt, and the character under its caret.
    Prompt,
    Caret,
    /// The status line, and the key hint in its place.
    Status,
    Hint,
    /// The titles of the active pane and of the others.
    TitleActive,
    TitleIdle,
    /// The row that has the focus.
    Selected,
    /// A row that a search found, and the one it is at.
    Match,
    CurrentMatch,
    /// The row that stands for those still being scanned.
    Loading,
    /// Text, keys and code on a card.
    CardText,
    CardKey,
    CardCode,
    /// An item of a picker, and the picked one.
    Item,
    Picked,
    /// The comment behind a type.
    Comment,
}

/// A piece of text in one tone.
pub struct Piece {
    pub text: String,
    pub tone: Tone,
}

pub struct PieceV {
    pub text: Seq<char>,
    pub tone: Tone,
}

impl View for Piece {
    type V = PieceV;

    open spec fn view(&self) -> PieceV {
        PieceV { text: self.text@, tone: self.tone }
    }
}

pub open spec fn piece_views(ps: Seq<Piece>) -> Seq<PieceV> {
    Seq::new(ps.len(), |i: int| ps[i]@)
}

pub open spec fn line_views(ls: Seq<Vec<Piece>>) -> Seq<Seq<PieceV>> {
    Seq::new(ls.len(), |i: int| piece_views(ls[i]@))
}

pub open spec fn said(text: Seq<char>, tone: Tone) -> PieceV {
    PieceV { text, tone }
}

/// Put a piece behind a line.
pub fn say(out: &mut Vec<Piece>, text: String, tone: Tone)
    ensures
        piece_views(final(out)@) == piece_views(old(out)@).push(said(text@, tone)),
{
    let ghost before = piece_views(out@);
    out.push(Piece { text, tone });
    assert(piece_views(out@) =~= before.push(said(text@, tone)));
}

/// The tone for a value of the given kind.
pub open spec fn kind_tone(kind: Kind) -> Tone {
    match kind {
        Kind::Str => Tone::Str,
        Kind::Number => Tone::Num,
        Kind::Bool => Tone::Bool,
        Kind::Null | Kind::Object | Kind::Array => Tone::Punct,
    }
}

pub fn value_tone(kind: Kind) -> (r: Tone)
    ensures
        r == kind_tone(kind),
{
    match kind {
        Kind::Str => Tone::Str,
        Kind::Number => Tone::Num,
        Kind::Bool => Tone::Bool,
        Kind::Null | Kind::Object | Kind::Array => Tone::Punct,
    }
}

// ---------------------------------------------------------------------------
// The way to the focused node
// ---------------------------------------------------------------------------
/// A segment of a path as it is shown: an index in brackets.
pub open spec fn crumb_text(seg: (Seq<char>, bool)) -> Seq<char> {
    if seg.1 {
        "["@ + seg.0 + "]"@
    } else {
        seg.0
    }
}

/// How wide the segments from number `i` on are, with a separator in front of each.
pub open spec fn crumb_width(segs: Seq<(Seq<char>, bool)>, i: int) -> int
    decreases segs.len() - i,
{
    if i >= segs.len() {
        0
    } else {
        3 + crumb_text(segs[i]).len() + crumb_width(segs, i + 1)
    }
}

/// The first segment from number `i` on whose rest fits behind an ellipsis.
pub open spec fn first_fit(segs: Seq<(Seq<char>, bool)>, avail: int, i: int) -> int
    decreases segs.len() - i,
{
    if i >= segs.len() {
        segs.len() as int
    } else if 1 + crumb_width(segs, i) <= avail {
        i
    } else {
        first_fit(segs, avail, i + 1)
    }
}

/// The first segment that is shown in `avail` columns: all of them are where they
/// fit, and else as many of the last as fit behind an ellipsis.
pub open spec fn crumb_start(segs: Seq<(Seq<char>, bool)>, avail: int) -> int {
    if crumb_width(segs, 0) - 3 <= avail {
        0
    } else {
        first_fit(segs, avail, 0)
    }
}

/// The segments from number `i` on, the last one in bold.
pub open spec fn crumb_pieces(segs: Seq<(Seq<char>, bool)>, i: int) -> Seq<PieceV>
    decreases segs.len() - i,
{
    if i >= segs.len() {
        Seq::empty()
    } else {
        let last = i == segs.len() - 1;
        let tone = if segs[i].1 {
            if last {
                Tone::IndexBold
            } else {
                Tone::Index
            }
        } else if last {
            Tone::KeyBold
        } else {
            Tone::Key
        };
        let rest = crumb_pieces(segs, i + 1);
        let own = seq![said(crumb_text(segs[i]), tone)] + rest;
        if i > 0 {
            seq![said(" › "@, Tone::Punct)] + own
        } else {
            own
        }
    }
}

/// The path to the focused node in `avail` columns.
pub open spec fn breadcrumb(segs: Seq<(Seq<char>, bool)>, avail: int) -> Seq<PieceV> {
    if segs.len() == 0 || avail == 0 {
        Seq::empty()
    } else {
        let start = crumb_start(segs, avail);
        let shown = crumb_pieces(segs, start);
        if start > 0 {
            seq![said("…"@, Tone::Punct)] + shown
        } else {
            shown
        }
    }
}

fn crumb_of(seg: &(String, bool)) -> (r: String)
    ensures
        r@ == crumb_text((seg.0@, seg.1)),
{
    if seg.1 {
        between("[", seg.0.as_str(), "]")
    } else {
        seg.0.clone()
    }
}

proof fn lemma_crumb_width(segs: Seq<(Seq<char>, bool)>, i: int, j: int)
    requires
        0 <= i <= j,
    ensures
        0 <= crumb_width(segs, j) <= crumb_width(segs, i),
    decreases segs.len() - i,
{
    if i < segs.len() {
        if i < j {
            lemma_crumb_width(segs, i + 1, j);
        } else {
            lemma_crumb_width(segs, i + 1, i + 1);
        }
    }
}

proof fn lemma_first_fit(segs: Seq<(Seq<char>, bool)>, avail: int, i: int, at: int)
    requires
        0 <= i <= at <= segs.len(),
        at < segs.len() ==> 1 + crumb_width(segs, at) <= avail,
        at > i ==> 1 + crumb_width(segs, at - 1) > avail,
    ensures
        first_fit(segs, avail, i) == at,
    decreases at - i,
{
    if i < at {
        lemma_crumb_width(segs, i, at - 1);
        lemma_first_fit(segs, avail, i + 1, at);
    }
}

/// The first segment to show. 0 where the whole path fits.
fn find_start(segs: &[(String, bool)], avail: usize) -> (r: usize)
    requires
        segs@.len() > 0,
    ensures
        r == crumb_start(segment_views(segs@), avail as int),
        r <= segs@.len(),
{
    let ghost views = segment_views(segs@);
    let room: u128 = avail as u128 + 3;
    let mut start: usize = segs.len();
    let mut i: usize = segs.len();
    let mut acc: u128 = 0;
    while i > 0
        invariant
            i <= segs@.len(),
            start <= segs@.len(),
            views == segment_views(segs@),
            room == avail + 3,
            acc == crumb_width(views, i as int),
            acc <= room,
            i <= start,
            start < segs@.len() ==> 1 + crumb_width(views, start as int) <= avail,
            i < start ==> 1 + crumb_width(views, start - 1) > avail,
            i == start ==> i == segs@.len() || 1 + crumb_width(views, i as int) <= avail,
        decreases i,
    {
        let text = crumb_of(&segs[i - 1]);
        let w: usize = text.as_str().unicode_len();
        assert(views[i - 1] == (segs@[i - 1].0@, segs@[i - 1].1));
        let wide: u128 = acc + 3 + w as u128;
        assert(wide == crumb_width(views, i - 1));
        if wide > room {
            proof {
                lemma_crumb_width(views, 0, i - 1);
                if start > 0 && i == start {
                    assert(1 + crumb_width(views, start - 1) > avail);
                }
                lemma_first_fit(views, avail as int, 0, start as int);
            }
            return start;
        }
        if wide + 1 <= avail as u128 && start == i {
            start = i - 1;
        }
        acc = wide;
        i -= 1;
    }
    0
}

/// The focus breadcrumb (`users › [2] › city`) as pieces that fit within `avail`
/// columns, left-truncated with a leading `…` so the tail nearest the focused node
/// always stays visible. Array elements are bracketed; the last (current) segment is
/// bold.
pub fn breadcrumb_spans(segs: &[(String, bool)], avail: usize) -> (out: Vec<Piece>)
    ensures
        piece_views(out@) == breadcrumb(segment_views(segs@), avail as int),
{
    let ghost views = segment_views(segs@);
    let mut out: Vec<Piece> = Vec::new();
    assert(piece_views(out@) =~= Seq::empty());
    if segs.len() == 0 || avail == 0 {
        return out;
    }
    let start: usize = find_start(segs, avail);
    if start > 0 {
        say(&mut out, "…".to_owned(), Tone::Punct);
    }
    let n: usize = segs.len();
    let mut i: usize = start;
    assert(piece_views(out@) + crumb_pieces(views, start as int) =~= breadcrumb(
        views,
        avail as int,
    ));
    while i < n
        invariant
            start <= i <= n,
            n == segs@.len(),
            views == segment_views(segs@),
            piece_views(out@) + crumb_pieces(views, i as int) == breadcrumb(views, avail as int),
        decreases n - i,
    {
        let ghost before = piece_views(out@);
        assert(views[i as int] == (segs@[i as int].0@, segs@[i as int].1));
        if i > 0 {
            say(&mut out, " › ".to_owned(), Tone::Punct);
        }
        let last = i == n - 1;
        let tone = if segs[i].1 {
            if last {
                Tone::IndexBold
            } else {
                Tone::Index
            }
        } else if last {
            Tone::KeyBold
        } else {
            Tone::Key
        };
        say(&mut out, crumb_of(&segs[i]), tone);
        assert(piece_views(out@) + crumb_pieces(views, i + 1) =~= before + crumb_pieces(
            views,
            i as int,
        ));
        i += 1;
    }
    assert(piece_views(out@) + crumb_pieces(views, i as int) =~= piece_views(out@));
    out
}

/// How wide pieces are together.
pub open spec fn width_of(ps: Seq<PieceV>) -> int
    decreases ps.len(),
{
    if ps.len() == 0 {
        0
    } else {
        ps[0].text.len() + width_of(ps.skip(1))
    }
}

proof fn lemma_crumb_pieces_width(segs: Seq<(Seq<char>, bool)>, i: int)
    requires
        0 <= i < segs.len(),
    ensures
        width_of(crumb_pieces(segs, i)) == crumb_width(segs, i) - if i > 0 {
            0int
        } else {
            3
        },
    decreases segs.len() - i,
{
    reveal_strlit(" › ");
    let ps = crumb_pieces(segs, i);
    let rest = crumb_pieces(segs, i + 1);
    if i + 1 < segs.len() {
        lemma_crumb_pieces_width(segs, i + 1);
    } else {
        assert(rest == Seq::<PieceV>::empty());
        assert(crumb_width(segs, i + 1) == 0);
        assert(width_of(rest) == 0);
    }
    if i > 0 {
        assert(ps.skip(1).skip(1) =~= rest);
        assert(width_of(ps.skip(1)) == ps.skip(1)[0].text.len() + width_of(rest));
    } else {
        assert(ps.skip(1) =~= rest);
    }
}

/// The breadcrumb fits, and its last segment is that of the focused node wherever
/// more than an ellipsis is shown.
pub proof fn law_breadcrumb_fits(segs: Seq<(Seq<char>, bool)>, avail: int)
    requires
        avail >= 0,
    ensures
        width_of(breadcrumb(segs, avail)) <= avail,
        breadcrumb(segs, avail).len() > 1 ==> breadcrumb(segs, avail).last().text == crumb_text(
            segs.last(),
        ),
{
    if segs.len() > 0 && avail > 0 {
        let start = crumb_start(segs, avail);
        let all = breadcrumb(segs, avail);
        reveal_strlit("…");
        lemma_fit_bound(segs, avail, 0);
        if start < segs.len() {
            lemma_crumb_pieces_width(segs, start);
            lemma_last_crumb(segs, start);
        } else {
            assert(crumb_pieces(segs, start) == Seq::<PieceV>::empty());
            assert(width_of(Seq::<PieceV>::empty()) == 0);
        }
        if start > 0 {
            assert(all.skip(1) =~= crumb_pieces(segs, start));
        }
    }
}

proof fn lemma_fit_bound(segs: Seq<(Seq<char>, bool)>, avail: int, i: int)
    requires
        0 <= i <= segs.len(),
    ensures
        i <= first_fit(segs, avail, i) <= segs.len(),
        first_fit(segs, avail, i) < segs.len() ==> 1 + crumb_width(
            segs,
            first_fit(segs, avail, i),
        ) <= avail,
    decreases segs.len() - i,
{
    if i < segs.len() {
        lemma_fit_bound(segs, avail, i + 1);
    }
}

proof fn lemma_last_crumb(segs: Seq<(Seq<char>, bool)>, i: int)
    requires
        0 <= i < segs.len(),
    ensures
        crumb_pieces(segs, i).len() > 0,
        crumb_pieces(segs, i).last().text == crumb_text(segs.last()),
    decreases segs.len() - i,
{
    if i + 1 < segs.len() {
        lemma_last_crumb(segs, i + 1);
    } else {
        assert(crumb_pieces(segs, i + 1) == Seq::<PieceV>::empty());
    }
}

// ---------------------------------------------------------------------------
// The footer
// ---------------------------------------------------------------------------
/// A prompt with a block caret: the character under the caret stands out, or a blank
/// where the caret is at the end of the line.
pub open spec fn prompt_pieces(prefix: char, line: InputV, hint: Seq<char>) -> Seq<PieceV> {
    let under = if line.after.len() > 0 {
        line.after[0]
    } else {
        ' '
    };
    let rest = if line.after.len() > 0 {
        line.after.skip(1)
    } else {
        Seq::empty()
    };
    seq![
        said(seq![' ', prefix] + line.before, Tone::Prompt),
        said(seq![under], Tone::Caret),
        said(rest + "   "@ + hint, Tone::Prompt),
    ]
}

/// A prompt footer line with a visible block caret at the edit position, so that the
/// `/`, `:`, and `|` prompts read like real input fields.
pub fn prompt_line(prefix: char, input: &TextInput, hint: &str) -> (out: Vec<Piece>)
    requires
        input.wf(),
    ensures
        piece_views(out@) == prompt_pieces(prefix, input@, hint@),
{
    let (cs, k) = input.split();
    let n: usize = cs.len();
    let ghost line = input@;
    let mut head = String::new();
    head.push(' ');
    head.push(prefix);
    let before = string_of(cs.as_slice(), 0, k);
    assert(before@ =~= line.before);
    head.push_str(before.as_str());
    assert(head@ =~= seq![' ', prefix] + line.before);
    let mut under = String::new();
    let from: usize = if k < n {
        assert(line.after[0] == cs@[k as int]);
        under.push(cs[k]);
        k + 1
    } else {
        under.push(' ');
        n
    };
    let rest = string_of(cs.as_slice(), from, n);
    proof {
        if k < n {
            assert(rest@ =~= line.after.skip(1));
            assert(under@ =~= seq![line.after[0]]);
        } else {
            assert(rest@ =~= Seq::empty());
            assert(under@ =~= seq![' ']);
        }
    }
    let mut out: Vec<Piece> = Vec::new();
    say(&mut out, head, Tone::Prompt);
    say(&mut out, under, Tone::Caret);
    say(&mut out, between(rest.as_str(), "   ", hint), Tone::Prompt);
    assert(piece_views(out@) =~= prompt_pieces(prefix, line, hint@));
    out
}

/// Where the search is: the reason why its pattern is bad, the match it is at, or how
/// many there are so far.
pub open spec fn search_position(v: PaneV) -> Seq<char> {
    let count = match_count(v);
    let more = match v.search {
        Some(s) => if s.finished {
            ""@
        } else {
            "+"@
        },
        None => ""@,
    };
    match v.query_error {
        Some(e) => "("@ + e + ")"@,
        None => if v.landed && count > 0 {
            decimal((v.match_idx + 1) as nat) + "/"@ + decimal(count as nat) + more
        } else {
            decimal(count as nat) + more + " matches"@
        },
    }
}

/// What the search is aimed at, or that it can be aimed.
pub open spec fn scope_hint(v: PaneV) -> Seq<char> {
    match v.search_scope {
        Some(s) => if v.scoped {
            " · in "@ + s.label + " · ⇥ all"@
        } else {
            " · ⇥ scope"@
        },
        None => ""@,
    }
}

/// The footer: the prompt of the active pane, or else the status line, or else the
/// key hint.
pub open spec fn footer_pieces(v: PaneV, flash: Option<Seq<char>>) -> Seq<PieceV> {
    match v.mode {
        Mode::Search => prompt_pieces(
            '/',
            v.query,
            search_position(v) + scope_hint(v) + " · ↵/↓ next · esc close"@,
        ),
        Mode::Goto => prompt_pieces(':', v.goto, "↵ jump · esc cancel"@),
        Mode::Filter => prompt_pieces(
            '|',
            v.filter_query,
            match v.filter_error {
                Some(e) => "("@ + e + ")"@,
                None => "↵ run → new pane · esc cancel"@,
            },
        ),
        _ => match flash {
            Some(msg) => seq![said(" "@ + msg, Tone::Status)],
            None => seq![
                said(
                    " ↑/↓ move · enter expand · / search · : goto · | filter · y copy · ? help · q quit"@,
                    Tone::Hint,
                ),
            ],
        },
    }
}

fn number(n: usize) -> (r: String)
    ensures
        r@ == decimal(n as nat),
{
    decimal_string(n as u64)
}

fn write_position(v: &Pane, b: &[u8]) -> (r: String)
    requires
        v.wf(b@),
    ensures
        r@ == search_position(v.model(b@)),
{
    let (count, more): (usize, &str) = match &v.search {
        Some(s) => {
            assert(s.model().matches.len() == s.matches@.len());
            (
                s.matches.len(),
                if s.finished {
                    ""
                } else {
                    "+"
                },
            )
        },
        None => (0, ""),
    };
    match &v.query_error {
        Some(e) => between("(", e.as_str(), ")"),
        None => {
            let total = number(count);
            if v.landed && count > 0 {
                let at = number(v.match_idx + 1);
                let of = between(at.as_str(), "/", total.as_str());
                joint(of.as_str(), more)
            } else {
                between(total.as_str(), more, " matches")
            }
        },
    }
}

fn write_scope(v: &Pane, b: &[u8]) -> (r: String)
    ensures
        r@ == scope_hint(v.model(b@)),
{
    match &v.search_scope {
        Some(s) => if v.scoped {
            between(" · in ", s.label.as_str(), " · ⇥ all")
        } else {
            " · ⇥ scope".to_owned()
        },
        None => "".to_owned(),
    }
}

/// The single global key/search-status bar, reflecting the active pane. A transient
/// `flash` (e.g. a copy confirmation) takes the bar over the key hint.
pub fn footer(v: &Pane, flash: &Option<String>, b: &[u8]) -> (out: Vec<Piece>)
    requires
        v.wf(b@),
    ensures
        piece_views(out@) == footer_pieces(v.model(b@), opt_text(*flash)),
{
    match v.mode {
        Mode::Search => {
            let pos = write_position(v, b);
            let scope = write_scope(v, b);
            let hint = between(pos.as_str(), scope.as_str(), " · ↵/↓ next · esc close");
            prompt_line('/', &v.query, hint.as_str())
        },
        Mode::Goto => prompt_line(':', &v.goto, "↵ jump · esc cancel"),
        Mode::Filter => {
            let hint = match &v.filter_error {
                Some(e) => between("(", e.as_str(), ")"),
                None => "↵ run → new pane · esc cancel".to_owned(),
            };
            prompt_line('|', &v.filter_query, hint.as_str())
        },
        _ => {
            let mut out: Vec<Piece> = Vec::new();
            match flash {
                Some(msg) => say(&mut out, joint(" ", msg.as_str()), Tone::Status),
                None => say(
                    &mut out,
                    " ↑/↓ move · enter expand · / search · : goto · | filter · y copy · ? help · q quit".to_owned(),
                    Tone::Hint,
                ),
            }
            assert(piece_views(out@) =~= footer_pieces(v.model(b@), opt_text(*flash)));
            out
        },
    }
}

// ---------------------------------------------------------------------------
// A pane
// ---------------------------------------------------------------------------
/// How many of the first `n` rows stand for nodes.
pub open spec fn real_rows(rows: Seq<RowV>, n: int) -> int
    decreases n,
{
    if n <= 0 {
        0
    } else {
        real_rows(rows, n - 1) + if rows[n - 1].loading {
            0int
        } else {
            1
        }
    }
}

/// The start of a pane's title: its name, the focused row and how many rows there are
/// so far, how much its filter has selected, and whether bytes still arrive.
pub open spec fn title_text(v: PaneV, streaming: bool) -> Seq<char> {
    let n = real_rows(v.rows, v.rows.len() as int);
    let pos = lower(v.focus + 1, higher(n, 1));
    let marker = if v.derived {
        " ↳ "@
    } else {
        " "@
    };
    let place = marker + v.name + ("   "@ + decimal(pos as nat) + "/"@) + (decimal(n as nat)
        + "+"@);
    let hits = match v.filter {
        Some(f) => "   "@ + decimal(f.hits.len()) + if f.finished {
            " hits"@
        } else {
            " hits+"@
        },
        None => ""@,
    };
    place + hits + if streaming {
        "   ⟳ streaming"@
    } else {
        ""@
    }
}

/// A pane's title in `width` columns: the text, and the way to the focused node in
/// what is left.
pub open spec fn title_pieces(v: PaneV, active: bool, streaming: bool, width: int) -> Seq<PieceV> {
    let text = title_text(v, streaming);
    let head = seq![
        said(
            text,
            if active {
                Tone::TitleActive
            } else {
                Tone::TitleIdle
            },
        ),
    ];
    let segs = match focus_path(v) {
        Some(p) => crumbs(v.root, p),
        None => Seq::empty(),
    };
    let crumb = breadcrumb(segs, less(width, text.len() as int + 3));
    if crumb.len() > 0 {
        head + seq![said("   "@, Tone::Plain)] + crumb
    } else {
        head
    }
}

fn count_real(rows: &Vec<Row>) -> (n: usize)
    ensures
        n == real_rows(row_views(rows@), rows@.len() as int),
        n <= rows@.len(),
{
    let ghost views = row_views(rows@);
    let mut n: usize = 0;
    let mut i: usize = 0;
    while i < rows.len()
        invariant
            i <= rows@.len(),
            views == row_views(rows@),
            n <= i,
            n == real_rows(views, i as int),
        decreases rows@.len() - i,
    {
        assert(views[i as int] == rows@[i as int]@);
        if !rows[i].loading {
            n += 1;
        }
        i += 1;
    }
    n
}

fn write_title(v: &Pane, streaming: bool, b: &[u8]) -> (r: String)
    ensures
        r@ == title_text(v.model(b@), streaming),
{
    let n: usize = count_real(&v.rows);
    let most: usize = if n >= 1 {
        n
    } else {
        1
    };
    let pos: usize = if v.focus < most {
        v.focus + 1
    } else {
        most
    };
    let marker = if v.derived {
        " ↳ "
    } else {
        " "
    };
    let at = number(pos);
    let of = number(n);
    let position = between("   ", at.as_str(), "/");
    let total = joint(of.as_str(), "+");
    let named = joint(marker, v.name.as_str());
    let place = between(named.as_str(), position.as_str(), total.as_str());
    let hits = match &v.filter {
        Some(f) => {
            let count = number(f.hits.len());
            assert(f.model().hits.len() == f.hits@.len());
            between(
                "   ",
                count.as_str(),
                if f.finished {
                    " hits"
                } else {
                    " hits+"
                },
            )
        },
        None => "".to_owned(),
    };
    between(
        place.as_str(),
        hits.as_str(),
        if streaming {
            "   ⟳ streaming"
        } else {
            ""
        },
    )
}

/// The title row of a pane: where it comes from, the focused row and the way to it.
/// The active pane gets a bright title.
pub fn pane_title(v: &Pane, active: bool, streaming: bool, width: usize, b: &[u8]) -> (out: Vec<
    Piece,
>)
    ensures
        piece_views(out@) == title_pieces(v.model(b@), active, streaming, width as int),
{
    let text = write_title(v, streaming, b);
    let taken: usize = text.as_str().unicode_len();
    let avail: usize = if taken <= width && width - taken > 3 {
        width - taken - 3
    } else {
        0
    };
    let focused = v.focused_path();
    assert(focus_path(v.model(b@)) == opt_path(focused));
    let segs = match focused {
        Some(p) => {
            let segs = breadcrumb_segments(&v.root, p.as_slice());
            assert(segment_views(segs@) == crumbs(v.root.model(b@), p@));
            segs
        },
        None => {
            let none: Vec<(String, bool)> = Vec::new();
            assert(segment_views(none@) =~= Seq::empty());
            none
        },
    };
    let crumb = breadcrumb_spans(segs.as_slice(), avail);
    let mut out: Vec<Piece> = Vec::new();
    say(
        &mut out,
        text,
        if active {
            Tone::TitleActive
        } else {
            Tone::TitleIdle
        },
    );
    assert(piece_views(crumb@).len() == crumb@.len());
    if crumb.len() > 0 {
        say(&mut out, "   ".to_owned(), Tone::Plain);
        let ghost head = piece_views(out@);
        let mut crumb = crumb;
        let ghost tail = piece_views(crumb@);
        out.append(&mut crumb);
        assert(piece_views(out@) =~= head + tail);
    }
    assert(piece_views(out@) =~= title_pieces(v.model(b@), active, streaming, width as int));
    out
}

/// Blanks.
pub open spec fn blanks(n: int) -> Seq<char> {
    Seq::new(n as nat, |i: int| ' ')
}

fn indentation(depth: usize) -> (r: String)
    ensures
        r@ == blanks(2 * depth),
{
    let mut s = String::new();
    let mut i: usize = 0;
    assert(s@ =~= blanks(0));
    while i < depth
        invariant
            i <= depth,
            s@ == blanks(2 * i),
        decreases depth - i,
    {
        s.push(' ');
        s.push(' ');
        i += 1;
        assert(s@ =~= blanks(2 * i));
    }
    s
}

/// The frame of the spinner on the row that stands for those still being scanned, at
/// a time in milliseconds.
pub fn spinner_frame(ms: u64) -> (r: char)
    ensures
        r == "⠋⠙⠹⠸⠼⠴⠦⠧⠇⠏"@[(ms / 80 % 10) as int],
{
    let frames = chars_of("⠋⠙⠹⠸⠼⠴⠦⠧⠇⠏");
    proof {
        reveal_strlit("⠋⠙⠹⠸⠼⠴⠦⠧⠇⠏");
    }
    frames[(ms / 80 % 10) as usize]
}

/// Whether the search of a pane is at the node with that path. A scoped search counts its
/// paths from the scope, whose own path belongs in front to line up with the rows.
pub open spec fn is_current(v: PaneV, path: Seq<usize>) -> bool {
    match v.search {
        Some(s) => v.match_idx < s.matches.len() && absolute_match(v, s.matches[v.match_idx])
            == path,
        None => false,
    }
}

/// A row of a pane. The active pane shows its focus as a bar; a search hit is in the
/// tone of its kind as a whole; other rows are in the tones of their parts. In front
/// stands a star where the node is bookmarked.
pub open spec fn row_pieces(v: PaneV, i: int, active: bool, frame: char) -> Seq<PieceV> {
    let r = v.rows[i];
    let indent = blanks(2 * r.depth);
    let gutter = if v.bookmarks.contains(r.path) {
        "★"@
    } else {
        " "@
    };
    let marker = if !r.has_children {
        " "@
    } else if r.expanded {
        "▼"@
    } else {
        "▶"@
    };
    let text = gutter + indent + marker + (" "@ + r.label + ": "@) + r.value;
    if r.loading {
        seq![said(" "@ + indent + seq![frame] + " loading…"@, Tone::Loading)]
    } else if active && i == v.focus {
        seq![said(text, Tone::Selected)]
    } else if is_current(v, r.path) {
        seq![said(text, Tone::CurrentMatch)]
    } else if v.match_set.contains(r.path) {
        seq![said(text, Tone::Match)]
    } else {
        seq![
            said(gutter, Tone::Bookmark),
            said(indent, Tone::Plain),
            said(marker, Tone::Punct),
            said(" "@, Tone::Plain),
            said(
                r.label,
                if r.is_index {
                    Tone::Index
                } else {
                    Tone::Key
                },
            ),
            said(": "@, Tone::Punct),
            said(r.value, kind_tone(r.kind)),
        ]
    }
}

/// The rows of a pane that are on screen, which shows `h` of them.
pub open spec fn shown_rows(v: PaneV, h: int, active: bool, frame: char) -> Seq<Seq<PieceV>> {
    let end = lower(v.scroll + h, v.rows.len() as int);
    Seq::new(less(end, v.scroll) as nat, |k: int| row_pieces(v, v.scroll + k, active, frame))
}

fn has_path(paths: &Vec<Vec<usize>>, p: &Vec<usize>) -> (r: bool)
    ensures
        r == path_views(paths@).contains(p@),
{
    let ghost views = path_views(paths@);
    match find_path(paths, p.as_slice()) {
        Some(i) => {
            proof {
                lemma_position(views, p@, 0);
            }
            assert(views[i as int] == p@);
            true
        },
        None => {
            proof {
                lemma_position(views, p@, 0);
            }
            false
        },
    }
}

fn at_match(v: &Pane, p: &Vec<usize>, b: &[u8]) -> (r: bool)
    ensures
        r == is_current(v.model(b@), p@),
{
    match &v.search {
        Some(s) => {
            assert(s.model().matches.len() == s.matches@.len());
            if v.match_idx < s.matches.len() {
                assert(s.model().matches[v.match_idx as int] == s.matches@[v.match_idx as int]@);
                let full = v.abs_match(&s.matches[v.match_idx]);
                assert(absolute_match(v.model(b@), s.matches@[v.match_idx as int]@) == full@);
                same_path(full.as_slice(), p.as_slice())
            } else {
                false
            }
        },
        None => false,
    }
}

fn row_line(v: &Pane, i: usize, active: bool, frame: char, b: &[u8]) -> (out: Vec<Piece>)
    requires
        i < v.rows@.len(),
    ensures
        piece_views(out@) == row_pieces(v.model(b@), i as int, active, frame),
{
    let r = &v.rows[i];
    assert(v.model(b@).rows[i as int] == r@);
    let mut out: Vec<Piece> = Vec::new();
    assert(piece_views(out@) =~= Seq::empty());
    let indent = indentation(r.depth);
    if r.loading {
        let mut text = joint(" ", indent.as_str());
        text.push(frame);
        text.push_str(" loading…");
        assert(text@ =~= " "@ + indent@ + seq![frame] + " loading…"@);
        say(&mut out, text, Tone::Loading);
        assert(piece_views(out@) =~= row_pieces(v.model(b@), i as int, active, frame));
        return out;
    }
    let gutter = if has_path(&v.bookmarks, &r.path) {
        "★"
    } else {
        " "
    };
    let marker = if !r.has_children {
        " "
    } else if r.expanded {
        "▼"
    } else {
        "▶"
    };
    let selected = active && i == v.focus;
    let current = at_match(v, &r.path, b);
    if selected || current || has_path(&v.match_set, &r.path) {
        let head = between(gutter, indent.as_str(), marker);
        let label = between(" ", r.label.as_str(), ": ");
        let text = between(head.as_str(), label.as_str(), r.value.as_str());
        let tone = if selected {
            Tone::Selected
        } else if current {
            Tone::CurrentMatch
        } else {
            Tone::Match
        };
        say(&mut out, text, tone);
    } else {
        say(&mut out, gutter.to_owned(), Tone::Bookmark);
        say(&mut out, indent, Tone::Plain);
        say(&mut out, marker.to_owned(), Tone::Punct);
        say(&mut out, " ".to_owned(), Tone::Plain);
        say(
            &mut out,
            r.label.clone(),
            if r.is_index {
                Tone::Index
            } else {
                Tone::Key
            },
        );
        say(&mut out, ": ".to_owned(), Tone::Punct);
        say(&mut out, r.value.clone(), value_tone(r.kind));
    }
    assert(piece_views(out@) =~= row_pieces(v.model(b@), i as int, active, frame));
    out
}

/// The content rows of a pane, for a content height of `h`. Only the active pane
/// shows its cursor, so the one highlighted row marks which pane is live.
pub fn pane_lines(v: &Pane, h: usize, active: bool, frame: char, b: &[u8]) -> (out: Vec<
    Vec<Piece>,
>)
    ensures
        line_views(out@) == shown_rows(v.model(b@), h as int, active, frame),
{
    let n: usize = v.rows.len();
    let end: usize = saturating_sum(v.scroll, h);
    let end: usize = if end <= n {
        end
    } else {
        n
    };
    let ghost m = v.model(b@);
    assert(m.rows.len() == n);
    let mut out: Vec<Vec<Piece>> = Vec::new();
    let mut i: usize = v.scroll;
    assert(line_views(out@) =~= Seq::empty());
    while i < end
        invariant
            v.scroll <= i,
            i <= end || i == v.scroll,
            end <= v.rows@.len(),
            m == v.model(b@),
            out@.len() == i - v.scroll,
            forall|k: int|
                0 <= k < out@.len() ==> piece_views((#[trigger] out@[k])@) == row_pieces(
                    m,
                    v.scroll + k,
                    active,
                    frame,
                ),
        decreases end - i,
    {
        out.push(row_line(v, i, active, frame, b));
        i += 1;
    }
    assert(line_views(out@) =~= shown_rows(m, h as int, active, frame));
    out
}

/// The breadcrumb shows as many of the last segments as fit: all of them, or else an ellipsis
/// and so many that one more would not fit.
pub proof fn law_the_breadcrumb_shows_the_most(segs: Seq<(Seq<char>, bool)>, avail: int)
    requires
        segs.len() > 0,
        avail > 0,
    ensures
        width_of(crumb_pieces(segs, 0)) <= avail ==> breadcrumb(segs, avail) == crumb_pieces(segs, 0),
        width_of(crumb_pieces(segs, 0)) > avail ==> exists|s: int|
            cut_off_at(segs, avail, #[trigger] crumb_pieces(segs, s), s),
{
    lemma_crumb_pieces_width(segs, 0);
    if width_of(crumb_pieces(segs, 0)) > avail {
        let s = first_fit(segs, avail, 0);
        lemma_fit_bound(segs, avail, 0);
        lemma_no_earlier_fit(segs, avail, 0);
        assert(s > 0);
        lemma_crumb_pieces_width(segs, s - 1);
        assert(cut_off_at(segs, avail, crumb_pieces(segs, s), s));
    }
}

/// Whether a breadcrumb is cut off in front of segment `s`, with no room for the one before.
pub open spec fn cut_off_at(
    segs: Seq<(Seq<char>, bool)>,
    avail: int,
    shown: Seq<PieceV>,
    s: int,
) -> bool {
    &&& 0 < s <= segs.len()
    &&& breadcrumb(segs, avail) == seq![said("…"@, Tone::Punct)] + shown
    &&& s > 1 ==> 1 + width_of(crumb_pieces(segs, s - 1)) > avail
}

proof fn lemma_no_earlier_fit(segs: Seq<(Seq<char>, bool)>, avail: int, i: int)
    requires
        0 <= i <= segs.len(),
    ensures
        forall|k: int|
            i <= k < first_fit(segs, avail, i) ==> 1 + #[trigger] crumb_width(segs, k) > avail,
    decreases segs.len() - i,
{
    if i < segs.len() && 1 + crumb_width(segs, i) > avail {
        lemma_no_earlier_fit(segs, avail, i + 1);
    }
}

} // verus!
