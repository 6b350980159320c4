//! How things look: where the cards stand, which lines and rows are shown, and what a row, a
//! title and a prompt say.

use crate::cards::{
    first_line, last_line, law_highlighting_keeps_text, lemma_spoken_push, mark_titles, marks_shown,
    marks_width, padded, peek_shown, schema_shown, spoken, widest,
};
use crate::input::{whole, InputV};
use crate::layout::{above_footer, content_rows};
use crate::overlay::{centered, peek_height, peek_width, Area};
use crate::paint::{
    footer_pieces, prompt_pieces, real_rows, row_pieces, search_position, shown_rows, title_text,
    PieceV, Tone,
};
use crate::pane::{absolute_match, Mode, PaneV};
use crate::text::decimal;
use vstd::prelude::*;

verus! {

// ---------------------------------------------------------------------------
// Where things stand
// ---------------------------------------------------------------------------
/// A card that fits stands inside its area, as large as asked, with as much room in front of
/// it as behind it, or a cell less.
pub proof fn law_cards_stand_in_the_middle(area: Area, w: int, h: int)
    requires
        area.wf(),
        0 <= w <= area.width,
        0 <= h <= area.height,
    ensures
        ({
            let c = centered(area, w, h);
            let left = c.x - area.x;
            let right = area.x + area.width - (c.x + c.width);
            let above = c.y - area.y;
            let below = area.y + area.height - (c.y + c.height);
            &&& c.width == w
            &&& c.height == h
            &&& left >= 0 && (right == left || right == left + 1)
            &&& above >= 0 && (below == above || below == above + 1)
        }),
{
}

/// The peek card leaves six columns and four rows of a screen that has room for that, and is
/// never narrower than eight columns nor lower than three rows; a larger screen never makes it
/// smaller.
pub proof fn law_the_peek_card_covers_most(width: int, height: int)
    requires
        0 <= width,
        0 <= height,
    ensures
        width >= 14 ==> peek_width(width) == width - 6,
        width < 14 ==> peek_width(width) == 8,
        height >= 7 ==> peek_height(height) == height - 4,
        height < 7 ==> peek_height(height) == 3,
{
}

/// The footer takes the last row of the screen, and a title the first of a pane; a pane has a
/// row for its content even where there is no room for one.
pub proof fn law_footer_and_title_take_a_row(area: Area)
    ensures
        above_footer(area).x == area.x,
        above_footer(area).y == area.y,
        above_footer(area).width == area.width,
        area.height > 0 ==> above_footer(area).height + 1 == area.height,
        area.height == 0 ==> above_footer(area).height == 0,
        area.height >= 2 ==> content_rows(area) + 1 == area.height,
        area.height < 2 ==> content_rows(area) == 1,
{
}

// ---------------------------------------------------------------------------
// Cards
// ---------------------------------------------------------------------------
/// No text is longer than the widest, and one is as long.
pub proof fn law_the_widest(ts: Seq<Seq<char>>)
    ensures
        forall|i: int| 0 <= i < ts.len() ==> (#[trigger] ts[i]).len() <= widest(ts),
        ts.len() > 0 ==> exists|i: int| 0 <= i < ts.len() && (#[trigger] ts[i]).len() == widest(ts),
        ts.len() == 0 ==> widest(ts) == 0,
    decreases ts.len(),
{
    if ts.len() > 0 {
        let rest = ts.drop_last();
        law_the_widest(rest);
        assert forall|i: int| 0 <= i < ts.len() implies (#[trigger] ts[i]).len() <= widest(ts) by {
            if i < ts.len() - 1 {
                assert(rest[i] == ts[i]);
            }
        }
        if rest.len() > 0 && widest(rest) >= ts.last().len() {
            let k = choose|k: int| 0 <= k < rest.len() && (#[trigger] rest[k]).len() == widest(rest);
            assert(ts[k] == rest[k]);
        } else {
            assert(ts[ts.len() - 1].len() == widest(ts));
        }
    }
}

/// Padding puts blanks behind a text and nothing else, as many as it takes.
pub proof fn law_padding(s: Seq<char>, n: int)
    requires
        0 <= n,
    ensures
        padded(s, n).take(s.len() as int) == s,
        s.len() >= n ==> padded(s, n).len() == s.len(),
        s.len() < n ==> padded(s, n).len() == n,
        forall|i: int| s.len() <= i < padded(s, n).len() ==> #[trigger] padded(s, n)[i] == ' ',
{
    assert(padded(s, n).take(s.len() as int) =~= s);
}

/// A card with room for `height` lines shows that many of them from the one scrolled to on;
/// near the end it stays full, and it shows all where all fit.
pub proof fn law_lines_on_a_card(total: int, scroll: int, height: int)
    requires
        0 <= total,
        0 <= scroll,
        0 <= height,
    ensures
        ({
            let top = first_line(total, scroll, height);
            let bottom = last_line(total, scroll, height);
            &&& 0 <= top <= bottom <= total
            &&& total <= height ==> top == 0 && bottom == total
            &&& total > height ==> bottom - top == height
            &&& total > height && scroll + height <= total ==> top == scroll
            &&& total > height && scroll + height > total ==> bottom == total
        }),
{
}

/// The peek card shows lines of the value in their order, and the schema card those of the
/// type, in full: the same text as there, from the first line that is on screen on.
pub proof fn law_cards_show_their_lines(v: PaneV, area: Area, i: int)
    ensures
        peek_shown(v, area) is Some <==> v.peek is Some,
        schema_shown(v, area) is Some <==> v.schema is Some,
        schema_shown(v, area) matches Some(c) ==> 0 <= i < c.lines.len() ==> {
            let s = v.schema->0;
            let top = first_line(s.lines.len() as int, s.scroll, c.area.height - 2);
            0 <= s.scroll && c.area.height >= 2 ==> spoken(c.lines[i]) == s.lines[top + i]
        },
{
    if let Some(s) = v.schema {
        let c = schema_shown(v, area)->0;
        if 0 <= i < c.lines.len() && 0 <= s.scroll {
            let n = s.lines.len() as int;
            let top = first_line(n, s.scroll, c.area.height - 2);
            law_highlighting_keeps_text(s.lines[top + i]);
        }
    }
}

/// The bookmark picker has a line for each bookmark, all as wide as the card is inside, or
/// wider where a path does not fit; the picked one stands out, and no other.
pub proof fn law_the_picker_has_a_line_for_each(v: PaneV, area: Area, i: int)
    requires
        0 <= i < v.bookmarks.len(),
    ensures
        ({
            let c = marks_shown(v, area);
            &&& c.lines.len() == v.bookmarks.len()
            &&& c.lines[i].len() == 1
            &&& c.lines[i][0].tone == Tone::Picked <==> i == v.mark_idx
            &&& c.lines[i][0].tone == Tone::Item <==> i != v.mark_idx
            &&& c.lines[i][0].text.len() + 2 >= c.area.width
            &&& c.lines[i][0].text[0] == ' '
            &&& c.lines[i][0].text.last() == ' '
        }),
{
    let c = marks_shown(v, area);
    reveal_strlit(" ");
    let inner = marks_width(v, area);
    law_padding(mark_titles(v)[i], inner);
    assert(c.lines[i][0].text.len() == 2 + padded(mark_titles(v)[i], inner).len());
}

// ---------------------------------------------------------------------------
// Rows
// ---------------------------------------------------------------------------
/// What is in front of a row's label: a star for a bookmark, two blanks for each level, and
/// whether it is open.
pub open spec fn row_start(v: PaneV, i: int) -> Seq<char> {
    let r = v.rows[i];
    seq![
        if v.bookmarks.contains(r.path) {
            '★'
        } else {
            ' '
        },
    ] + Seq::new((2 * r.depth) as nat, |k: int| ' ') + seq![
        if !r.has_children {
            ' '
        } else if r.expanded {
            '▼'
        } else {
            '▶'
        },
        ' ',
    ]
}

/// A row says the same in whatever tones: a star where it is bookmarked, blanks for how deep
/// it lies, whether it is open, its label, a colon and its value.
pub proof fn law_rows_say_the_same(v: PaneV, i: int, active: bool, frame: char)
    requires
        0 <= i < v.rows.len(),
        !v.rows[i].loading,
        0 <= v.rows[i].depth,
    ensures
        spoken(row_pieces(v, i, active, frame)) == row_start(v, i) + v.rows[i].label + seq![':', ' ']
            + v.rows[i].value,
{
    let r = v.rows[i];
    let ps = row_pieces(v, i, active, frame);
    reveal_strlit(" ");
    reveal_strlit(": ");
    reveal_strlit("★");
    reveal_strlit("▼");
    reveal_strlit("▶");
    let all = row_start(v, i) + r.label + seq![':', ' '] + r.value;
    if ps.len() == 1 {
        assert(ps.skip(1) =~= Seq::empty());
        assert(spoken(ps.skip(1)) == Seq::<char>::empty());
        assert(spoken(ps) =~= ps[0].text);
        assert(ps[0].text =~= all);
    } else {
        assert(ps.len() == 7);
        lemma_seven(ps);
        assert(spoken(ps) =~= all);
    }
}

proof fn lemma_seven(ps: Seq<PieceV>)
    requires
        ps.len() == 7,
    ensures
        spoken(ps) == ps[0].text + ps[1].text + ps[2].text + ps[3].text + ps[4].text + ps[5].text
            + ps[6].text,
{
    assert(spoken(ps.take(0)) == Seq::<char>::empty());
    lemma_one_more(ps, 1);
    assert(spoken(ps.take(1)) =~= ps[0].text);
    lemma_one_more(ps, 2);
    lemma_one_more(ps, 3);
    lemma_one_more(ps, 4);
    lemma_one_more(ps, 5);
    lemma_one_more(ps, 6);
    lemma_one_more(ps, 7);
    assert(ps.take(7) =~= ps);
}

proof fn lemma_one_more(ps: Seq<PieceV>, k: int)
    requires
        0 < k <= ps.len(),
    ensures
        spoken(ps.take(k)) == spoken(ps.take(k - 1)) + ps[k - 1].text,
{
    lemma_spoken_push(ps.take(k - 1), ps[k - 1]);
    assert(ps.take(k) =~= ps.take(k - 1).push(ps[k - 1]));
}

/// The row in focus is a bar on the active pane and on no other. Of the rest, the node that
/// the search is at stands out, and those that it has found; a row that is neither is in the
/// tones of its parts, the value in that of its kind.
pub proof fn law_how_rows_stand_out(v: PaneV, i: int, active: bool, frame: char)
    requires
        0 <= i < v.rows.len(),
        !v.rows[i].loading,
    ensures
        ({
            let r = v.rows[i];
            let ps = row_pieces(v, i, active, frame);
            let bar = active && i == v.focus;
            let at = v.search matches Some(s) && v.match_idx < s.matches.len() && absolute_match(
                v,
                s.matches[v.match_idx],
            ) == r.path;
            let found = v.match_set.contains(r.path);
            &&& ps[0].tone == Tone::Selected <==> bar
            &&& ps[0].tone == Tone::CurrentMatch <==> !bar && at
            &&& ps[0].tone == Tone::Match <==> !bar && !at && found
            &&& bar || at || found ==> ps.len() == 1
            &&& !bar && !at && !found ==> {
                &&& ps.len() == 7
                &&& ps[4].text == r.label
                &&& ps[4].tone == (if r.is_index {
                    Tone::Index
                } else {
                    Tone::Key
                })
                &&& ps[6].text == r.value
                &&& r.kind is Str ==> ps[6].tone == Tone::Str
                &&& r.kind is Number ==> ps[6].tone == Tone::Num
                &&& r.kind is Bool ==> ps[6].tone == Tone::Bool
                &&& r.kind is Null || r.kind.is_container() ==> ps[6].tone == Tone::Punct
            }
        }),
{
}

/// A pane shows as many rows as fit from the one scrolled to on, in their order.
pub proof fn law_rows_on_the_screen(v: PaneV, h: int, active: bool, frame: char)
    requires
        0 <= h,
        0 <= v.scroll <= v.rows.len(),
    ensures
        ({
            let shown = shown_rows(v, h, active, frame);
            &&& shown.len() <= h
            &&& shown.len() <= v.rows.len() - v.scroll
            &&& shown.len() == h || shown.len() == v.rows.len() - v.scroll
            &&& forall|k: int|
                0 <= k < shown.len() ==> #[trigger] shown[k] == row_pieces(
                    v,
                    v.scroll + k,
                    active,
                    frame,
                )
        }),
{
}

// ---------------------------------------------------------------------------
// Prompts and titles
// ---------------------------------------------------------------------------
/// A prompt says its sign, the whole line and its hint; the caret is on one character: the one
/// behind what stands in front of it, or a blank at the end of the line.
pub proof fn law_prompts_say_the_line(prefix: char, line: InputV, hint: Seq<char>)
    ensures
        ({
            let ps = prompt_pieces(prefix, line, hint);
            let end = if line.after.len() == 0 {
                seq![' ']
            } else {
                Seq::<char>::empty()
            };
            &&& ps.len() == 3
            &&& spoken(ps) == seq![' ', prefix] + whole(line) + end + seq![' ', ' ', ' '] + hint
            &&& ps[0].text == seq![' ', prefix] + line.before
            &&& ps[1].text.len() == 1
            &&& ps[0].tone == Tone::Prompt && ps[1].tone == Tone::Caret && ps[2].tone == Tone::Prompt
        }),
{
    let ps = prompt_pieces(prefix, line, hint);
    reveal_strlit("   ");
    let end = if line.after.len() == 0 {
        seq![' ']
    } else {
        Seq::<char>::empty()
    };
    assert(ps.skip(1).skip(1).skip(1) =~= Seq::empty());
    assert(spoken(ps.skip(1).skip(1).skip(1)) == Seq::<char>::empty());
    assert(ps.skip(1).skip(1)[0] == ps[2]);
    assert(ps.skip(1)[0] == ps[1]);
    assert(spoken(ps.skip(1).skip(1)) =~= ps[2].text);
    assert(spoken(ps.skip(1)) =~= ps[1].text + ps[2].text);
    assert(spoken(ps) =~= ps[0].text + ps[1].text + ps[2].text);
    assert(ps[0].text + ps[1].text + ps[2].text =~= seq![' ', prefix] + whole(line) + end + seq![
        ' ',
        ' ',
        ' ',
    ] + hint);
}

/// The footer is the prompt of the mode, over what it edits; in the modes without a prompt it
/// is the status line, where there is one.
pub proof fn law_the_footer_is_the_prompt(v: PaneV, flash: Option<Seq<char>>)
    ensures
        ({
            let ps = footer_pieces(v, flash);
            &&& v.mode == Mode::Search ==> ps[0].text == seq![' ', '/'] + v.query.before
            &&& v.mode == Mode::Goto ==> ps[0].text == seq![' ', ':'] + v.goto.before
            &&& v.mode == Mode::Filter ==> ps[0].text == seq![' ', '|'] + v.filter_query.before
            &&& ps.len() == 3 <==> v.mode == Mode::Search || v.mode == Mode::Goto || v.mode
                == Mode::Filter
            &&& ps.len() == 1 && flash is Some ==> ps[0].text == seq![' '] + flash->0
                && ps[0].tone == Tone::Status
        }),
{
    reveal_strlit(" ");
}

/// The search says the match it is at, counted from 1, and how many there are, with a plus
/// where more may come; before the first jump it says only how many.
pub proof fn law_the_search_says_where_it_is(v: PaneV)
    requires
        v.query_error is None,
        v.match_idx >= 0,
    ensures
        ({
            let n = match v.search {
                Some(s) => s.matches.len(),
                None => 0,
            };
            let more = if v.search is Some && !v.search->0.finished {
                seq!['+']
            } else {
                Seq::<char>::empty()
            };
            &&& v.landed && n > 0 ==> search_position(v) == decimal((v.match_idx + 1) as nat)
                + seq!['/'] + decimal(n) + more
            &&& !v.landed || n == 0 ==> search_position(v) == decimal(n) + more + " matches"@
        }),
{
    reveal_strlit("+");
    reveal_strlit("/");
    reveal_strlit("");
    assert(""@ =~= Seq::<char>::empty());
    assert("+"@ =~= seq!['+']);
    assert("/"@ =~= seq!['/']);
}

/// The rows that count in a title are those that stand for nodes: all of them but the ones
/// that wait for more.
pub proof fn law_rows_that_count(v: PaneV, n: int)
    requires
        0 <= n <= v.rows.len(),
    ensures
        0 <= real_rows(v.rows, n) <= n,
        (forall|i: int| 0 <= i < n ==> !(#[trigger] v.rows[i]).loading) ==> real_rows(v.rows, n)
            == n,
        (forall|i: int| 0 <= i < n ==> (#[trigger] v.rows[i]).loading) ==> real_rows(v.rows, n)
            == 0,
        n > 0 ==> real_rows(v.rows, n) - real_rows(v.rows, n - 1) == (if v.rows[n - 1].loading {
            0int
        } else {
            1
        }),
    decreases n,
{
    if n > 0 {
        law_rows_that_count(v, n - 1);
    }
}

/// A title says the pane's name, and then the row in focus, counted from 1, and how many rows
/// there are so far. What a filter has selected and that bytes still arrive is said behind
/// that, and only where it is so.
pub proof fn law_titles(v: PaneV, streaming: bool)
    requires
        v.rows.len() > 0,
        0 <= v.focus < v.rows.len(),
        forall|i: int| 0 <= i < v.rows.len() ==> !(#[trigger] v.rows[i]).loading,
    ensures
        ({
            let marker = if v.derived {
                " ↳ "@
            } else {
                " "@
            };
            let place = marker + v.name + "   "@ + decimal((v.focus + 1) as nat) + "/"@ + decimal(
                v.rows.len(),
            ) + "+"@;
            let text = title_text(v, streaming);
            &&& text.len() >= place.len()
            &&& text.take(place.len() as int) == place
            &&& v.filter is None && !streaming ==> text == place
            &&& v.filter is None && streaming ==> text == place + "   ⟳ streaming"@
            &&& v.filter matches Some(f) ==> f.finished && !streaming ==> text == place + "   "@
                + decimal(f.hits.len()) + " hits"@
        }),
{
    let n = v.rows.len() as int;
    law_rows_that_count(v, n);
    reveal_strlit("");
    let marker = if v.derived {
        " ↳ "@
    } else {
        " "@
    };
    let place = marker + v.name + "   "@ + decimal((v.focus + 1) as nat) + "/"@ + decimal(
        v.rows.len(),
    ) + "+"@;
    let text = title_text(v, streaming);
    let at = marker + v.name + ("   "@ + decimal((v.focus + 1) as nat) + "/"@) + (decimal(
        v.rows.len(),
    ) + "+"@);
    assert(at =~= place);
    assert(text.take(place.len() as int) =~= place);
    if v.filter is None {
        assert(text =~= place + if streaming {
            "   ⟳ streaming"@
        } else {
            ""@
        });
        if !streaming {
            assert(text =~= place);
        }
    }
    if let Some(f) = v.filter {
        if f.finished && !streaming {
            assert(text =~= place + "   "@ + decimal(f.hits.len()) + " hits"@);
        }
    }
}

} // verus!
