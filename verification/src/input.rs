//! The single-line text editor behind the `/`, `:`, and `|` prompts.
//!
//! [`TextInput`] tracks the typed text plus a caret so the prompts support real
//! in-place editing (arrow keys, Home/End, delete-forward, word/line kill). It's
//! a plain model: [`TextInput::edit`] folds one key into the buffer and reports
//! whether the text changed; the caller owns focus, submit, and cancel.

use crate::text::{chars_of, lemma_trimmed_again, string_of, texts, trim, trimmed};
use vstd::prelude::*;
use vstd::utf8::*;

verus! {

/// A key, as far as the viewer tells keys apart.
#[derive(Clone, Copy, PartialEq, Eq, Debug, Structural)]
pub enum KeyCode {
    Char(char),
    Enter,
    Esc,
    Tab,
    BackTab,
    Backspace,
    Delete,
    Left,
    Right,
    Up,
    Down,
    Home,
    End,
    PageUp,
    PageDown,
    /// Any other key.
    Other,
}

/// A single-line editable text field: the model behind the `/`, `:`, and `|`
/// prompts.
pub struct TextInput {
    pub text: String,
    /// Caret as a byte offset into `text`, always on a char boundary and in
    /// `0..=text.len()`; equal to `text.len()` at the end of the line.
    pub caret: usize,
}

/// A line as the contracts speak of it: what stands before the caret and what
/// stands behind it.
pub struct InputV {
    pub before: Seq<char>,
    pub after: Seq<char>,
}

/// Whether `caret` is the byte offset of the character with number `k`.
pub open spec fn at_offset(text: Seq<char>, k: int, caret: int) -> bool {
    0 <= k <= text.len() && encode_utf8(text.take(k)).len() == caret
}

pub proof fn lemma_encode_push(s: Seq<char>, c: char)
    ensures
        encode_utf8(s.push(c)) == encode_utf8(s) + encode_scalar(c as u32),
        encode_scalar(c as u32).len() >= 1,
    decreases s.len(),
{
    char_is_scalar(c);
    reveal_with_fuel(encode_utf8, 2);
    if s.len() == 0 {
        assert(s.push(c).drop_first() =~= Seq::empty());
        assert(encode_utf8(s.push(c)) =~= encode_utf8(s) + encode_scalar(c as u32));
    } else {
        assert(s.push(c).drop_first() =~= s.drop_first().push(c));
        lemma_encode_push(s.drop_first(), c);
        assert(encode_utf8(s.push(c)) =~= encode_utf8(s) + encode_scalar(c as u32));
    }
}

/// A longer beginning has more bytes.
pub proof fn lemma_offsets_grow(text: Seq<char>, j: int, k: int)
    requires
        0 <= j < k <= text.len(),
    ensures
        encode_utf8(text.take(j)).len() < encode_utf8(text.take(k)).len(),
    decreases k - j,
{
    assert(text.take(k) =~= text.take(k - 1).push(text[k - 1]));
    lemma_encode_push(text.take(k - 1), text[k - 1]);
    if j < k - 1 {
        lemma_offsets_grow(text, j, k - 1);
    }
}

impl TextInput {
    /// The number of the character that the caret stands in front of.
    pub open spec fn pos(&self) -> int {
        choose|k: int| at_offset(self.text@, k, self.caret as int)
    }

    /// The caret is on a character boundary.
    pub open spec fn wf(&self) -> bool {
        exists|k: int| at_offset(self.text@, k, self.caret as int)
    }
}

impl View for TextInput {
    type V = InputV;

    open spec fn view(&self) -> InputV {
        InputV { before: self.text@.take(self.pos()), after: self.text@.skip(self.pos()) }
    }
}

pub open spec fn spaces_cut(s: Seq<char>) -> Seq<char>
    decreases s.len(),
{
    if s.len() > 0 && s.last() == ' ' {
        spaces_cut(s.drop_last())
    } else {
        s
    }
}

pub open spec fn word_cut(s: Seq<char>) -> Seq<char>
    decreases s.len(),
{
    if s.len() > 0 && s.last() != ' ' {
        word_cut(s.drop_last())
    } else {
        s
    }
}

/// What a key asks of the line.
pub enum EditV {
    Insert(char),
    Backspace,
    Delete,
    Left,
    Right,
    Home,
    End,
    /// Delete the spaces before the caret and the run of non-spaces before them.
    DeleteWord,
    ClearToStart,
    KillToEnd,
}

/// The editing key that a key is, if it is one.
pub open spec fn edit_of(code: KeyCode, ctrl: bool) -> Option<EditV> {
    match code {
        KeyCode::Char(c) => if !ctrl {
            Some(EditV::Insert(c))
        } else if c == 'a' {
            Some(EditV::Home)
        } else if c == 'e' {
            Some(EditV::End)
        } else if c == 'b' {
            Some(EditV::Left)
        } else if c == 'f' {
            Some(EditV::Right)
        } else if c == 'h' {
            Some(EditV::Backspace)
        } else if c == 'd' {
            Some(EditV::Delete)
        } else if c == 'w' {
            Some(EditV::DeleteWord)
        } else if c == 'u' {
            Some(EditV::ClearToStart)
        } else if c == 'k' {
            Some(EditV::KillToEnd)
        } else {
            None
        },
        KeyCode::Backspace => Some(EditV::Backspace),
        KeyCode::Delete => Some(EditV::Delete),
        KeyCode::Left => Some(EditV::Left),
        KeyCode::Right => Some(EditV::Right),
        KeyCode::Home => Some(EditV::Home),
        KeyCode::End => Some(EditV::End),
        _ => None,
    }
}

/// The line after one edit.
pub open spec fn edited(l: InputV, e: EditV) -> InputV {
    let start = l.before.len() == 0;
    let end = l.after.len() == 0;
    match e {
        EditV::Insert(c) => InputV { before: l.before.push(c), ..l },
        EditV::Backspace => if start {
            l
        } else {
            InputV { before: l.before.drop_last(), ..l }
        },
        EditV::Delete => if end {
            l
        } else {
            InputV { after: l.after.skip(1), ..l }
        },
        EditV::Left => if start {
            l
        } else {
            InputV { before: l.before.drop_last(), after: seq![l.before.last()] + l.after }
        },
        EditV::Right => if end {
            l
        } else {
            InputV { before: l.before.push(l.after[0]), after: l.after.skip(1) }
        },
        EditV::Home => InputV { before: Seq::empty(), after: l.before + l.after },
        EditV::End => InputV { before: l.before + l.after, after: Seq::empty() },
        EditV::DeleteWord => InputV { before: word_cut(spaces_cut(l.before)), ..l },
        EditV::ClearToStart => InputV { before: Seq::empty(), ..l },
        EditV::KillToEnd => InputV { after: Seq::empty(), ..l },
    }
}

/// The line after a key, where the key edits it.
#[verifier::opaque]
pub open spec fn after_key(l: InputV, code: KeyCode, ctrl: bool) -> InputV {
    match edit_of(code, ctrl) {
        Some(e) => edited(l, e),
        None => l,
    }
}

/// The text of a line.
pub open spec fn whole(l: InputV) -> Seq<char> {
    l.before + l.after
}

impl TextInput {
    /// The characters of the line, and the number of the one behind the caret.
    pub fn split(&self) -> (r: (Vec<char>, usize))
        requires
            self.wf(),
        ensures
            r.0@ == self.text@,
            r.1 == self.pos(),
            r.1 <= r.0@.len(),
            self@.before == r.0@.take(r.1 as int),
            self@.after == r.0@.skip(r.1 as int),
    {
        let cs = chars_of(self.text.as_str());
        let ghost p = self.pos();
        let mut prefix = String::new();
        let mut k: usize = 0;
        assert(cs@.take(0) =~= Seq::empty());
        while k < cs.len() && prefix.as_str().as_bytes().len() < self.caret
            invariant
                cs@ == self.text@,
                k <= p <= cs@.len(),
                p == self.pos(),
                at_offset(self.text@, p, self.caret as int),
                prefix@ == cs@.take(k as int),
            decreases cs@.len() - k,
        {
            proof {
                assert(cs@.take(k + 1) =~= cs@.take(k as int).push(cs@[k as int]));
                if k == p {
                    assert(false);
                }
            }
            prefix.push(cs[k]);
            k += 1;
        }
        proof {
            if k < p {
                lemma_offsets_grow(self.text@, k as int, p);
            }
        }
        (cs, k)
    }

    /// The line made of `cs`, with the caret in front of number `k`.
    fn assemble(cs: &[char], k: usize) -> (r: TextInput)
        requires
            k <= cs@.len(),
        ensures
            r.wf(),
            r.text@ == cs@,
            r@ == (InputV { before: cs@.take(k as int), after: cs@.skip(k as int) }),
    {
        let mut text = string_of(cs, 0, k);
        let caret: usize = text.as_str().as_bytes().len();
        let tail = string_of(cs, k, cs.len());
        text.push_str(tail.as_str());
        let r = TextInput { text, caret };
        proof {
            assert(cs@.subrange(0, k as int) =~= cs@.take(k as int));
            assert(r.text@ =~= cs@);
            assert(at_offset(r.text@, k as int, caret as int));
            let p = r.pos();
            assert(at_offset(r.text@, p, caret as int));
            if p < k {
                lemma_offsets_grow(r.text@, p, k as int);
            } else if p > k {
                lemma_offsets_grow(r.text@, k as int, p);
            }
        }
        r
    }

    pub fn as_str(&self) -> (r: &str)
        ensures
            r@ == self.text@,
            self.wf() ==> r@ == whole(self@),
    {
        assert(self.wf() ==> whole(self@) =~= self.text@);
        self.text.as_str()
    }

    pub fn is_empty(&self) -> (r: bool)
        ensures
            r == (self.text@.len() == 0),
    {
        self.text.as_str().unicode_len() == 0
    }

    pub fn clear(&mut self)
        ensures
            final(self).wf(),
            final(self)@ == (InputV { before: Seq::empty(), after: Seq::empty() }),
    {
        let none: Vec<char> = Vec::new();
        *self = TextInput::assemble(none.as_slice(), 0);
        assert(self@.before =~= Seq::empty() && self@.after =~= Seq::empty());
    }

    /// Replace the whole line and park the caret at its end: used when a recalled
    /// [`History`] entry is loaded into the prompt.
    pub fn set(&mut self, s: String)
        ensures
            final(self).wf(),
            final(self)@ == (InputV { before: s@, after: Seq::empty() }),
    {
        let cs = chars_of(s.as_str());
        *self = TextInput::assemble(cs.as_slice(), cs.len());
        assert(self@.before =~= s@ && self@.after =~= Seq::empty());
    }

    /// Delete the characters from number `from` up to number `to`, and leave the
    /// caret there.
    fn cut(&mut self, cs: &Vec<char>, from: usize, to: usize)
        requires
            from <= to <= cs@.len(),
        ensures
            final(self).wf(),
            final(self)@ == (InputV {
                before: cs@.take(from as int),
                after: cs@.skip(to as int),
            }),
    {
        let mut out: Vec<char> = Vec::new();
        let mut i: usize = 0;
        while i < cs.len()
            invariant
                from <= to <= cs@.len(),
                i <= cs@.len(),
                i <= from ==> out@ == cs@.take(i as int),
                from <= i <= to ==> out@ == cs@.take(from as int),
                to <= i ==> out@ == cs@.take(from as int) + cs@.subrange(to as int, i as int),
            decreases cs@.len() - i,
        {
            let ghost before = out@;
            if i < from || i >= to {
                out.push(cs[i]);
            }
            i += 1;
            proof {
                if i <= from {
                    assert(out@ =~= cs@.take(i as int));
                }
                if to <= i {
                    assert(out@ =~= cs@.take(from as int) + cs@.subrange(to as int, i as int));
                }
            }
        }
        *self = TextInput::assemble(out.as_slice(), from);
        assert(self@.before =~= cs@.take(from as int));
        assert(self@.after =~= cs@.skip(to as int));
    }

    /// Put the caret in front of number `k`; the text is untouched.
    fn go(&mut self, cs: &Vec<char>, k: usize) -> (r: Option<bool>)
        requires
            k <= cs@.len(),
        ensures
            final(self).wf(),
            final(self)@ == (InputV { before: cs@.take(k as int), after: cs@.skip(k as int) }),
            r == Some(false),
    {
        *self = TextInput::assemble(cs.as_slice(), k);
        Some(false)
    }

    fn go_left(&mut self, cs: &Vec<char>, k: usize) -> (r: Option<bool>)
        requires
            k <= cs@.len(),
        ensures
            final(self).wf(),
            final(self)@ == edited(
                InputV { before: cs@.take(k as int), after: cs@.skip(k as int) },
                EditV::Left,
            ),
            r == Some(false),
    {
        let to: usize = if k > 0 {
            k - 1
        } else {
            0
        };
        proof {
            if k > 0 {
                assert(cs@.take(k - 1) =~= cs@.take(k as int).drop_last());
                assert(cs@.skip(k - 1) =~= seq![cs@.take(k as int).last()] + cs@.skip(k as int));
            }
        }
        self.go(cs, to)
    }

    fn go_right(&mut self, cs: &Vec<char>, k: usize) -> (r: Option<bool>)
        requires
            k <= cs@.len(),
        ensures
            final(self).wf(),
            final(self)@ == edited(
                InputV { before: cs@.take(k as int), after: cs@.skip(k as int) },
                EditV::Right,
            ),
            r == Some(false),
    {
        let to: usize = if k < cs.len() {
            k + 1
        } else {
            k
        };
        proof {
            if k < cs@.len() {
                assert(cs@.take(k + 1) =~= cs@.take(k as int).push(cs@.skip(k as int)[0]));
                assert(cs@.skip(k + 1) =~= cs@.skip(k as int).skip(1));
            }
        }
        self.go(cs, to)
    }

    /// Delete the character before the caret (Backspace); no-op at the start.
    fn delete_back(&mut self, cs: &Vec<char>, k: usize) -> (r: Option<bool>)
        requires
            k <= cs@.len(),
        ensures
            final(self).wf(),
            final(self)@ == edited(
                InputV { before: cs@.take(k as int), after: cs@.skip(k as int) },
                EditV::Backspace,
            ),
            r == Some(k > 0),
    {
        let from: usize = if k > 0 {
            k - 1
        } else {
            0
        };
        self.cut(cs, from, k);
        proof {
            if k > 0 {
                assert(cs@.take(k - 1) =~= cs@.take(k as int).drop_last());
            }
        }
        Some(k > 0)
    }

    /// Delete the character at the caret (Delete); no-op at the end.
    fn delete_forward(&mut self, cs: &Vec<char>, k: usize) -> (r: Option<bool>)
        requires
            k <= cs@.len(),
        ensures
            final(self).wf(),
            final(self)@ == edited(
                InputV { before: cs@.take(k as int), after: cs@.skip(k as int) },
                EditV::Delete,
            ),
            r == Some(k < cs@.len()),
    {
        let to: usize = if k < cs.len() {
            k + 1
        } else {
            k
        };
        self.cut(cs, k, to);
        proof {
            if k < cs@.len() {
                assert(cs@.skip(k + 1) =~= cs@.skip(k as int).skip(1));
            }
        }
        Some(k < cs.len())
    }

    /// The start of the word before number `k`.
    fn word_start(cs: &Vec<char>, k: usize) -> (r: usize)
        requires
            k <= cs@.len(),
        ensures
            r <= k,
            cs@.take(r as int) == word_cut(spaces_cut(cs@.take(k as int))),
    {
        let ghost all = cs@.take(k as int);
        let mut i: usize = k;
        while i > 0 && cs[i - 1] == ' '
            invariant
                i <= k <= cs@.len(),
                spaces_cut(cs@.take(i as int)) == spaces_cut(all),
            decreases i,
        {
            assert(cs@.take(i as int).drop_last() =~= cs@.take(i - 1));
            i -= 1;
        }
        let ghost head = spaces_cut(all);
        assert(cs@.take(i as int) == head);
        while i > 0 && cs[i - 1] != ' '
            invariant
                i <= k <= cs@.len(),
                word_cut(cs@.take(i as int)) == word_cut(head),
            decreases i,
        {
            assert(cs@.take(i as int).drop_last() =~= cs@.take(i - 1));
            i -= 1;
        }
        i
    }

    /// Apply one line-editing key. Returns `Some(changed)` when `code` is an
    /// editing/navigation key (`changed` = whether the text was modified; caret
    /// moves count as handled-but-unchanged), or `None` when the key isn't ours
    /// (Enter/Esc/Up/Down: the caller decides those).
    pub fn edit(&mut self, code: KeyCode, ctrl: bool) -> (r: Option<bool>)
        requires
            old(self).wf(),
        ensures
            final(self).wf(),
            final(self)@ == after_key(old(self)@, code, ctrl),
            r is Some == edit_of(code, ctrl) is Some,
            match edit_of(code, ctrl) {
                None => r is None && final(self)@ == old(self)@,
                Some(e) => {
                    &&& final(self)@ == edited(old(self)@, e)
                    &&& r == Some(
                        whole(edited(old(self)@, e)).len() != whole(old(self)@).len(),
                    )
                },
            },
    {
        let (cs, k) = self.split();
        let n: usize = cs.len();
        let ghost l = self@;
        proof {
            reveal(after_key);
            assert(whole(l) =~= cs@);
            assert(cs@.take(0) =~= Seq::empty() && cs@.skip(0) =~= cs@);
            assert(cs@.take(n as int) =~= cs@ && cs@.skip(n as int) =~= Seq::empty());
        }
        match code {
            KeyCode::Char(c) => {
                if !ctrl {
                    let mut out = cs;
                    out.insert(k, c);
                    let behind: usize = out.len() - (n - k);
                    *self = TextInput::assemble(out.as_slice(), behind);
                    assert(self@.before =~= l.before.push(c));
                    assert(self@.after =~= l.after);
                    return Some(true);
                }
                match c {
                    'a' => self.go(&cs, 0),
                    'e' => self.go(&cs, n),
                    'b' => self.go_left(&cs, k),
                    'f' => self.go_right(&cs, k),
                    'h' => self.delete_back(&cs, k),
                    'd' => self.delete_forward(&cs, k),
                    'w' => {
                        let from: usize = TextInput::word_start(&cs, k);
                        self.cut(&cs, from, k);
                        Some(from < k)
                    },
                    'u' => {
                        self.cut(&cs, 0, k);
                        assert(self@.before =~= Seq::empty());
                        Some(k > 0)
                    },
                    'k' => {
                        self.cut(&cs, k, n);
                        assert(self@.after =~= Seq::empty());
                        Some(k < n)
                    },
                    _ => None,
                }
            },
            KeyCode::Backspace => self.delete_back(&cs, k),
            KeyCode::Delete => self.delete_forward(&cs, k),
            KeyCode::Left => self.go_left(&cs, k),
            KeyCode::Right => self.go_right(&cs, k),
            KeyCode::Home => self.go(&cs, 0),
            KeyCode::End => self.go(&cs, n),
            _ => None,
        }
    }
}

impl Default for TextInput {
    fn default() -> (r: TextInput)
        ensures
            r.wf(),
            r@ == (InputV { before: Seq::empty(), after: Seq::empty() }),
    {
        let none: Vec<char> = Vec::new();
        let r = TextInput::assemble(none.as_slice(), 0);
        assert(r@.before =~= Seq::empty() && r@.after =~= Seq::empty());
        r
    }
}

// ---------------------------------------------------------------------------
// History
// ---------------------------------------------------------------------------
/// A session-scoped ring of submitted prompt entries (`:` paths, `|` filters)
/// with an up/down browse cursor, so a long path or filter can be recalled and
/// tweaked instead of retyped. Newest entries sit last; blank lines and an
/// immediate repeat of the newest entry are dropped, and the ring is capped so a
/// long session can't grow it without bound.
pub struct History {
    entries: Vec<String>,
    /// Browse position while arrowing: `Some(i)` sits on `entries[i]`; `None`
    /// means "not browsing", parked on the fresh line the user was typing.
    cursor: Option<usize>,
    /// The half-typed line stashed when browsing begins, restored when the user
    /// arrows back down past the newest entry.
    draft: String,
}

/// A history as the contracts speak of it.
pub struct HistoryV {
    pub entries: Seq<Seq<char>>,
    pub cursor: Option<int>,
    pub draft: Seq<char>,
}

impl View for History {
    type V = HistoryV;

    closed spec fn view(&self) -> HistoryV {
        HistoryV {
            entries: texts(self.entries@),
            cursor: match self.cursor {
                Some(i) => Some(i as int),
                None => None,
            },
            draft: self.draft@,
        }
    }
}

/// The history after an entry was submitted.
pub open spec fn recorded(h: HistoryV, entry: Seq<char>) -> HistoryV {
    let e = trimmed(entry);
    if e.len() == 0 || h.entries.len() > 0 && h.entries.last() == e {
        HistoryV { cursor: None, ..h }
    } else if h.entries.len() < History::CAP {
        HistoryV { cursor: None, entries: h.entries.push(e), ..h }
    } else {
        HistoryV { cursor: None, entries: h.entries.push(e).skip(1), ..h }
    }
}

/// The history one step back from the line `current`.
pub open spec fn stepped_back(h: HistoryV, current: Seq<char>) -> HistoryV {
    match h.cursor {
        None => if h.entries.len() == 0 {
            h
        } else {
            HistoryV { cursor: Some(h.entries.len() - 1), draft: current, ..h }
        },
        Some(i) => if i == 0 {
            h
        } else {
            HistoryV { cursor: Some(i - 1), ..h }
        },
    }
}

/// The line that a step back brings up, if there is an older one.
pub open spec fn older_line(h: HistoryV) -> Option<Seq<char>> {
    match h.cursor {
        None => if h.entries.len() == 0 {
            None
        } else {
            Some(h.entries.last())
        },
        Some(i) => if i == 0 {
            None
        } else {
            Some(h.entries[i - 1])
        },
    }
}

/// The history one step forward.
pub open spec fn stepped_forward(h: HistoryV) -> HistoryV {
    match h.cursor {
        None => h,
        Some(i) => if i + 1 < h.entries.len() {
            HistoryV { cursor: Some(i + 1), ..h }
        } else {
            HistoryV { cursor: None, draft: Seq::empty(), ..h }
        },
    }
}

/// The line that a step forward brings up, where one is browsing: a newer entry,
/// or the draft behind the newest.
pub open spec fn newer_line(h: HistoryV) -> Option<Seq<char>> {
    match h.cursor {
        None => None,
        Some(i) => if i + 1 < h.entries.len() {
            Some(h.entries[i + 1])
        } else {
            Some(h.draft)
        },
    }
}

/// Whether the entries are lines that a history keeps: none blank or with space around
/// it, and none the repeat of the one before.
pub open spec fn entries_ok(entries: Seq<Seq<char>>) -> bool {
    &&& forall|i: int|
        0 <= i < entries.len() ==> (#[trigger] entries[i]).len() > 0 && trimmed(entries[i])
            == entries[i]
    &&& forall|i: int, j: int|
        0 <= i < entries.len() && j == i + 1 && j < entries.len() ==> #[trigger] entries[i]
            != #[trigger] entries[j]
}

pub open spec fn history_wf(h: HistoryV) -> bool {
    &&& h.entries.len() <= History::CAP
    &&& entries_ok(h.entries)
    &&& h.cursor matches Some(i) ==> 0 <= i < h.entries.len()
}

impl History {
    pub const CAP: usize = 200;

    pub open spec fn wf(&self) -> bool {
        history_wf(self@)
    }

    /// Record a just-submitted entry and leave browsing. Blank lines and an
    /// immediate repeat of the newest entry are ignored.
    pub fn record(&mut self, entry: &str)
        requires
            old(self).wf(),
        ensures
            final(self).wf(),
            final(self)@ == recorded(old(self)@, entry@),
    {
        let ghost h = self@;
        proof {
            law_history_keeps_no_blank_and_no_repeat(h, entry@);
        }
        self.cursor = None;
        let e = trim(entry);
        let n: usize = self.entries.len();
        if e.as_str().unicode_len() == 0 || (n > 0 && self.entries[n - 1] == e) {
            assert(n > 0 ==> h.entries.last() == self.entries@[n - 1]@);
            return;
        }
        assert(n > 0 ==> h.entries.last() == self.entries@[n - 1]@);
        let ghost v = e@;
        self.entries.push(e);
        assert(texts(self.entries@) =~= h.entries.push(v));
        if self.entries.len() > History::CAP {
            self.entries.remove(0);
            assert(texts(self.entries@) =~= h.entries.push(v).skip(1));
        }
    }

    /// Leave browsing: call when the prompt (re)opens so the next `↑` starts from
    /// the newest entry again rather than mid-ring.
    pub fn reset(&mut self)
        requires
            old(self).wf(),
        ensures
            final(self).wf(),
            final(self)@ == (HistoryV { cursor: None, ..old(self)@ }),
    {
        self.cursor = None;
    }

    /// Step to the previous (older) entry, stashing `current` as the draft on the
    /// first step. Returns the text to load, or `None` at the oldest entry (or an
    /// empty ring) so the caller leaves the line untouched.
    pub fn prev(&mut self, current: &str) -> (r: Option<String>)
        requires
            old(self).wf(),
        ensures
            final(self).wf(),
            final(self)@ == stepped_back(old(self)@, current@),
            match older_line(old(self)@) {
                Some(s) => r matches Some(x) && x@ == s,
                None => r is None,
            },
    {
        if self.entries.len() == 0 {
            return None;
        }
        let i: usize = match self.cursor {
            None => {
                self.draft = current.to_owned();
                self.entries.len() - 1
            },
            Some(i) => {
                if i == 0 {
                    return None;
                }
                i - 1
            },
        };
        self.cursor = Some(i);
        Some(self.entries[i].clone())
    }

    /// Step to the next (newer) entry. Past the newest, restore the stashed draft
    /// and stop browsing. `None` when not currently browsing.
    pub fn next(&mut self) -> (r: Option<String>)
        requires
            old(self).wf(),
        ensures
            final(self).wf(),
            final(self)@ == stepped_forward(old(self)@),
            match newer_line(old(self)@) {
                Some(s) => r matches Some(x) && x@ == s,
                None => r is None,
            },
    {
        match self.cursor {
            None => None,
            Some(i) => {
                if i + 1 < self.entries.len() {
                    self.cursor = Some(i + 1);
                    Some(self.entries[i + 1].clone())
                } else {
                    self.cursor = None;
                    let d = self.draft.clone();
                    self.draft = String::new();
                    assert(self@.draft =~= Seq::empty());
                    Some(d)
                }
            },
        }
    }
}

impl Default for History {
    fn default() -> (r: History)
        ensures
            r.wf(),
            r@ == (HistoryV { entries: Seq::empty(), cursor: None, draft: Seq::empty() }),
    {
        let r = History { entries: Vec::new(), cursor: None, draft: String::new() };
        assert(r@.entries =~= Seq::empty() && r@.draft =~= Seq::empty());
        r
    }
}

// ---------------------------------------------------------------------------
// Laws
// ---------------------------------------------------------------------------
/// `n` steps back from the line `current`.
pub open spec fn back(h: HistoryV, current: Seq<char>, n: nat) -> HistoryV
    decreases n,
{
    if n == 0 {
        h
    } else {
        stepped_back(back(h, current, (n - 1) as nat), current)
    }
}

/// `n` steps forward.
pub open spec fn forward(h: HistoryV, n: nat) -> HistoryV
    decreases n,
{
    if n == 0 {
        h
    } else {
        stepped_forward(forward(h, (n - 1) as nat))
    }
}

proof fn lemma_back(h: HistoryV, current: Seq<char>, n: nat)
    requires
        history_wf(h),
        h.cursor is None,
        0 < n <= h.entries.len(),
    ensures
        back(h, current, n) == (HistoryV {
            cursor: Some(h.entries.len() - n),
            draft: current,
            ..h
        }),
    decreases n,
{
    reveal_with_fuel(back, 2);
    if n > 1 {
        lemma_back(h, current, (n - 1) as nat);
    }
}

proof fn lemma_forward(h: HistoryV, n: nat)
    requires
        h.cursor matches Some(i) && 0 <= i && i + n < h.entries.len(),
    ensures
        forward(h, n) == (HistoryV { cursor: Some(h.cursor->0 + n), ..h }),
    decreases n,
{
    if n > 0 {
        lemma_forward(h, (n - 1) as nat);
    }
}

/// Browsing `n` entries up and as many down brings the half-typed line back and
/// ends the browsing, with the entries as they were.
pub proof fn law_up_then_down_restores_draft(h: HistoryV, draft: Seq<char>, n: nat)
    requires
        history_wf(h),
        h.cursor is None,
        0 < n <= h.entries.len(),
    ensures
        newer_line(forward(back(h, draft, n), (n - 1) as nat)) == Some(draft),
        forward(back(h, draft, n), n) == (HistoryV { draft: Seq::empty(), ..h }),
{
    lemma_back(h, draft, n);
    lemma_forward(back(h, draft, n), (n - 1) as nat);
}

/// Whatever is submitted, no entry of a history is blank or has space around it, and none
/// is the repeat of the one before.
pub proof fn law_history_keeps_no_blank_and_no_repeat(h: HistoryV, entry: Seq<char>)
    requires
        history_wf(h),
    ensures
        history_wf(recorded(h, entry)),
{
    lemma_trimmed_again(entry);
    let e = trimmed(entry);
    let r = recorded(h, entry).entries;
    let all = h.entries.push(e);
    if r == all.skip(1) {
        assert forall|i: int| 0 <= i < r.len() implies (#[trigger] r[i]).len() > 0 && trimmed(r[i])
            == r[i] by {
            assert(r[i] == all[i + 1]);
        }
        assert forall|i: int, j: int|
            0 <= i < r.len() && j == i + 1 && j < r.len() implies #[trigger] r[i]
            != #[trigger] r[j] by {
            assert(r[i] == all[i + 1] && r[j] == all[j + 1]);
        }
    }
}

/// A blank line, or a repeat of the newest entry, is not recorded; anything else
/// is the newest entry afterwards.
pub proof fn law_record(h: HistoryV, entry: Seq<char>)
    requires
        history_wf(h),
    ensures
        trimmed(entry).len() == 0 ==> recorded(h, entry).entries == h.entries,
        trimmed(entry).len() > 0 ==> recorded(h, entry).entries.len() > 0 && recorded(
            h,
            entry,
        ).entries.last() == trimmed(entry),
        recorded(recorded(h, entry), entry).entries == recorded(h, entry).entries,
        recorded(h, entry).entries.len() <= History::CAP,
{
}

/// Moving the caret never changes the text; only the other edits do.
pub proof fn law_moves_keep_text(l: InputV, e: EditV)
    requires
        e is Left || e is Right || e is Home || e is End,
    ensures
        whole(edited(l, e)) == whole(l),
{
    assert(whole(edited(l, e)) =~= whole(l));
}

/// Backspace takes back what was typed.
pub proof fn law_backspace_undoes_insert(l: InputV, c: char)
    ensures
        edited(edited(l, EditV::Insert(c)), EditV::Backspace) == l,
{
    assert(l.before.push(c).drop_last() =~= l.before);
}

/// One step left and one step right come back to where the caret was.
pub proof fn law_left_then_right(l: InputV)
    requires
        l.before.len() > 0,
    ensures
        edited(edited(l, EditV::Left), EditV::Right) == l,
{
    let m = edited(l, EditV::Left);
    assert(m.before.push(m.after[0]) =~= l.before);
    assert(m.after.skip(1) =~= l.after);
}

/// Where the moves put the caret: one character to the left or to the right as far as there
/// is one, in front of the text, and behind it.
pub proof fn law_where_the_caret_goes(l: InputV)
    ensures
        edited(l, EditV::Left).before == (if l.before.len() > 0 {
            l.before.take(l.before.len() - 1)
        } else {
            l.before
        }),
        edited(l, EditV::Right).after == (if l.after.len() > 0 {
            l.after.skip(1)
        } else {
            l.after
        }),
        edited(l, EditV::Home).before.len() == 0,
        edited(l, EditV::End).after.len() == 0,
{
    if l.before.len() > 0 {
        assert(l.before.drop_last() =~= l.before.take(l.before.len() - 1));
    }
}

/// Whether `r` is what is left of `s` without its last word: behind it come characters that
/// are no spaces, up to a space before them, and then spaces.
pub open spec fn without_last_word(s: Seq<char>, r: Seq<char>) -> bool {
    exists|k: int| #[trigger] cut_at(s, r, k)
}

pub open spec fn cut_at(s: Seq<char>, r: Seq<char>, k: int) -> bool {
    &&& r.len() <= k <= s.len()
    &&& r == s.take(r.len() as int)
    &&& r.len() > 0 ==> r.last() == ' '
    &&& forall|i: int| r.len() <= i < k ==> (#[trigger] s[i]) != ' '
    &&& forall|i: int| k <= i < s.len() ==> (#[trigger] s[i]) == ' '
    &&& k > 0 ==> s[k - 1] != ' '
}

proof fn lemma_spaces_cut(s: Seq<char>)
    ensures
        spaces_cut(s).len() <= s.len(),
        spaces_cut(s) == s.take(spaces_cut(s).len() as int),
        spaces_cut(s).len() > 0 ==> spaces_cut(s).last() != ' ',
        forall|i: int| spaces_cut(s).len() <= i < s.len() ==> (#[trigger] s[i]) == ' ',
    decreases s.len(),
{
    if s.len() > 0 && s.last() == ' ' {
        let d = s.drop_last();
        lemma_spaces_cut(d);
        assert(d.take(spaces_cut(d).len() as int) =~= s.take(spaces_cut(d).len() as int));
        assert forall|i: int| spaces_cut(s).len() <= i < s.len() implies (#[trigger] s[i])
            == ' ' by {
            if i < d.len() {
                assert(d[i] == s[i]);
            }
        }
    } else {
        assert(s.take(s.len() as int) =~= s);
    }
}

proof fn lemma_word_cut(s: Seq<char>)
    ensures
        word_cut(s).len() <= s.len(),
        word_cut(s) == s.take(word_cut(s).len() as int),
        word_cut(s).len() > 0 ==> word_cut(s).last() == ' ',
        forall|i: int| word_cut(s).len() <= i < s.len() ==> (#[trigger] s[i]) != ' ',
    decreases s.len(),
{
    if s.len() > 0 && s.last() != ' ' {
        let d = s.drop_last();
        lemma_word_cut(d);
        assert(d.take(word_cut(d).len() as int) =~= s.take(word_cut(d).len() as int));
        assert forall|i: int| word_cut(s).len() <= i < s.len() implies (#[trigger] s[i])
            != ' ' by {
            if i < d.len() {
                assert(d[i] == s[i]);
            }
        }
    } else {
        assert(s.take(s.len() as int) =~= s);
    }
}

/// What the deleting edits take away: the character behind the caret, the word before it,
/// everything before it, everything behind it, and nothing else.
pub proof fn law_what_is_deleted(l: InputV)
    ensures
        l.after.len() > 0 ==> edited(l, EditV::Delete) == edited(
            edited(l, EditV::Right),
            EditV::Backspace,
        ),
        l.after.len() == 0 ==> edited(l, EditV::Delete) == l,
        l.before.len() == 0 ==> edited(l, EditV::Backspace) == l,
        l.before.len() > 0 ==> edited(l, EditV::Backspace).before == l.before.take(
            l.before.len() - 1,
        ),
        edited(l, EditV::Backspace).after == l.after,
        without_last_word(l.before, edited(l, EditV::DeleteWord).before),
        edited(l, EditV::DeleteWord).after == l.after,
        edited(l, EditV::ClearToStart).before.len() == 0,
        edited(l, EditV::ClearToStart).after == l.after,
        edited(l, EditV::KillToEnd).before == l.before,
        edited(l, EditV::KillToEnd).after.len() == 0,
{
    if l.after.len() > 0 {
        assert(l.before.push(l.after[0]).drop_last() =~= l.before);
    }
    if l.before.len() > 0 {
        assert(l.before.drop_last() =~= l.before.take(l.before.len() - 1));
    }
    let s = l.before;
    let m = spaces_cut(s);
    let r = word_cut(m);
    lemma_spaces_cut(s);
    lemma_word_cut(m);
    let k = m.len() as int;
    assert(m.take(r.len() as int) =~= s.take(r.len() as int));
    assert forall|i: int| r.len() <= i < k implies (#[trigger] s[i]) != ' ' by {
        assert(m[i] == s[i]);
    }
    if k > 0 {
        assert(m[k - 1] == s[k - 1]);
    }
    assert(cut_at(s, r, k));
}

/// What the keys do to a line: a character is typed, and a control letter does what the key
/// does that it stands for.
pub proof fn law_editing_keys(l: InputV, c: char)
    ensures
        after_key(l, KeyCode::Char(c), false) == (InputV {
            before: l.before.push(c),
            after: l.after,
        }),
        after_key(l, KeyCode::Char('a'), true) == after_key(l, KeyCode::Home, false),
        after_key(l, KeyCode::Char('e'), true) == after_key(l, KeyCode::End, false),
        after_key(l, KeyCode::Char('b'), true) == after_key(l, KeyCode::Left, false),
        after_key(l, KeyCode::Char('f'), true) == after_key(l, KeyCode::Right, false),
        after_key(l, KeyCode::Char('h'), true) == after_key(l, KeyCode::Backspace, false),
        after_key(l, KeyCode::Char('d'), true) == after_key(l, KeyCode::Delete, false),
        after_key(l, KeyCode::Home, false) == edited(l, EditV::Home),
        after_key(l, KeyCode::End, false) == edited(l, EditV::End),
        after_key(l, KeyCode::Left, false) == edited(l, EditV::Left),
        after_key(l, KeyCode::Right, false) == edited(l, EditV::Right),
        after_key(l, KeyCode::Backspace, false) == edited(l, EditV::Backspace),
        after_key(l, KeyCode::Delete, false) == edited(l, EditV::Delete),
        after_key(l, KeyCode::Char('w'), true) == edited(l, EditV::DeleteWord),
        after_key(l, KeyCode::Char('u'), true) == edited(l, EditV::ClearToStart),
        after_key(l, KeyCode::Char('k'), true) == edited(l, EditV::KillToEnd),
{
    reveal(after_key);
}

/// Browsing shows the entries one by one, the newest first, and stops at the oldest.
pub proof fn law_browsing_shows_the_entries(h: HistoryV, current: Seq<char>, n: nat)
    requires
        history_wf(h),
        h.cursor is None,
        n <= h.entries.len(),
    ensures
        older_line(back(h, current, n)) == (if n < h.entries.len() {
            Some(h.entries[h.entries.len() - 1 - n])
        } else {
            None
        }),
        back(h, current, n).entries == h.entries,
        0 < n < h.entries.len() ==> newer_line(back(h, current, (n + 1) as nat)) == Some(
            h.entries[h.entries.len() - n],
        ),
{
    if n > 0 {
        lemma_back(h, current, n);
    }
    if 0 < n < h.entries.len() {
        lemma_back(h, current, (n + 1) as nat);
    }
}

/// What a history keeps when an entry is recorded: all that it had and the entry behind it,
/// and the oldest goes only where there are two hundred.
pub proof fn law_what_a_history_keeps(h: HistoryV, entry: Seq<char>)
    requires
        history_wf(h),
        trimmed(entry).len() > 0,
        h.entries.len() > 0 ==> h.entries.last() != trimmed(entry),
    ensures
        h.entries.len() < 200 ==> recorded(h, entry).entries == h.entries.push(trimmed(entry)),
        h.entries.len() == 200 ==> recorded(h, entry).entries == h.entries.skip(1).push(
            trimmed(entry),
        ),
        recorded(h, entry).cursor is None,
{
    if h.entries.len() == 200 {
        assert(h.entries.push(trimmed(entry)).skip(1) =~= h.entries.skip(1).push(trimmed(entry)));
    }
}

} // verus!
