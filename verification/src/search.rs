//! Searching a document: what the `/` prompt accepts, and the walk that finds
//! the matching nodes.

use crate::filter::{elements, lemma_child_value_wf, lemma_level_of_wf, value_of, ValueV};
use crate::scanner::{
    addressable, children_from, decode_str, decoded, lemma_next_child, level_of_lines, ChildV,
    Cursor, Kind, MAX_DEPTH,
};
use crate::text::{
    contains_text, from_utf8, has_prefix, joint, lower_text, occurs_in, strip_prefix, to_lower,
};
use crate::tree::{path_views, value_range};
use crate::worker::{
    lemma_progress_bail, lemma_progress_none, lemma_progress_step, lemma_progress_stopped, outcome,
    progress, Outlet,
};
use regex::{Regex, RegexBuilder};
use vstd::prelude::*;
use vstd::utf8::*;

verus! {

/// Trusted: `regex::Regex`, a compiled regular expression that nothing is known
/// of by itself.
#[verifier::external_type_specification]
#[verifier::external_body]
pub struct ExRegex(Regex);

/// The message with which the regular expression `src` is refused, if it is.
pub uninterp spec fn regex_error(src: Seq<char>) -> Option<Seq<char>>;

/// Whether the regular expression `src`, without regard to case, matches
/// anywhere in `hay`.
pub uninterp spec fn regex_matches(src: Seq<char>, hay: Seq<char>) -> bool;

/// A regular expression that pays no regard to case, with its source.
pub struct CaseInsensitive {
    re: Regex,
    src: String,
}

impl CaseInsensitive {
    /// The source of this expression.
    pub closed spec fn source(&self) -> Seq<char> {
        self.src@
    }

    /// Trusted: `regex::RegexBuilder::build`, with `case_insensitive(true)`,
    /// either compiles `src` or gives an error whose message is a function of
    /// `src`. Which sources it refuses is left to the name `regex_error`.
    #[verifier::external_body]
    pub(crate) fn compile(src: &str) -> (r: Result<CaseInsensitive, String>)
        ensures
            match regex_error(src@) {
                None => r is Ok && r->Ok_0.source() == src@,
                Some(e) => r is Err && r->Err_0@ == e,
            },
    {
        match RegexBuilder::new(src).case_insensitive(true).build() {
            Ok(re) => Ok(CaseInsensitive { re, src: src.to_owned() }),
            Err(e) => Err(e.to_string()),
        }
    }

    /// Trusted: `regex::Regex::is_match` is a function of the source that the
    /// expression was compiled from and of the text. What it is on given values
    /// is left to the name `regex_matches`.
    #[verifier::external_body]
    pub(crate) fn is_match(&self, hay: &str) -> (r: bool)
        ensures
            r == regex_matches(self.source(), hay@),
    {
        self.re.is_match(hay)
    }
}

/// What the user typed in the `/` prompt, compiled into something to match
/// against. Three flavours:
/// - `re:<regex>`: full regex, case-insensitive
/// - `g:<glob>`: `*` (any chars), `?` (one char); everything else literal
/// - anything else: case-insensitive substring
pub enum Pattern {
    /// Lowercased needle.
    Literal(String),
    /// Compiled regex (already case-insensitive).
    Regex(CaseInsensitive),
}

/// A pattern as the contracts speak of it.
pub enum PatternV {
    /// A lowercased needle.
    Literal(Seq<char>),
    /// The source of a regular expression.
    Regex(Seq<char>),
}

impl View for Pattern {
    type V = PatternV;

    open spec fn view(&self) -> PatternV {
        match self {
            Pattern::Literal(n) => PatternV::Literal(n@),
            Pattern::Regex(r) => PatternV::Regex(r.source()),
        }
    }
}

/// Whether a text matches a pattern.
pub open spec fn pattern_matches(p: PatternV, hay: Seq<char>) -> bool {
    match p {
        PatternV::Literal(n) => occurs_in(lower_text(hay), n),
        PatternV::Regex(src) => regex_matches(src, hay),
    }
}

/// The pattern of a regular expression, or the message that refuses it.
pub open spec fn regex_pattern(src: Seq<char>) -> Result<PatternV, Seq<char>> {
    match regex_error(src) {
        None => Ok(PatternV::Regex(src)),
        Some(e) => Err("bad pattern: "@ + e),
    }
}

/// The pattern that a query stands for, or the message that refuses it.
pub open spec fn query_pattern(s: Seq<char>) -> Result<PatternV, Seq<char>> {
    if has_prefix(s, "re:"@) {
        regex_pattern(s.skip(3))
    } else if has_prefix(s, "g:"@) {
        regex_pattern(glob_regex(s.skip(2)))
    } else {
        Ok(PatternV::Literal(lower_text(s)))
    }
}

/// The characters that a regular expression gives a meaning to, but for `*` and `?`.
pub open spec fn regex_special(c: char) -> bool {
    c == '.' || c == '+' || c == '(' || c == ')' || c == '|' || c == '^' || c == '$' || c == '\\'
        || c == '{' || c == '}' || c == '[' || c == ']'
}

/// What one character of a glob is as a regular expression.
pub open spec fn glob_piece(c: char) -> Seq<char> {
    if c == '*' {
        seq!['.', '*']
    } else if c == '?' {
        seq!['.']
    } else if regex_special(c) {
        seq!['\\', c]
    } else {
        seq![c]
    }
}

/// A glob as a regular expression.
pub open spec fn glob_regex(g: Seq<char>) -> Seq<char>
    decreases g.len(),
{
    if g.len() == 0 {
        Seq::empty()
    } else {
        glob_regex(g.drop_last()) + glob_piece(g.last())
    }
}

/// Translate a shell-style glob (`*` = any run, `?` = one char) into an
/// unanchored regex. All other regex metacharacters are escaped, so a glob
/// behaves intuitively (`foo.bar` matches the literal dot).
pub fn glob_to_regex(g: &str) -> (r: String)
    ensures
        r@ == glob_regex(g@),
{
    let mut out = String::new();
    for c in it: g.chars()
        invariant
            it.seq() == g@,
            out@ == glob_regex(g@.take(it.index())),
    {
        let ghost before = out@;
        match c {
            '*' => {
                out.push('.');
                out.push('*');
            },
            '?' => {
                out.push('.');
            },
            '.' | '+' | '(' | ')' | '|' | '^' | '$' | '\\' | '{' | '}' | '[' | ']' => {
                out.push('\\');
                out.push(c);
            },
            _ => {
                out.push(c);
            },
        }
        proof {
            assert(out@ =~= before + glob_piece(c));
            assert(g@.take(it.index() + 1).drop_last() =~= g@.take(it.index()));
        }
    }
    assert(g@.take(g@.len() as int) =~= g@);
    out
}

fn build_regex(src: &str) -> (r: Result<CaseInsensitive, String>)
    ensures
        match regex_pattern(src@) {
            Ok(p) => r is Ok && PatternV::Regex(r->Ok_0.source()) == p,
            Err(e) => r is Err && r->Err_0@ == e,
        },
{
    match CaseInsensitive::compile(src) {
        Ok(re) => Ok(re),
        Err(e) => Err(joint("bad pattern: ", e.as_str())),
    }
}

impl Pattern {
    /// Compile the typed query. Returns the parsed pattern, or a footer-ready
    /// error string when `re:`/`g:` was used and the inner expression is bad.
    pub fn parse(s: &str) -> (r: Result<Pattern, String>)
        ensures
            match query_pattern(s@) {
                Ok(p) => r is Ok && r->Ok_0@ == p,
                Err(e) => r is Err && r->Err_0@ == e,
            },
    {
        proof {
            reveal_strlit("re:");
            reveal_strlit("g:");
        }
        if let Some(inner) = strip_prefix(s, "re:") {
            match build_regex(inner.as_str()) {
                Ok(re) => Ok(Pattern::Regex(re)),
                Err(e) => Err(e),
            }
        } else if let Some(inner) = strip_prefix(s, "g:") {
            match build_regex(glob_to_regex(inner.as_str()).as_str()) {
                Ok(re) => Ok(Pattern::Regex(re)),
                Err(e) => Err(e),
            }
        } else {
            Ok(Pattern::Literal(to_lower(s)))
        }
    }

    pub fn is_match(&self, hay: &str) -> (r: bool)
        ensures
            r == pattern_matches(self@, hay@),
    {
        match self {
            Pattern::Literal(n) => contains_text(to_lower(hay).as_str(), n.as_str()),
            Pattern::Regex(r) => r.is_match(hay),
        }
    }
}

// ---------------------------------------------------------------------------
// Searching a document
// ---------------------------------------------------------------------------
/// Cap on collected matches: bounds memory and keeps a pathological "every key
/// matches" query from running forever.
pub const MAX_MATCHES: usize = 5000;

/// Whether a node matches: by its label, or, for a scalar, by its value.
pub open spec fn node_matches(b: Seq<u8>, p: PatternV, v: ValueV, label: Seq<char>) -> bool {
    ||| label.len() > 0 && pattern_matches(p, label)
    ||| v.kind is Str && pattern_matches(p, decoded(b, v.start, v.end))
    ||| !(v.kind is Str) && !v.kind.is_container() && ({
        let bytes = b.subrange(v.start, v.end);
        valid_utf8(bytes) && pattern_matches(p, decode_utf8(bytes))
    })
}

/// The paths of the matching nodes in the subtree at `v`, parents before
/// children, as far as the depth cap allows. `path` leads to `v`.
pub open spec fn matches_below(
    b: Seq<u8>,
    p: PatternV,
    v: ValueV,
    label: Seq<char>,
    depth: int,
    path: Seq<usize>,
) -> Seq<Seq<usize>>
    decreases MAX_DEPTH - depth, 1int, 0int,
{
    (if node_matches(b, p, v, label) {
        seq![path]
    } else {
        Seq::empty()
    }) + (if depth < MAX_DEPTH && v.kind.is_container() {
        matches_in_each(b, p, elements(b, v), 0, depth, path)
    } else {
        Seq::empty()
    })
}

/// The paths of the matching nodes in the subtrees at the children from number
/// `i` on.
pub open spec fn matches_in_each(
    b: Seq<u8>,
    p: PatternV,
    cs: Seq<ChildV>,
    i: int,
    depth: int,
    path: Seq<usize>,
) -> Seq<Seq<usize>>
    decreases MAX_DEPTH - depth, 0int, cs.len() - i,
{
    if i >= cs.len() || depth >= MAX_DEPTH {
        Seq::empty()
    } else {
        matches_below(b, p, value_of(cs[i]), cs[i].label, depth + 1, path.push(i as usize))
            + matches_in_each(b, p, cs, i + 1, depth, path)
    }
}

/// All the matches in the value in `[start, end)`, or with `jsonl` in the values
/// there, each of which counts as an element of one array.
pub open spec fn all_matches(
    b: Seq<u8>,
    p: PatternV,
    jsonl: bool,
    start: int,
    end: int,
    kind: Kind,
) -> Seq<Seq<usize>> {
    if jsonl {
        matches_in_each(
            b,
            p,
            children_from(b, level_of_lines(start, end)),
            0,
            0,
            Seq::empty(),
        )
    } else if start < end {
        matches_below(b, p, ValueV { start, end, kind }, Seq::empty(), 0, Seq::empty())
    } else {
        Seq::empty()
    }
}

pub open spec fn paths_sent(out: &Outlet<Vec<usize>>) -> Seq<Seq<usize>> {
    path_views(out.sent())
}

/// A node matches if its key matches the pattern, or (for a scalar) its value
/// does. Containers match only via their key.
fn is_node_match(
    b: &[u8],
    start: usize,
    end: usize,
    kind: Kind,
    label: &str,
    pattern: &Pattern,
) -> (r: bool)
    requires
        value_range(b@, start as int, end as int, kind),
    ensures
        r == node_matches(
            b@,
            pattern@,
            (ValueV { start: start as int, end: end as int, kind }),
            label@,
        ),
{
    if label.unicode_len() > 0 && pattern.is_match(label) {
        return true;
    }
    match kind {
        Kind::Object | Kind::Array => false,
        Kind::Str => pattern.is_match(decode_str(b, start, end).as_str()),
        _ => match from_utf8(vstd::slice::slice_subrange(b, start, end)) {
            Some(s) => pattern.is_match(s.as_str()),
            None => false,
        },
    }
}

/// Recursive byte-range scan. Returns `true` if it bailed (told to stop, or the
/// match cap hit) so callers stop descending.
fn scan(
    b: &[u8],
    start: usize,
    end: usize,
    kind: Kind,
    label: &str,
    pattern: &Pattern,
    depth: usize,
    path: &mut Vec<usize>,
    out: &mut Outlet<Vec<usize>>,
) -> (r: bool)
    requires
        value_range(b@, start as int, end as int, kind),
        depth <= MAX_DEPTH,
        old(out).wf(),
        old(out).sent().len() <= MAX_MATCHES,
        !old(out).told_to_stop(),
    ensures
        final(out).wf(),
        final(path)@ == old(path)@,
        progress(
            paths_sent(old(out)),
            matches_below(
                b@,
                pattern@,
                ValueV { start: start as int, end: end as int, kind },
                label@,
                depth as int,
                old(path)@,
            ),
            paths_sent(final(out)),
            MAX_MATCHES as int,
            final(out).told_to_stop(),
            r,
        ),
    decreases MAX_DEPTH - depth, 1int,
{
    let ghost v = ValueV { start: start as int, end: end as int, kind };
    let ghost before = paths_sent(out);
    let ghost cap = MAX_MATCHES as int;
    let ghost path0 = path@;
    let ghost total = matches_below(b@, pattern@, v, label@, depth as int, path0);
    let ghost below = if depth < MAX_DEPTH && kind.is_container() {
        matches_in_each(b@, pattern@, elements(b@, v), 0, depth as int, path0)
    } else {
        Seq::empty()
    };
    proof {
        lemma_progress_stopped(before, total, cap);
        lemma_progress_none(before, cap);
    }
    if out.poll() {
        return true;
    }
    if out.count() >= MAX_MATCHES {
        return true;
    }
    let hit = is_node_match(b, start, end, kind, label, pattern);
    let ghost own: Seq<Seq<usize>> = if hit {
        seq![path0]
    } else {
        Seq::empty()
    };
    if hit {
        if !out.send(path.clone()) {
            return true;  // nobody listens any more: the search was superseded
        }
        proof {
            assert(paths_sent(out) =~= before + own);
            assert((before + own).take((before + own).len() as int) =~= before + own);
        }
    }
    // Stop descending past the depth cap: a pathologically deep document would
    // otherwise overflow the stack. This node's own match was handed over above.
    if depth < MAX_DEPTH && kind.is_container() {
        let ghost mid = paths_sent(out);
        proof {
            lemma_level_of_wf(b@, v);
        }
        let mut cur = Cursor::new(start, end, matches!(kind, Kind::Array));
        let bail = scan_each(b, &mut cur, pattern, depth, path, out, Ghost(elements(b@, v)));
        proof {
            lemma_progress_step(
                before,
                own,
                mid,
                below,
                paths_sent(out),
                cap,
                out.told_to_stop(),
                bail,
            );
        }
        return bail;
    }
    assert(own + Seq::<Seq<usize>>::empty() =~= own);
    false
}

/// [`scan`] each of the children that `cur` gives.
fn scan_each(
    b: &[u8],
    cur: &mut Cursor,
    pattern: &Pattern,
    depth: usize,
    path: &mut Vec<usize>,
    out: &mut Outlet<Vec<usize>>,
    Ghost(cs): Ghost<Seq<ChildV>>,
) -> (r: bool)
    requires
        addressable(b@),
        old(cur).wf(b@),
        old(cur).model(b@).level.index == 0,
        cs == children_from(b@, old(cur).model(b@).level),
        depth < MAX_DEPTH,
        old(out).wf(),
        old(out).sent().len() <= MAX_MATCHES,
        !old(out).told_to_stop(),
    ensures
        final(out).wf(),
        final(path)@ == old(path)@,
        progress(
            paths_sent(old(out)),
            matches_in_each(b@, pattern@, cs, 0, depth as int, old(path)@),
            paths_sent(final(out)),
            MAX_MATCHES as int,
            final(out).told_to_stop(),
            r,
        ),
    decreases MAX_DEPTH - depth, 0int,
{
    let ghost before = paths_sent(out);
    let ghost cap = MAX_MATCHES as int;
    let ghost path0 = path@;
    let ghost total = matches_in_each(b@, pattern@, cs, 0, depth as int, path0);
    let mut i: usize = 0;
    let ghost mut done: Seq<Seq<usize>> = Seq::empty();
    proof {
        lemma_progress_none(before, cap);
        assert(cs.skip(0) =~= cs);
        assert(done + total =~= total);
    }
    loop
        invariant
            addressable(b@),
            depth < MAX_DEPTH,
            cap == MAX_MATCHES,
            before == paths_sent(old(out)),
            path0 == old(path)@,
            path@ == path0,
            total == matches_in_each(b@, pattern@, cs, 0, depth as int, path0),
            cur.wf(b@),
            i <= cs.len(),
            cur.model(b@).level.index == i,
            children_from(b@, cur.model(b@).level) == cs.skip(i as int),
            out.wf(),
            out.sent().len() <= MAX_MATCHES,
            !out.told_to_stop(),
            progress(before, done, paths_sent(out), cap, false, false),
            done + matches_in_each(b@, pattern@, cs, i as int, depth as int, path0) == total,
        decreases usize::MAX - i,
    {
        let ghost s = cur.model(b@).level;
        let ghost mid = paths_sent(out);
        proof {
            lemma_next_child(b@, s);
        }
        match cur.next(b) {
            None => {
                proof {
                    assert(cs.skip(i as int).len() == 0);
                    assert(done + Seq::<Seq<usize>>::empty() =~= done);
                }
                return false;
            },
            Some(rc) => {
                proof {
                    lemma_child_value_wf(b@, s);
                    assert(cs.skip(i as int)[0] == rc@);
                    assert(children_from(b@, cur.model(b@).level) =~= cs.skip(i as int).skip(1));
                    assert(cs.skip(i as int).skip(1) =~= cs.skip(i + 1));
                }
                path.push(i);
                let ghost first = matches_below(
                    b@,
                    pattern@,
                    value_of(rc@),
                    rc@.label,
                    depth + 1,
                    path@,
                );
                let ghost rest = matches_in_each(b@, pattern@, cs, i + 1, depth as int, path0);
                let bail = scan(
                    b,
                    rc.start,
                    rc.end,
                    rc.kind,
                    rc.label.as_str(),
                    pattern,
                    depth + 1,
                    path,
                    out,
                );
                path.pop();
                proof {
                    assert(path@ =~= path0);
                    lemma_progress_step(
                        before,
                        done,
                        mid,
                        first,
                        paths_sent(out),
                        cap,
                        out.told_to_stop(),
                        bail,
                    );
                    assert((done + first) + rest =~= done + (first + rest));
                    if bail {
                        lemma_progress_bail(
                            before,
                            done + first,
                            rest,
                            paths_sent(out),
                            cap,
                            out.told_to_stop(),
                        );
                    }
                    done = done + first;
                }
                if bail {
                    return true;
                }
                i += 1;
            },
        }
    }
}

/// Scan the subtree rooted at the byte range `[start, end)` for `pattern` and
/// hand over the path of every matching node. Paths are relative to that root,
/// so a pane viewing a sub-range gets matches that line up with its own rows.
/// For the whole document pass the document root's range; for NDJSON, the whole
/// buffer.
pub fn run(
    b: &[u8],
    pattern: &Pattern,
    jsonl: bool,
    start: usize,
    end: usize,
    kind: Kind,
    out: &mut Outlet<Vec<usize>>,
)
    requires
        addressable(b@),
        if jsonl {
            end <= b@.len() + 1
        } else {
            value_range(b@, start as int, end as int, kind)
        },
        old(out).wf(),
        old(out).sent().len() == 0,
        !old(out).told_to_stop(),
    ensures
        final(out).wf(),
        outcome(
            all_matches(b@, pattern@, jsonl, start as int, end as int, kind),
            paths_sent(final(out)),
            MAX_MATCHES as int,
            final(out).told_to_stop(),
        ),
{
    let ghost total = all_matches(b@, pattern@, jsonl, start as int, end as int, kind);
    let ghost before = paths_sent(out);
    assert(before =~= Seq::empty());
    assert(before + total =~= total);
    assert(total.take(0) =~= Seq::empty());
    let mut path: Vec<usize> = Vec::new();
    assert(path@ =~= Seq::empty());
    if jsonl {
        // Each document is element [i], like an array child, so that match paths
        // line up with the synthetic NDJSON array root.
        let mut cur = Cursor::lines(start, end);
        scan_each(
            b,
            &mut cur,
            pattern,
            0,
            &mut path,
            out,
            Ghost(children_from(b@, level_of_lines(start as int, end as int))),
        );
    } else if start < end {
        proof {
            reveal_strlit("");
            assert(""@ =~= Seq::empty());
        }
        scan(b, start, end, kind, "", pattern, 0, &mut path, out);
    }
}

} // verus!
