//! `goto` paths: how they are written, and where they lead.

use crate::search::{glob_regex, glob_to_regex, regex_error, regex_matches, CaseInsensitive};
use crate::text::{
    between, chars_of, decimal, is_digit, lemma_decimal, parse_unsigned, string_of, trim,
    trim_range, trimmed, trimmed_start, unsigned_value, white_space,
};
use crate::tree::{
    get_mut, grafted, grown, lemma_grown_grafted, lemma_grown_reaches, lemma_grown_scan,
    lemma_grown_self, lemma_grown_step, lemma_grown_toggled, lemma_replace_child_wf,
    lemma_scanned_to_keeps, lemma_toggled_wf, node_at, node_wf, opened, reachable, scanned_to,
    Node, NodeV,
};
use vstd::prelude::*;

verus! {

// ---------------------------------------------------------------------------
// Path texts
// ---------------------------------------------------------------------------
pub open spec fn segment_views(segs: Seq<(String, bool)>) -> Seq<(Seq<char>, bool)> {
    Seq::new(segs.len(), |i: int| (segs[i].0@, segs[i].1))
}

/// A path behind `base`: keys behind dots, indices in brackets.
pub open spec fn accessor(base: Seq<char>, segs: Seq<(Seq<char>, bool)>) -> Seq<char>
    decreases segs.len(),
{
    if segs.len() == 0 {
        base
    } else {
        let s = accessor(base, segs.drop_last());
        let (label, is_index) = segs.last();
        if is_index {
            s + "["@ + label + "]"@
        } else if s.len() == 0 {
            label
        } else {
            s + "."@ + label
        }
    }
}

/// The title of a path: its accessor, or `root` where that is empty.
pub open spec fn path_title(base: Seq<char>, segs: Seq<(Seq<char>, bool)>) -> Seq<char> {
    let s = accessor(base, segs);
    if s.len() == 0 {
        "root"@
    } else {
        s
    }
}

/// Render a node path as a JSON accessor string (`users[1].address`), used as a
/// split pane's title. `base` is the source pane's own origin (empty for the
/// document pane) so chained splits accumulate (`users[1].address.city`).
pub fn join_path(base: &str, segs: &[(String, bool)]) -> (r: String)
    ensures
        r@ == path_title(base@, segment_views(segs@)),
{
    let mut s = base.to_owned();
    let ghost views = segment_views(segs@);
    let mut k: usize = 0;
    while k < segs.len()
        invariant
            k <= segs@.len(),
            views == segment_views(segs@),
            s@ == accessor(base@, views.take(k as int)),
        decreases segs@.len() - k,
    {
        let ghost before = s@;
        if segs[k].1 {
            s.push_str("[");
            s.push_str(segs[k].0.as_str());
            s.push_str("]");
        } else {
            if s.as_str().unicode_len() > 0 {
                s.push_str(".");
            }
            s.push_str(segs[k].0.as_str());
        }
        proof {
            assert(views.take(k + 1).drop_last() =~= views.take(k as int));
            if before.len() == 0 {
                assert(before + views[k as int].0 =~= views[k as int].0);
            }
        }
        k += 1;
    }
    assert(views.take(views.len() as int) =~= views);
    if s.as_str().unicode_len() == 0 {
        "root".to_owned()
    } else {
        s
    }
}

/// A parsed `goto` path segment: an object key or an array index.
#[derive(Debug, PartialEq)]
pub enum Seg {
    Key(String),
    Index(usize),
}

/// A parsed `goto` path: where resolution starts, then the segments to descend.
#[derive(Debug, PartialEq)]
pub struct ParsedPath {
    /// `None`: absolute, resolve from the document root.
    /// `Some(up)`: relative, start at the focused node and climb `up` levels
    /// first (0 = the focused node itself, 1 = its parent, …), then descend `segs`.
    pub up: Option<usize>,
    pub segs: Vec<Seg>,
}

/// A segment as the contracts speak of it.
pub enum SegV {
    Key(Seq<char>),
    Index(usize),
}

impl View for Seg {
    type V = SegV;

    open spec fn view(&self) -> SegV {
        match self {
            Seg::Key(k) => SegV::Key(k@),
            Seg::Index(i) => SegV::Index(*i),
        }
    }
}

pub open spec fn seg_views(segs: Seq<Seg>) -> Seq<SegV> {
    Seq::new(segs.len(), |i: int| segs[i]@)
}

pub open spec fn quote_mark(c: char) -> bool {
    c == '"' || c == '\''
}

/// `s` without the quotes at its start.
pub open spec fn unquoted_start(s: Seq<char>) -> Seq<char>
    decreases s.len(),
{
    if s.len() > 0 && quote_mark(s[0]) {
        unquoted_start(s.skip(1))
    } else {
        s
    }
}

/// `s` without the quotes at its end.
pub open spec fn unquoted_end(s: Seq<char>) -> Seq<char>
    decreases s.len(),
{
    if s.len() > 0 && quote_mark(s.last()) {
        unquoted_end(s.drop_last())
    } else {
        s
    }
}

/// What stands in brackets: an index where it reads as one, else a key, in
/// quotes or not.
pub open spec fn bracket_segment(inner: Seq<char>) -> SegV {
    let t = unquoted_end(unquoted_start(trimmed(inner)));
    match unsigned_value(t, usize::MAX as nat) {
        Some(i) => SegV::Index(i as usize),
        None => SegV::Key(t),
    }
}

/// The position of the first `]` from `i` on, or the end of `s`.
pub open spec fn bracket_end(s: Seq<char>, i: int) -> int
    decreases s.len() - i,
{
    if i >= s.len() || s[i] == ']' {
        i
    } else {
        bracket_end(s, i + 1)
    }
}

/// The key read so far, as a segment where it is not empty.
pub open spec fn pending_key(key: Seq<char>) -> Seq<SegV> {
    if key.len() == 0 {
        Seq::empty()
    } else {
        seq![SegV::Key(key)]
    }
}

/// The segments of a path body from `i` on, where `key` has been read before.
/// Keys end at a dot or an opening bracket; empty ones do not count.
pub open spec fn segments_from(s: Seq<char>, i: int, key: Seq<char>) -> Seq<SegV>
    decreases s.len() - i, 1int,
{
    if i >= s.len() {
        pending_key(key)
    } else if s[i] == '.' {
        pending_key(key) + segments_from(s, i + 1, Seq::empty())
    } else if s[i] == '[' {
        let j = bracket_end(s, i + 1);
        pending_key(key) + seq![bracket_segment(s.subrange(i + 1, j))] + (if i < j < s.len() {
            segments_from(s, j + 1, Seq::empty())
        } else {
            Seq::empty()
        })
    } else {
        segments_from(s, i + 1, key.push(s[i]))
    }
}

/// How many dots `s` starts with.
pub open spec fn leading_dots(s: Seq<char>) -> int
    decreases s.len(),
{
    if s.len() > 0 && s[0] == '.' {
        1 + leading_dots(s.skip(1))
    } else {
        0
    }
}

/// Where a `goto` path starts, and its segments.
pub open spec fn parsed_path(input: Seq<char>) -> (Option<int>, Seq<SegV>) {
    let s = trimmed(input);
    if s.len() > 0 && s[0] == '$' {
        // An explicit absolute path; one dot behind the `$` separates.
        let from: int = if s.len() > 1 && s[1] == '.' {
            2
        } else {
            1
        };
        (None, segments_from(s.skip(from), 0, Seq::empty()))
    } else if s.len() > 0 && s[0] == '.' {
        let dots = leading_dots(s);
        (Some(dots - 1), segments_from(s.skip(dots), 0, Seq::empty()))
    } else {
        (None, segments_from(s, 0, Seq::empty()))
    }
}

impl ParsedPath {
    pub open spec fn model(&self) -> (Option<int>, Seq<SegV>) {
        (
            match self.up {
                None => None,
                Some(n) => Some(n as int),
            },
            seg_views(self.segs@),
        )
    }
}

fn is_quote_mark(c: char) -> (r: bool)
    ensures
        r == quote_mark(c),
{
    c == '"' || c == '\''
}

/// What stands in brackets at `cs[from..to]`.
fn read_bracket(cs: &[char], from: usize, to: usize) -> (r: Seg)
    requires
        from <= to <= cs@.len(),
    ensures
        r@ == bracket_segment(cs@.subrange(from as int, to as int)),
{
    let ghost inner = trimmed(cs@.subrange(from as int, to as int));
    let (a, z) = trim_range(cs, from, to);
    let mut i: usize = a;
    while i < z && is_quote_mark(cs[i])
        invariant
            a <= i <= z <= cs@.len(),
            unquoted_start(cs@.subrange(i as int, z as int)) == unquoted_start(inner),
        decreases z - i,
    {
        proof {
            assert(cs@.subrange(i as int, z as int).skip(1) =~= cs@.subrange(i + 1, z as int));
        }
        i += 1;
    }
    assert(cs@.subrange(i as int, z as int) == unquoted_start(inner));
    let mut j: usize = z;
    while i < j && is_quote_mark(cs[j - 1])
        invariant
            i <= j <= z <= cs@.len(),
            unquoted_end(cs@.subrange(i as int, j as int)) == unquoted_end(unquoted_start(inner)),
        decreases j - i,
    {
        proof {
            assert(cs@.subrange(i as int, j as int).drop_last() =~= cs@.subrange(
                i as int,
                j - 1,
            ));
        }
        j -= 1;
    }
    let t = string_of(cs, i, j);
    match parse_unsigned(t.as_str(), usize::MAX as u64) {
        Some(n) => Seg::Index(n as usize),
        None => Seg::Key(t),
    }
}

/// Split a path body (after any `$` or leading dots) into key and index segments
/// on `.` and `[…]`: what `cs[from..]` holds.
fn tokenize_segments(cs: &[char], from: usize) -> (segs: Vec<Seg>)
    requires
        from <= cs@.len(),
    ensures
        seg_views(segs@) == segments_from(cs@.skip(from as int), 0, Seq::empty()),
{
    let ghost s = cs@.skip(from as int);
    let mut segs: Vec<Seg> = Vec::new();
    let mut cur = String::new();
    let mut i: usize = from;
    assert(seg_views(segs@) + segments_from(s, 0, Seq::empty()) =~= segments_from(
        s,
        0,
        Seq::empty(),
    ));
    assert(cur@ =~= Seq::empty());
    while i < cs.len()
        invariant
            from <= i <= cs@.len(),
            s == cs@.skip(from as int),
            seg_views(segs@) + segments_from(s, i - from, cur@) == segments_from(
                s,
                0,
                Seq::empty(),
            ),
        decreases cs@.len() - i,
    {
        let c: char = cs[i];
        let ghost before = seg_views(segs@);
        let ghost key = cur@;
        let ghost at = i - from;
        if c == '.' {
            if cur.as_str().unicode_len() > 0 {
                segs.push(Seg::Key(cur));
                assert(seg_views(segs@) =~= before + pending_key(key));
            } else {
                assert(seg_views(segs@) =~= before + pending_key(key));
            }
            cur = String::new();
            assert(cur@ =~= Seq::empty());
            i += 1;
        } else if c == '[' {
            if cur.as_str().unicode_len() > 0 {
                segs.push(Seg::Key(cur));
                assert(seg_views(segs@) =~= before + pending_key(key));
            } else {
                assert(seg_views(segs@) =~= before + pending_key(key));
            }
            cur = String::new();
            assert(cur@ =~= Seq::empty());
            let mut j: usize = i + 1;
            while j < cs.len() && cs[j] != ']'
                invariant
                    from <= i < j <= cs@.len(),
                    s == cs@.skip(from as int),
                    bracket_end(s, j - from) == bracket_end(s, i + 1 - from),
                decreases cs@.len() - j,
            {
                j += 1;
            }
            let seg = read_bracket(cs, i + 1, j);
            let ghost mid = seg_views(segs@);
            segs.push(seg);
            proof {
                assert(s.subrange(at + 1, j - from) =~= cs@.subrange(i + 1, j as int));
                assert(seg_views(segs@) =~= mid + seq![seg@]);
            }
            i = if j < cs.len() {
                j + 1
            } else {
                j
            };
        } else {
            cur.push(c);
            i += 1;
        }
        proof {
            assert(seg_views(segs@) + segments_from(s, i - from, cur@) =~= before
                + segments_from(s, at, key));
        }
    }
    let ghost before = seg_views(segs@);
    let ghost key = cur@;
    if cur.as_str().unicode_len() > 0 {
        segs.push(Seg::Key(cur));
    }
    assert(seg_views(segs@) =~= before + pending_key(key));
    segs
}

/// Parse a `goto` path string. Three forms, all lenient (it's an interactive
/// jump, not a validator):
/// - absolute: a bare path (`data.users[3].city`) or a `$`-prefixed one
///   (`$.data`, the dot after `$` optional) resolves from the document root.
/// - relative: a leading run of dots resolves from the focused node: `.child`
///   (from the focus), `..sibling` (climb to the parent first), `...x` (climb
///   two), and bare `.`/`..` jump to the focus or parent with no descent.
///
/// Bracketed (optionally quoted) keys may hold literal dots: `["x.y"][2]`.
pub fn parse_path(input: &str) -> (r: ParsedPath)
    ensures
        r.model() == parsed_path(input@),
{
    let t = trim(input);
    let cs = chars_of(t.as_str());
    let ghost s = cs@;
    if cs.len() > 0 && cs[0] == '$' {
        // Drop one optional separating dot (`$.a` == `$a`).
        let from: usize = if cs.len() > 1 && cs[1] == '.' {
            2
        } else {
            1
        };
        return ParsedPath { up: None, segs: tokenize_segments(cs.as_slice(), from) };
    }
    if cs.len() > 0 && cs[0] == '.' {
        // The leading dots say how far up to climb: one dot is no climb.
        let mut dots: usize = 0;
        assert(s.skip(0) =~= s);
        while dots < cs.len() && cs[dots] == '.'
            invariant
                dots <= cs@.len(),
                s == cs@,
                leading_dots(s) == dots + leading_dots(s.skip(dots as int)),
            decreases cs@.len() - dots,
        {
            proof {
                assert(s.skip(dots as int).skip(1) =~= s.skip(dots + 1));
            }
            dots += 1;
        }
        return ParsedPath { up: Some(dots - 1), segs: tokenize_segments(cs.as_slice(), dots) };
    }
    assert(s.skip(0) =~= s);
    ParsedPath { up: None, segs: tokenize_segments(cs.as_slice(), 0) }
}

// ---------------------------------------------------------------------------
// Resolving paths
// ---------------------------------------------------------------------------
/// How many children a `:` goto will scan to resolve an object key: a goto is a
/// synchronous walk, so this bounds how long it can take on a giant level.
pub const GOTO_SCAN_CAP: usize = 100_000;

/// What a key of a `goto` path asks of a label.
pub enum KeyTest {
    /// The label is the key.
    Exact(Seq<char>),
    /// The label matches the regular expression.
    Regex(Seq<char>),
}

pub open spec fn key_hits(t: KeyTest, label: Seq<char>) -> bool {
    match t {
        KeyTest::Exact(k) => label == k,
        KeyTest::Regex(src) => regex_matches(src, label),
    }
}

/// The test that a key stands for: a key with `*` or `?` is a glob for the whole
/// label. None where the glob makes no regular expression.
pub open spec fn key_test(k: Seq<char>) -> Option<KeyTest> {
    if k.contains('*') || k.contains('?') {
        let src = "^"@ + glob_regex(k) + "$"@;
        match regex_error(src) {
            None => Some(KeyTest::Regex(src)),
            Some(_) => None,
        }
    } else {
        Some(KeyTest::Exact(k))
    }
}

/// The first child of `n` from number `i` on whose label passes the test, among
/// the first `GOTO_SCAN_CAP`, and the node as far as it had to be scanned.
pub open spec fn child_by_key(b: Seq<u8>, n: NodeV, t: KeyTest, i: int) -> (NodeV, Option<int>)
    decreases GOTO_SCAN_CAP - i,
{
    if i >= GOTO_SCAN_CAP {
        (n, None)
    } else {
        let m = scanned_to(b, n, i);
        if i >= m.children.len() {
            (m, None)
        } else if key_hits(t, m.children[i].label) {
            (m, Some(i))
        } else {
            child_by_key(b, m, t, i + 1)
        }
    }
}

/// The child that a segment names, and the node as far as it had to be opened
/// and scanned.
pub open spec fn child_by_segment(b: Seq<u8>, n: NodeV, seg: SegV) -> (NodeV, Option<int>) {
    if !n.kind.is_container() || !n.has_children {
        (n, None)
    } else {
        match seg {
            SegV::Index(i) => {
                let m = scanned_to(b, opened(n), i as int);
                (m, if i < m.children.len() { Some(i as int) } else { None })
            },
            SegV::Key(k) => match key_test(k) {
                None => (opened(n), None),
                Some(t) => child_by_key(b, opened(n), t, 0),
            },
        }
    }
}

/// The path that the segments lead to below the node at `at`, if each names a
/// child, and the tree as far as it had to be opened and scanned.
pub open spec fn resolved(b: Seq<u8>, root: NodeV, at: Seq<usize>, segs: Seq<SegV>) -> (
    NodeV,
    Option<Seq<usize>>,
)
    decreases segs.len(),
{
    if segs.len() == 0 {
        (root, Some(at))
    } else {
        let (m, found) = child_by_segment(b, node_at(root, at), segs[0]);
        let root1 = grafted(root, at, m);
        match found {
            None => (root1, None),
            Some(i) => resolved(b, root1, at.push(i as usize), segs.skip(1)),
        }
    }
}

pub proof fn lemma_reachable_any(n: &Node, b1: Seq<u8>, b2: Seq<u8>, path: Seq<usize>)
    ensures
        reachable(n.model(b1), path) == reachable(n.model(b2), path),
    decreases path.len(),
{
    if path.len() > 0 && path[0] < n.children@.len() {
        lemma_reachable_any(&n.children@[path[0] as int], b1, b2, path.skip(1));
    }
}

pub proof fn lemma_node_at_wf(b: Seq<u8>, n: NodeV, path: Seq<usize>)
    requires
        node_wf(b, n),
        reachable(n, path),
    ensures
        node_wf(b, node_at(n, path)),
        path.len() > 0 ==> !node_at(n, path).jsonl,
    decreases path.len(),
{
    if path.len() > 0 {
        assert(!n.children[path[0] as int].jsonl && node_wf(b, n.children[path[0] as int]));
        lemma_node_at_wf(b, n.children[path[0] as int], path.skip(1));
    }
}

pub proof fn lemma_grafted_wf(b: Seq<u8>, n: NodeV, path: Seq<usize>, c: NodeV)
    requires
        node_wf(b, n),
        reachable(n, path),
        node_wf(b, c),
        c.jsonl == node_at(n, path).jsonl,
    ensures
        node_wf(b, grafted(n, path, c)),
        reachable(grafted(n, path, c), path),
        node_at(grafted(n, path, c), path) == c,
        grafted(n, path, c).jsonl == n.jsonl,
    decreases path.len(),
{
    if path.len() > 0 {
        let i = path[0] as int;
        assert(!n.children[i].jsonl && node_wf(b, n.children[i]));
        lemma_grafted_wf(b, n.children[i], path.skip(1), c);
        lemma_replace_child_wf(b, n, i, grafted(n.children[i], path.skip(1), c));
    }
}

pub proof fn lemma_reachable_push(n: NodeV, path: Seq<usize>, i: usize)
    requires
        reachable(n, path),
    ensures
        reachable(n, path.push(i)) == (i < node_at(n, path).children.len()),
        node_at(n, path.push(i)) == node_at(n, path).children[i as int],
    decreases path.len(),
{
    let longer = path.push(i);
    if path.len() > 0 {
        assert(longer.skip(1) =~= path.skip(1).push(i));
        lemma_reachable_push(n.children[path[0] as int], path.skip(1), i);
    } else {
        assert(longer.skip(1) =~= Seq::<usize>::empty());
        reveal_with_fuel(reachable, 2);
        reveal_with_fuel(node_at, 2);
    }
}

fn has_glob_mark(k: &str) -> (r: bool)
    ensures
        r == (k@.contains('*') || k@.contains('?')),
{
    let cs = chars_of(k);
    let mut i: usize = 0;
    while i < cs.len()
        invariant
            i <= cs@.len(),
            cs@ == k@,
            forall|j: int| 0 <= j < i ==> cs@[j] != '*' && cs@[j] != '?',
        decreases cs@.len() - i,
    {
        if cs[i] == '*' || cs[i] == '?' {
            assert(k@[i as int] == cs@[i as int]);
            return true;
        }
        i += 1;
    }
    false
}

impl Node {
    /// The first child from number `from` on whose label passes the test.
    fn find_child(&mut self, b: &[u8], key: &String, re: &Option<CaseInsensitive>) -> (r: Option<
        usize,
    >)
        requires
            old(self).wf(b@),
        ensures
            final(self).wf(b@),
            final(self).jsonl == old(self).jsonl,
            ({
                let t = match re {
                    Some(re) => KeyTest::Regex(re.source()),
                    None => KeyTest::Exact(key@),
                };
                let (m, found) = child_by_key(b@, old(self).model(b@), t, 0);
                &&& final(self).model(b@) == m
                &&& match r {
                    Some(i) => found == Some(i as int) && i < m.children.len(),
                    None => found is None,
                }
            }),
    {
        let ghost t = match re {
            Some(re) => KeyTest::Regex(re.source()),
            None => KeyTest::Exact(key@),
        };
        let ghost n0 = self.model(b@);
        let mut i: usize = 0;
        while i < GOTO_SCAN_CAP
            invariant
                n0 == old(self).model(b@),
                i <= GOTO_SCAN_CAP,
                self.wf(b@),
                self.jsonl == old(self).jsonl,
                t == (match re {
                    Some(re) => KeyTest::Regex(re.source()),
                    None => KeyTest::Exact(key@),
                }),
                child_by_key(b@, self.model(b@), t, i as int) == child_by_key(b@, n0, t, 0),
            decreases GOTO_SCAN_CAP - i,
        {
            proof {
                lemma_scanned_to_keeps(b@, self.model(b@), i as int);
            }
            self.ensure_child(b, i);
            if i >= self.children.len() {
                return None;
            }
            let hit = match re {
                Some(re) => re.is_match(self.children[i].label.as_str()),
                None => self.children[i].label == *key,
            };
            assert(self.model(b@).children[i as int] == self.children@[i as int].model(b@));
            assert(hit == key_hits(t, self.children@[i as int].label@));
            if hit {
                return Some(i);
            }
            i += 1;
        }
        None
    }

    /// The child that a segment names, opening and scanning this node as needed.
    fn find_segment(&mut self, b: &[u8], seg: &Seg) -> (r: Option<usize>)
        requires
            old(self).wf(b@),
        ensures
            final(self).wf(b@),
            final(self).jsonl == old(self).jsonl,
            ({
                let (m, found) = child_by_segment(b@, old(self).model(b@), seg@);
                &&& final(self).model(b@) == m
                &&& match r {
                    Some(i) => found == Some(i as int) && i < m.children.len(),
                    None => found is None,
                }
            }),
    {
        if !self.is_container() || !self.has_children {
            return None;
        }
        proof {
            lemma_toggled_wf(b@, self.model(b@));
        }
        if !self.expanded {
            self.toggle();  // sets up the child cursor, so that there is something to scan
        }
        match seg {
            Seg::Index(i) => {
                proof {
                    lemma_scanned_to_keeps(b@, self.model(b@), *i as int);
                }
                self.ensure_child(b, *i);
                if *i < self.children.len() {
                    Some(*i)
                } else {
                    None
                }
            },
            Seg::Key(k) => {
                // Glob keys (`*`, `?`) widen the lookup to the first child whose
                // label matches the whole pattern (`data.user*`).
                let re = if has_glob_mark(k.as_str()) {
                    let src = between("^", glob_to_regex(k.as_str()).as_str(), "$");
                    match CaseInsensitive::compile(src.as_str()) {
                        Ok(re) => Some(re),
                        Err(_) => {
                            return None;
                        },
                    }
                } else {
                    None
                };
                self.find_child(b, k, &re)
            },
        }
    }
}

/// Resolve parsed segments to an index path into `root`, starting from `base`
/// (the empty slice for an absolute path; the focused node's path, already
/// climbed, for a relative one), expanding and scanning each container as it
/// descends (so a collapsed level still resolves). Returns `None` if a segment
/// doesn't exist (missing key, out-of-range index, or a scalar hit mid-path).
pub fn resolve_path(root: &mut Node, b: &[u8], base: &[usize], segs: &[Seg]) -> (r: Option<
    Vec<usize>,
>)
    requires
        old(root).wf(b@),
        reachable(old(root).model(b@), base@),
    ensures
        final(root).wf(b@),
        final(root).jsonl == old(root).jsonl,
        ({
            let (m, found) = resolved(b@, old(root).model(b@), base@, seg_views(segs@));
            &&& final(root).model(b@) == m
            &&& match r {
                Some(p) => found == Some(p@) && reachable(m, p@),
                None => found is None,
            }
        }),
{
    let mut out: Vec<usize> = vstd::slice::slice_to_vec(base);
    let ghost all = seg_views(segs@);
    let ghost root0 = root.model(b@);
    let mut k: usize = 0;
    assert(all.skip(0) =~= all);
    while k < segs.len()
        invariant
            k <= segs@.len(),
            all == seg_views(segs@),
            root0 == old(root).model(b@),
            root.wf(b@),
            root.jsonl == old(root).jsonl,
            reachable(root.model(b@), out@),
            resolved(b@, root.model(b@), out@, all.skip(k as int)) == resolved(
                b@,
                root0,
                base@,
                all,
            ),
        decreases segs@.len() - k,
    {
        let ghost rest = all.skip(k as int);
        let ghost r0 = root.model(b@);
        proof {
            assert(rest.skip(1) =~= all.skip(k + 1));
            assert(rest[0] == segs@[k as int]@);
            lemma_node_at_wf(b@, r0, out@);
            assert forall|x: Seq<u8>| #[trigger] reachable(root.model(x), out@) by {
                lemma_reachable_any(root, b@, x, out@);
            }
        }
        let node = get_mut(root, out.as_slice());
        let found = node.find_segment(b, &segs[k]);
        proof {
            let (m, f) = child_by_segment(b@, node_at(r0, out@), rest[0]);
            lemma_grafted_wf(b@, r0, out@, m);
            assert(root.model(b@) == grafted(r0, out@, m));
            if let Some(i) = found {
                lemma_reachable_push(grafted(r0, out@, m), out@, i);
            }
        }
        match found {
            None => {
                return None;
            },
            Some(i) => {
                out.push(i);
            },
        }
        k += 1;
    }
    Some(out)
}

proof fn lemma_child_by_key_grown(b: Seq<u8>, n: NodeV, t: KeyTest, i: int)
    ensures
        grown(n, child_by_key(b, n, t, i).0),
        child_by_key(b, n, t, i).0.jsonl == n.jsonl,
        child_by_key(b, n, t, i).1 matches Some(k) ==> i <= k < GOTO_SCAN_CAP && k
            < child_by_key(b, n, t, i).0.children.len(),
    decreases GOTO_SCAN_CAP - i,
{
    lemma_grown_self(n);
    if i < GOTO_SCAN_CAP {
        let m = scanned_to(b, n, i);
        lemma_scanned_to_keeps(b, n, i);
        lemma_grown_scan(b, n, i);
        if i < m.children.len() && !key_hits(t, m.children[i].label) {
            lemma_child_by_key_grown(b, m, t, i + 1);
            lemma_grown_step(n, m, child_by_key(b, m, t, i + 1).0);
        }
    }
}

proof fn lemma_child_by_segment_grown(b: Seq<u8>, n: NodeV, seg: SegV)
    ensures
        grown(n, child_by_segment(b, n, seg).0),
        child_by_segment(b, n, seg).0.jsonl == n.jsonl,
        child_by_segment(b, n, seg).1 matches Some(k) ==> 0 <= k < usize::MAX + 1 && k
            < child_by_segment(b, n, seg).0.children.len(),
{
    let o = opened(n);
    lemma_grown_self(n);
    lemma_grown_toggled(n);
    if n.kind.is_container() && n.has_children {
        match seg {
            SegV::Index(i) => {
                lemma_scanned_to_keeps(b, o, i as int);
                lemma_grown_scan(b, o, i as int);
                lemma_grown_step(n, o, scanned_to(b, o, i as int));
            },
            SegV::Key(k) => if let Some(t) = key_test(k) {
                lemma_child_by_key_grown(b, o, t, 0);
                lemma_grown_step(n, o, child_by_key(b, o, t, 0).0);
            },
        }
    }
}

/// Resolving a path loses nothing of the tree: whatever could be reached before
/// can be reached afterwards, whether the path was found or not.
pub proof fn law_resolve_keeps_tree(b: Seq<u8>, root: NodeV, at: Seq<usize>, segs: Seq<SegV>)
    requires
        reachable(root, at),
    ensures
        grown(root, resolved(b, root, at, segs).0),
    decreases segs.len(),
{
    lemma_grown_self(root);
    if segs.len() > 0 {
        let (m, found) = child_by_segment(b, node_at(root, at), segs[0]);
        let root1 = grafted(root, at, m);
        lemma_child_by_segment_grown(b, node_at(root, at), segs[0]);
        lemma_grown_grafted(root, at, m);
        if let Some(i) = found {
            lemma_grafted_node_at(root, at, m);
            lemma_grown_reaches(root, root1, at);
            lemma_reachable_push(root1, at, i as usize);
            law_resolve_keeps_tree(b, root1, at.push(i as usize), segs.skip(1));
            lemma_grown_step(
                root,
                root1,
                resolved(b, root1, at.push(i as usize), segs.skip(1)).0,
            );
        }
    }
}

/// Climbing for a path loses nothing of the tree either.
pub proof fn law_climb_keeps_tree(
    b: Seq<u8>,
    root: NodeV,
    focus: Seq<usize>,
    up: Option<int>,
    segs: Seq<SegV>,
)
    requires
        reachable(root, focus),
        up matches Some(n) ==> 0 <= n,
    ensures
        grown(root, resolved_climbing(b, root, focus, up, segs).0),
{
    reveal(resolved_climbing);
    match up {
        None => {
            let m = resolved(b, root, Seq::empty(), segs).0;
            law_resolve_keeps_tree(b, root, Seq::empty(), segs);
            lemma_grown_reaches(root, m, focus);
            lemma_climb_keeps_tree(b, m, focus, focus.len() as int, 1, segs);
            lemma_grown_step(root, m, climbed(b, m, focus, focus.len() as int, 1, segs).0);
        },
        Some(n) => {
            let keep = if n <= focus.len() {
                focus.len() - n
            } else {
                0
            };
            lemma_climb_keeps_tree(b, root, focus, keep, 0, segs);
        },
    }
}

proof fn lemma_climb_keeps_tree(
    b: Seq<u8>,
    root: NodeV,
    focus: Seq<usize>,
    keep: int,
    low: int,
    segs: Seq<SegV>,
)
    requires
        reachable(root, focus),
        0 <= low,
        keep <= focus.len(),
    ensures
        grown(root, climbed(b, root, focus, keep, low, segs).0),
    decreases keep + 1 - low,
{
    lemma_grown_self(root);
    if keep >= low {
        lemma_reachable_prefix(root, focus, keep);
        law_resolve_keeps_tree(b, root, focus.take(keep), segs);
        let (m, found) = resolved(b, root, focus.take(keep), segs);
        if found is None {
            lemma_grown_reaches(root, m, focus);
            lemma_climb_keeps_tree(b, m, focus, keep - 1, low, segs);
            lemma_grown_step(root, m, climbed(b, m, focus, keep - 1, low, segs).0);
        }
    }
}

proof fn lemma_grafted_node_at(n: NodeV, path: Seq<usize>, c: NodeV)
    requires
        reachable(n, path),
    ensures
        node_at(grafted(n, path, c), path) == c,
    decreases path.len(),
{
    if path.len() > 0 {
        lemma_grafted_node_at(n.children[path[0] as int], path.skip(1), c);
    }
}

/// The first of the nodes at `focus`, cut down to `keep` steps and fewer, but no
/// fewer than `low`, below which the segments lead somewhere.
pub open spec fn climbed(
    b: Seq<u8>,
    root: NodeV,
    focus: Seq<usize>,
    keep: int,
    low: int,
    segs: Seq<SegV>,
) -> (NodeV, Option<Seq<usize>>)
    decreases keep + 1 - low,
{
    if keep < low {
        (root, None)
    } else {
        let (m, found) = resolved(b, root, focus.take(keep), segs);
        if found is Some {
            (m, found)
        } else {
            climbed(b, m, focus, keep - 1, low, segs)
        }
    }
}

/// Where a parsed path leads from `focus`. An absolute path is tried at the root
/// first, and then at the focus and each node above it; a relative one at the
/// node it climbs to and each node above that.
#[verifier::opaque]
pub open spec fn resolved_climbing(
    b: Seq<u8>,
    root: NodeV,
    focus: Seq<usize>,
    up: Option<int>,
    segs: Seq<SegV>,
) -> (NodeV, Option<Seq<usize>>) {
    match up {
        None => {
            let (m, found) = resolved(b, root, Seq::empty(), segs);
            if found is Some {
                (m, found)
            } else {
                climbed(b, m, focus, focus.len() as int, 1, segs)
            }
        },
        Some(n) => climbed(
            b,
            root,
            focus,
            if n <= focus.len() {
                focus.len() - n
            } else {
                0
            },
            0,
            segs,
        ),
    }
}

pub proof fn lemma_reachable_prefix(n: NodeV, path: Seq<usize>, k: int)
    requires
        reachable(n, path),
        0 <= k <= path.len(),
    ensures
        reachable(n, path.take(k)),
    decreases path.len(),
{
    if k > 0 {
        assert(path.take(k).skip(1) =~= path.skip(1).take(k - 1));
        lemma_reachable_prefix(n.children[path[0] as int], path.skip(1), k - 1);
    }
}

/// Resolve `parsed`, climbing toward the root on a miss so a path that doesn't
/// exist where it was typed still lands if it exists higher up. The candidate
/// bases, tried in order, are:
/// - absolute (`up == None`): the root first (the literal reading), then the
///   focused node's ancestry from the cursor up.
/// - relative (`up == Some(n)`): the cursor climbed `n` levels (the level you
///   asked for), then each ancestor above it up to the root.
///
/// Returns the first base at which every segment resolves, or `None` if none do.
pub fn resolve_with_climb(
    root: &mut Node,
    b: &[u8],
    focus_path: &[usize],
    parsed: &ParsedPath,
) -> (r: Option<Vec<usize>>)
    requires
        old(root).wf(b@),
        reachable(old(root).model(b@), focus_path@),
    ensures
        final(root).wf(b@),
        final(root).jsonl == old(root).jsonl,
        ({
            let (up, segs) = parsed.model();
            let (m, found) = resolved_climbing(
                b@,
                old(root).model(b@),
                focus_path@,
                up,
                segs,
            );
            &&& final(root).model(b@) == m
            &&& match r {
                Some(p) => found == Some(p@) && reachable(m, p@),
                None => found is None,
            }
        }),
{
    proof {
        reveal(resolved_climbing);
    }
    let ghost segs = seg_views(parsed.segs@);
    let ghost root0 = root.model(b@);
    let ghost whole = resolved_climbing(b@, root0, focus_path@, parsed.model().0, segs);
    let mut keep: usize = focus_path.len();
    let mut low: usize = 0;
    match parsed.up {
        None => {
            // Literal absolute, from the root. The climb need not try it again.
            let base: Vec<usize> = Vec::new();
            assert(base@ =~= Seq::empty());
            let found = resolve_path(root, b, base.as_slice(), parsed.segs.as_slice());
            if found.is_some() {
                return found;
            }
            proof {
                law_resolve_keeps_tree(b@, root0, base@, segs);
                lemma_grown_reaches(root0, root.model(b@), focus_path@);
            }
            low = 1;
        },
        Some(n) => {
            keep = if n <= keep {
                keep - n
            } else {
                0
            };
        },
    }
    loop
        invariant
            root.wf(b@),
            root.jsonl == old(root).jsonl,
            keep <= focus_path@.len(),
            low <= 1,
            segs == seg_views(parsed.segs@),
            reachable(root.model(b@), focus_path@),
            whole == climbed(b@, root.model(b@), focus_path@, keep as int, low as int, segs),
            whole == resolved_climbing(
                b@,
                old(root).model(b@),
                focus_path@,
                parsed.model().0,
                segs,
            ),
        decreases keep,
    {
        if keep < low {
            return None;
        }
        let ghost r0 = root.model(b@);
        let base: &[usize] = vstd::slice::slice_subrange(focus_path, 0, keep);
        proof {
            assert(base@ =~= focus_path@.take(keep as int));
            lemma_reachable_prefix(r0, focus_path@, keep as int);
        }
        let found = resolve_path(root, b, base, parsed.segs.as_slice());
        if found.is_some() {
            return found;
        }
        proof {
            law_resolve_keeps_tree(b@, r0, base@, segs);
            lemma_grown_reaches(r0, root.model(b@), focus_path@);
        }
        if keep == 0 {
            proof {
                reveal_with_fuel(climbed, 2);
            }
            return None;
        }
        keep -= 1;
    }
}

// ---------------------------------------------------------------------------
// Reading a path back
// ---------------------------------------------------------------------------
/// A key that stands in a path as it is: nothing in it separates segments, starts a
/// path or is trimmed away.
pub open spec fn plain_key(k: Seq<char>) -> bool {
    &&& k.len() > 0
    &&& forall|i: int|
        0 <= i < k.len() ==> (#[trigger] k[i]) != '.' && k[i] != '[' && k[i] != '$'
            && !white_space(k[i])
}

pub open spec fn plain_segment(g: SegV) -> bool {
    g matches SegV::Key(k) ==> plain_key(k)
}

/// A segment as a path text holds it: an index in decimal.
pub open spec fn written(g: SegV) -> (Seq<char>, bool) {
    match g {
        SegV::Key(k) => (k, false),
        SegV::Index(i) => (decimal(i as nat), true),
    }
}

pub open spec fn all_written(gs: Seq<SegV>) -> Seq<(Seq<char>, bool)> {
    Seq::new(gs.len(), |i: int| written(gs[i]))
}

/// What a segment adds to a path text.
spec fn added(g: SegV, first: bool) -> Seq<char> {
    match g {
        SegV::Index(i) => "["@ + decimal(i as nat) + "]"@,
        SegV::Key(k) => if first {
            k
        } else {
            "."@ + k
        },
    }
}

/// What lies before the place where segments are read does not matter.
proof fn lemma_segments_shift(p: Seq<char>, s: Seq<char>, i: int, key: Seq<char>)
    requires
        0 <= i <= s.len(),
    ensures
        segments_from(p + s, p.len() + i, key) == segments_from(s, i, key),
    decreases s.len() - i,
{
    let t = p + s;
    if i < s.len() {
        assert(t[p.len() + i] == s[i]);
        if s[i] == '.' {
            lemma_segments_shift(p, s, i + 1, Seq::empty());
        } else if s[i] == '[' {
            lemma_bracket_shift(p, s, i + 1);
            lemma_bracket_bound(s, i + 1);
            let j = bracket_end(s, i + 1);
            assert(t.subrange(p.len() + i + 1, p.len() + j) =~= s.subrange(i + 1, j));
            if j < s.len() {
                lemma_segments_shift(p, s, j + 1, Seq::empty());
            }
        } else {
            lemma_segments_shift(p, s, i + 1, key.push(s[i]));
        }
    }
}

proof fn lemma_bracket_shift(p: Seq<char>, s: Seq<char>, i: int)
    requires
        0 <= i <= s.len(),
    ensures
        bracket_end(p + s, p.len() + i) == p.len() + bracket_end(s, i),
    decreases s.len() - i,
{
    if i < s.len() {
        assert((p + s)[p.len() + i] == s[i]);
        if s[i] != ']' {
            lemma_bracket_shift(p, s, i + 1);
        }
    }
}

proof fn lemma_bracket_bound(s: Seq<char>, i: int)
    requires
        0 <= i <= s.len(),
    ensures
        i <= bracket_end(s, i) <= s.len(),
    decreases s.len() - i,
{
    if i < s.len() && s[i] != ']' {
        lemma_bracket_bound(s, i + 1);
    }
}

/// The bracket that was opened in front of a run of digits closes behind it.
proof fn lemma_digits_bracket(s: Seq<char>, i: int, n: int)
    requires
        0 <= i <= n < s.len(),
        forall|k: int| i <= k < n ==> is_digit(#[trigger] s[k]),
        s[n] == ']',
    ensures
        bracket_end(s, i) == n,
    decreases n - i,
{
    if i < n {
        assert(is_digit(s[i]));
        lemma_digits_bracket(s, i + 1, n);
    }
}

proof fn lemma_bracketed_index(i: usize)
    ensures
        bracket_segment(decimal(i as nat)) == SegV::Index(i),
{
    let d = decimal(i as nat);
    lemma_decimal(i as nat);
    assert(is_digit(d[0]) && is_digit(d[d.len() - 1]));
    assert(trimmed_start(d) == d);
    assert(trimmed(d) == d);
    assert(unquoted_end(unquoted_start(d)) == d);
}

/// A plain key is read as far as it goes.
proof fn lemma_key_read(s: Seq<char>, i: int, k: Seq<char>, done: int)
    requires
        plain_key(k),
        0 <= done <= k.len(),
        0 <= i,
        i + k.len() <= s.len(),
        s.subrange(i, i + k.len()) == k,
    ensures
        segments_from(s, i + done, k.take(done)) == segments_from(s, i + k.len(), k),
    decreases k.len() - done,
{
    if done < k.len() {
        assert(s[i + done] == s.subrange(i, i + k.len())[done]);
        assert(k[done] != '.');
        assert(k.take(done).push(k[done]) =~= k.take(done + 1));
        lemma_key_read(s, i, k, done + 1);
    } else {
        assert(k.take(done) =~= k);
    }
}

/// One segment, and a rest that begins another or is empty.
proof fn lemma_segment_read(g: SegV, first: bool, u: Seq<char>)
    requires
        plain_segment(g),
        u.len() == 0 || u[0] == '.' || u[0] == '[',
    ensures
        segments_from(added(g, first) + u, 0, Seq::empty()) == seq![g] + segments_from(
            u,
            0,
            Seq::empty(),
        ),
{
    reveal_strlit("[");
    reveal_strlit("]");
    reveal_strlit(".");
    let a = added(g, first);
    let s = a + u;
    let none = Seq::<char>::empty();
    match g {
        SegV::Index(n) => {
            let d = decimal(n as nat);
            lemma_decimal(n as nat);
            assert(a.len() == d.len() + 2);
            assert(s[0] == '[');
            assert forall|k: int| 1 <= k < d.len() + 1 implies is_digit(#[trigger] s[k]) by {
                assert(s[k] == d[k - 1]);
            }
            assert(s[d.len() as int + 1] == ']');
            lemma_digits_bracket(s, 1, d.len() as int + 1);
            assert(s.subrange(1, d.len() as int + 1) =~= d);
            lemma_bracketed_index(n);
            lemma_segments_shift(a, u, 0, none);
            assert(segments_from(s, 0, none) =~= seq![g] + segments_from(
                s,
                a.len() as int,
                none,
            ));
        },
        SegV::Key(k) => {
            let from: int = if first {
                0
            } else {
                1
            };
            assert(s.subrange(from, from + k.len()) =~= k);
            assert(k.take(0) =~= none);
            lemma_key_read(s, from, k, 0);
            assert(segments_from(s, 0, none) =~= segments_from(s, from, none)) by {
                if !first {
                    assert(s[0] == '.');
                    assert(pending_key(none) + segments_from(s, 1, none) =~= segments_from(
                        s,
                        1,
                        none,
                    ));
                }
            }
            assert(a.len() == from + k.len());
            // Here the key ends, at whatever comes behind it.
            let at = a.len() as int;
            lemma_segments_shift(a, u, 0, k);
            if u.len() == 0 {
                assert(segments_from(u, 0, none) == Seq::<SegV>::empty());
                assert(seq![g] + Seq::<SegV>::empty() =~= seq![g]);
            } else if u[0] == '.' {
                assert(segments_from(u, 0, none) =~= segments_from(u, 1, none));
            } else {
                let j = bracket_end(u, 1);
                let rest = if 0 < j < u.len() {
                    segments_from(u, j + 1, none)
                } else {
                    Seq::empty()
                };
                let b = seq![bracket_segment(u.subrange(1, j))];
                assert(segments_from(u, 0, k) == seq![g] + b + rest);
                assert(segments_from(u, 0, none) =~= b + rest);
                assert(seq![g] + b + rest =~= seq![g] + (b + rest));
            }
        },
    }
}

proof fn lemma_accessor_step(gs: Seq<SegV>)
    requires
        gs.len() > 0,
        forall|i: int| 0 <= i < gs.len() ==> plain_segment(#[trigger] gs[i]),
    ensures
        accessor(""@, all_written(gs)) == accessor(""@, all_written(gs.drop_last())) + added(
            gs.last(),
            gs.len() == 1,
        ),
        accessor(""@, all_written(gs)).len() > 0,
    decreases gs.len(),
{
    reveal_strlit("");
    reveal_strlit("[");
    let w = all_written(gs);
    let pre = gs.drop_last();
    assert(w.drop_last() =~= all_written(pre));
    assert(plain_segment(gs.last()));
    let before = accessor(""@, all_written(pre));
    if pre.len() > 0 {
        assert forall|i: int| 0 <= i < pre.len() implies plain_segment(#[trigger] pre[i]) by {
            assert(pre[i] == gs[i]);
        }
        lemma_accessor_step(pre);
    }
    assert(accessor(""@, w) =~= before + added(gs.last(), gs.len() == 1));
}

proof fn lemma_path_read(gs: Seq<SegV>, u: Seq<char>)
    requires
        forall|i: int| 0 <= i < gs.len() ==> plain_segment(#[trigger] gs[i]),
        u.len() == 0 || u[0] == '.' || u[0] == '[' || gs.len() == 0,
    ensures
        segments_from(accessor(""@, all_written(gs)) + u, 0, Seq::empty()) == gs + segments_from(
            u,
            0,
            Seq::empty(),
        ),
    decreases gs.len(),
{
    reveal_strlit("");
    reveal_strlit("[");
    reveal_strlit(".");
    let t = accessor(""@, all_written(gs));
    if gs.len() == 0 {
        assert(t + u =~= u);
        assert(gs + segments_from(u, 0, Seq::empty()) =~= segments_from(u, 0, Seq::empty()));
    } else {
        let pre = gs.drop_last();
        let g = gs.last();
        let first = gs.len() == 1;
        assert(plain_segment(g));
        assert forall|i: int| 0 <= i < pre.len() implies plain_segment(#[trigger] pre[i]) by {
            assert(pre[i] == gs[i]);
        }
        lemma_accessor_step(gs);
        let before = accessor(""@, all_written(pre));
        let more = added(g, first) + u;
        assert(t + u =~= before + more);
        lemma_path_read(pre, more);
        lemma_segment_read(g, first, u);
        assert(pre + (seq![g] + segments_from(u, 0, Seq::empty())) =~= gs + segments_from(
            u,
            0,
            Seq::empty(),
        ));
    }
}

proof fn lemma_accessor_ends(gs: Seq<SegV>)
    requires
        gs.len() > 0,
        forall|i: int| 0 <= i < gs.len() ==> plain_segment(#[trigger] gs[i]),
    ensures
        ({
            let t = accessor(""@, all_written(gs));
            &&& t.len() > 0
            &&& !white_space(t[0]) && t[0] != '$' && t[0] != '.'
            &&& !white_space(t.last())
        }),
    decreases gs.len(),
{
    reveal_strlit("");
    reveal_strlit("[");
    reveal_strlit("]");
    reveal_strlit(".");
    lemma_accessor_step(gs);
    let pre = gs.drop_last();
    let g = gs.last();
    let first = gs.len() == 1;
    assert(plain_segment(g));
    let a = added(g, first);
    match g {
        SegV::Index(i) => {
            lemma_decimal(i as nat);
            assert(a[0] == '[' && a.last() == ']');
        },
        SegV::Key(k) => {
            assert(k[0] != '.' && !white_space(k[0]) && k[0] != '$');
            assert(!white_space(k[k.len() - 1]));
            assert(a.last() == k.last());
        },
    }
    let t = accessor(""@, all_written(gs));
    assert(t.last() == a.last());
    if first {
        assert(accessor(""@, all_written(pre)) =~= Seq::empty());
        assert(t =~= a);
    } else {
        assert forall|i: int| 0 <= i < pre.len() implies plain_segment(#[trigger] pre[i]) by {
            assert(pre[i] == gs[i]);
        }
        lemma_accessor_ends(pre);
        assert(t[0] == accessor(""@, all_written(pre))[0]);
    }
}

/// A path that is copied reads back as the path that it is: its keys, as far as they
/// are plain, and its indices.
pub proof fn law_path_reads_back(gs: Seq<SegV>)
    requires
        gs.len() > 0,
        forall|i: int| 0 <= i < gs.len() ==> plain_segment(#[trigger] gs[i]),
    ensures
        parsed_path(path_title(""@, all_written(gs))) == (None::<int>, gs),
{
    let t = accessor(""@, all_written(gs));
    lemma_accessor_ends(gs);
    assert(path_title(""@, all_written(gs)) == t);
    assert(trimmed_start(t) == t);
    assert(trimmed(t) == t);
    lemma_path_read(gs, Seq::empty());
    assert(t + Seq::<char>::empty() =~= t);
    assert(segments_from(Seq::empty(), 0, Seq::empty()) == Seq::<SegV>::empty());
    assert(gs + Seq::<SegV>::empty() =~= gs);
}

/// So many dots.
pub open spec fn dots(n: nat) -> Seq<char> {
    Seq::new(n, |i: int| '.')
}

proof fn lemma_leading_dots(n: nat, t: Seq<char>)
    requires
        t.len() == 0 || t[0] != '.',
    ensures
        leading_dots(dots(n) + t) == n,
    decreases n,
{
    let s = dots(n) + t;
    if n > 0 {
        assert(s.skip(1) =~= dots((n - 1) as nat) + t);
        lemma_leading_dots((n - 1) as nat, t);
    } else {
        assert(s =~= t);
    }
}

/// The same path behind dots is a relative one: one dot starts at the cursor, and each
/// further dot climbs one level.
pub proof fn law_dots_climb(gs: Seq<SegV>, n: nat)
    requires
        n > 0,
        gs.len() > 0,
        forall|i: int| 0 <= i < gs.len() ==> plain_segment(#[trigger] gs[i]),
    ensures
        parsed_path(dots(n) + path_title(""@, all_written(gs))) == (Some(n - 1), gs),
{
    let t = accessor(""@, all_written(gs));
    law_path_reads_back(gs);
    lemma_accessor_ends(gs);
    let s = dots(n) + t;
    assert(s[0] == '.' && s.last() == t.last());
    assert(trimmed_start(s) == s);
    assert(trimmed(s) == s);
    lemma_leading_dots(n, t);
    assert(s.skip(n as int) =~= t);
    assert(trimmed_start(t) == t && trimmed(t) == t);
}

/// Dots alone climb, and name nothing.
pub proof fn law_dots_alone(n: nat)
    requires
        n > 0,
    ensures
        parsed_path(dots(n)) == (Some(n - 1), Seq::<SegV>::empty()),
{
    let s = dots(n);
    assert(s[0] == '.' && s.last() == '.');
    assert(trimmed_start(s) == s);
    assert(trimmed(s) == s);
    lemma_leading_dots(n, Seq::empty());
    assert(s + Seq::<char>::empty() =~= s);
    assert(s.skip(n as int) =~= Seq::<char>::empty());
}

/// The same path behind a `$`, with a dot or without, is the absolute path.
pub proof fn law_dollar_is_the_root(gs: Seq<SegV>)
    requires
        gs.len() > 0,
        forall|i: int| 0 <= i < gs.len() ==> plain_segment(#[trigger] gs[i]),
    ensures
        parsed_path(seq!['$'] + path_title(""@, all_written(gs))) == (None::<int>, gs),
        parsed_path(seq!['$', '.'] + path_title(""@, all_written(gs))) == (None::<int>, gs),
{
    let t = accessor(""@, all_written(gs));
    law_path_reads_back(gs);
    lemma_accessor_ends(gs);
    assert(trimmed_start(t) == t && trimmed(t) == t);
    let x = seq!['$'] + t;
    assert(x[0] == '$' && x[1] == t[0] && x.last() == t.last());
    assert(trimmed_start(x) == x && trimmed(x) == x);
    assert(x.skip(1) =~= t);
    let y = seq!['$', '.'] + t;
    assert(y[0] == '$' && y[1] == '.' && y.last() == t.last());
    assert(trimmed_start(y) == y && trimmed(y) == y);
    assert(y.skip(2) =~= t);
}

} // verus!
