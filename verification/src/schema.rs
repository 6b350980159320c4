//! JSON to structural type inference for the `t` schema overlay.
//!
//! Instead of a flat table of paths, this samples a value's bytes and merges
//! them into one recursive type, the way a "JSON to TypeScript" tool does:
//! object shapes are unified (a key missing from some samples becomes optional),
//! array elements and map values are unified into a single element type, mixed
//! scalars become unions, and a data-keyed object becomes `Record<string, T>`.
//! It is rendered TypeScript-style as a foldable outline (each object block
//! collapses to `{…}`) and is copyable in full. The same type also drives the
//! `T` table view's columns (see [`columns`]), so the grid and the schema can
//! never disagree about a document's shape.
//!
//! Zero-copy: it reads byte ranges through the scanner's `Cursor` and never
//! materializes a value. Bounded by sampling caps and a global node budget, so it
//! stays cheap on huge, deeply-nested data.

pub use crate::columns::{columns, Column};
pub use crate::outline::{
    node_mut, outline, render, rows, set_all_open, to_source, Outline, Row,
};
use crate::filter::{
    elements, first_children, lemma_child_value_wf, lemma_level_of_wf, value_of, value_wf, ValueV,
};
use crate::names::{lemma_name_position, name_position, NameIndex};
use crate::scanner::{
    addressable, children_from, lemma_next_child, level_of, level_of_lines, ChildV, Cursor, Kind,
};
use crate::text::{chars_of, float_text, is_float_text};
use crate::tree::value_range;
use vstd::prelude::*;

verus! {

/// Top-level array/map entries sampled.
pub const TOP_SAMPLE: usize = 2000;

/// Entries sampled per nested array/map.
pub const NESTED_CAP: usize = 128;

/// Keys read per object.
pub const KEY_CAP: usize = 512;

/// Total values inferred before the walk stops descending (runaway guard).
pub const NODE_BUDGET: usize = 300_000;

/// Deepest nesting inferred.
pub const MAX_DEPTH: usize = 24;

// ---------------------------------------------------------------------------
// Map detection (value-shape and key-shape based)
// ---------------------------------------------------------------------------
/// Values probed to decide whether an object is a data-keyed map.
pub const MAP_PROBE: usize = 48;

/// Keys sampled per probed object value.
pub const MAP_KEY_CAP: usize = 32;

/// Object values needed before shape-similarity can call an object a map.
pub const MAP_MIN_OBJ: usize = 3;

/// Key-set self-similarity (percent) for an object map.
pub const MAP_SIMILARITY_PCT: usize = 70;

/// Value-kind homogeneity (percent) required for a map.
pub const MAP_RATIO_PCT: usize = 80;

/// Share (percent) of keys that must be non-identifier (data-like) for the
/// key-shape signal to fire: the strong tell that keys are values, not fields.
pub const MAP_DATAKEY_PCT: usize = 60;

/// The key type of a [`Type::Dict`].
#[derive(Debug, PartialEq, Eq, Clone, Copy, Structural)]
pub enum MapKey {
    Str,
    Num,
}

pub open spec fn ascii_letter(c: char) -> bool {
    'a' <= c <= 'z' || 'A' <= c <= 'Z'
}

/// Whether a key looks like a normal field name: a letter or an underscore, and
/// then letters, digits and underscores.
pub open spec fn ident_key(k: Seq<char>) -> bool {
    &&& k.len() > 0
    &&& ascii_letter(k[0]) || k[0] == '_'
    &&& forall|i: int|
        1 <= i < k.len() ==> ascii_letter(#[trigger] k[i]) || '0' <= k[i] <= '9' || k[i] == '_'
}

/// Whether a key looks like a normal field name. Numeric, delimited
/// (`DNSE|STOCK`), or dotted keys are not identifiers: a strong sign they're data.
fn is_ident_key(k: &str) -> (r: bool)
    ensures
        r == ident_key(k@),
{
    let cs = chars_of(k);
    let mut i: usize = 0;
    while i < cs.len()
        invariant
            cs@ == k@,
            i <= cs@.len(),
            i > 0 ==> ascii_letter(cs@[0]) || cs@[0] == '_',
            forall|j: int|
                1 <= j < i ==> ascii_letter(#[trigger] cs@[j]) || '0' <= cs@[j] <= '9' || cs@[j]
                    == '_',
        decreases cs@.len() - i,
    {
        let c: char = cs[i];
        let letter = ('a' <= c && c <= 'z') || ('A' <= c && c <= 'Z') || c == '_';
        if !letter && !(i > 0 && '0' <= c && c <= '9') {
            return false;
        }
        i += 1;
    }
    cs.len() > 0
}

/// How many of the children satisfy `p`.
pub open spec fn how_many(cs: Seq<ChildV>, p: spec_fn(ChildV) -> bool) -> int
    decreases cs.len(),
{
    if cs.len() == 0 {
        0
    } else {
        how_many(cs.drop_last(), p) + (if p(cs.last()) {
            1int
        } else {
            0
        })
    }
}

/// The labels of the children.
pub open spec fn labels(cs: Seq<ChildV>) -> Seq<Seq<char>> {
    Seq::new(cs.len(), |i: int| cs[i].label)
}

/// The names in order of their first appearance, each once.
pub open spec fn distinct(names: Seq<Seq<char>>) -> Seq<Seq<char>>
    decreases names.len(),
{
    if names.len() == 0 {
        Seq::empty()
    } else {
        let d = distinct(names.drop_last());
        if name_position(d, names.last(), 0) is Some {
            d
        } else {
            d.push(names.last())
        }
    }
}

pub open spec fn tally_names(t: Seq<(Seq<char>, int)>) -> Seq<Seq<char>> {
    Seq::new(t.len(), |i: int| t[i].0)
}

/// The tally with one more occurrence of `name`.
pub open spec fn bumped(t: Seq<(Seq<char>, int)>, name: Seq<char>) -> Seq<(Seq<char>, int)> {
    match name_position(tally_names(t), name, 0) {
        Some(i) => t.update(i, (name, t[i].1 + 1)),
        None => t.push((name, 1)),
    }
}

/// The tally with one more occurrence of each of the names.
pub open spec fn bumped_all(t: Seq<(Seq<char>, int)>, names: Seq<Seq<char>>) -> Seq<
    (Seq<char>, int),
>
    decreases names.len(),
{
    if names.len() == 0 {
        t
    } else {
        bumped(bumped_all(t, names.drop_last()), names.last())
    }
}

/// The distinct keys among the first ones of an object.
pub open spec fn sample_keys(b: Seq<u8>, v: ValueV) -> Seq<Seq<char>> {
    distinct(
        labels(
            first_children(
                children_from(b, level_of(v.start, v.end, false)),
                MAP_KEY_CAP as int,
            ),
        ),
    )
}

/// How many of the objects among the children have each key.
pub open spec fn key_tally(b: Seq<u8>, cs: Seq<ChildV>) -> Seq<(Seq<char>, int)>
    decreases cs.len(),
{
    if cs.len() == 0 {
        Seq::empty()
    } else {
        let t = key_tally(b, cs.drop_last());
        if cs.last().kind is Object {
            bumped_all(t, sample_keys(b, value_of(cs.last())))
        } else {
            t
        }
    }
}

pub open spec fn tally_sum(t: Seq<(Seq<char>, int)>) -> int
    decreases t.len(),
{
    if t.len() == 0 {
        0
    } else {
        tally_sum(t.drop_last()) + t.last().1
    }
}

pub open spec fn tally_square_sum(t: Seq<(Seq<char>, int)>) -> int
    decreases t.len(),
{
    if t.len() == 0 {
        0
    } else {
        tally_square_sum(t.drop_last()) + t.last().1 * t.last().1
    }
}

pub open spec fn max_of(x: int, y: int) -> int {
    if x >= y {
        x
    } else {
        y
    }
}

/// How many of the children belong to the most frequent class of values.
pub open spec fn dominant_kind(cs: Seq<ChildV>) -> int {
    max_of(
        how_many(cs, |c: ChildV| c.kind is Object),
        max_of(
            how_many(cs, |c: ChildV| c.kind is Array),
            max_of(
                how_many(cs, |c: ChildV| c.kind is Str),
                max_of(
                    how_many(cs, |c: ChildV| c.kind is Number),
                    how_many(cs, |c: ChildV| c.kind is Bool || c.kind is Null),
                ),
            ),
        ),
    )
}

/// Whether most of the children are objects whose key sets look alike. With `f`
/// the number of objects that have a key, the score is (Σf²/Σf) over the number
/// of objects: 1 when every object has every key.
pub open spec fn objects_alike(b: Seq<u8>, cs: Seq<ChildV>) -> bool {
    let objects = how_many(cs, |c: ChildV| c.kind is Object);
    let t = key_tally(b, cs);
    &&& objects >= MAP_MIN_OBJ
    &&& objects * 100 >= cs.len() * MAP_RATIO_PCT
    &&& tally_sum(t) > 0
    &&& tally_square_sum(t) * 100 >= tally_sum(t) * objects * MAP_SIMILARITY_PCT
}

/// Whether most of the keys are no identifiers.
pub open spec fn data_keyed(cs: Seq<ChildV>) -> bool {
    how_many(cs, |c: ChildV| !ident_key(c.label)) * 100 >= cs.len() * MAP_DATAKEY_PCT
}

/// The key type of an object that reads as a data-keyed map: one whose values
/// are of one kind, and whose keys are data or whose values are objects alike.
/// The keys are numbers where every one of them reads as a number.
pub open spec fn map_key(b: Seq<u8>, start: int, end: int) -> Option<MapKey> {
    let cs = first_children(children_from(b, level_of(start, end, false)), MAP_PROBE as int);
    let n = cs.len();
    if n == 0 || dominant_kind(cs) * 100 < n * MAP_RATIO_PCT {
        None
    } else if objects_alike(b, cs) || data_keyed(cs) {
        if how_many(cs, |c: ChildV| float_text(c.label)) == n {
            Some(MapKey::Num)
        } else {
            Some(MapKey::Str)
        }
    } else {
        None
    }
}

/// A count per name.
struct Tally {
    index: NameIndex,
    counts: Vec<usize>,
}

impl Tally {
    spec fn model(&self) -> Seq<(Seq<char>, int)> {
        Seq::new(self.counts@.len(), |i: int| (self.index.names()[i], self.counts@[i] as int))
    }

    spec fn wf(&self) -> bool {
        self.index.wf() && self.index.names().len() == self.counts@.len()
    }

    fn new() -> (r: Tally)
        ensures
            r.wf(),
            r.model() == Seq::<(Seq<char>, int)>::empty(),
            r.counts@.len() == 0,
    {
        let r = Tally { index: NameIndex::new(), counts: Vec::new() };
        assert(r.model() =~= Seq::empty());
        r
    }

    fn bump(&mut self, name: String)
        requires
            old(self).wf(),
            tally_sum(old(self).model()) < usize::MAX,
        ensures
            final(self).wf(),
            final(self).model() == bumped(old(self).model(), name@),
            tally_sum(final(self).model()) == tally_sum(old(self).model()) + 1,
            final(self).counts@.len() <= old(self).counts@.len() + 1,
    {
        let ghost t = self.model();
        assert(tally_names(t) =~= self.index.names());
        match self.index.position(name.as_str()) {
            Some(i) => {
                proof {
                    lemma_tally_at(t, i as int);
                    lemma_name_position(tally_names(t), name@, 0);
                    lemma_tally_update(t, i as int, (name@, t[i as int].1 + 1));
                }
                self.counts[i] = self.counts[i] + 1;
                assert(self.model() =~= bumped(t, name@));
            },
            None => {
                let n: usize = self.counts.len();
                let ghost k = name@;
                self.index.push(name, n);
                self.counts.push(1);
                proof {
                    assert(self.model() =~= t.push((k, 1int)));
                    assert(t.push((k, 1int)).drop_last() =~= t);
                }
            },
        }
    }
}

spec fn tally_counts(t: Seq<(Seq<char>, int)>) -> bool {
    forall|i: int| 0 <= i < t.len() ==> (#[trigger] t[i]).1 >= 0
}

proof fn lemma_tally_at(t: Seq<(Seq<char>, int)>, i: int)
    requires
        0 <= i < t.len(),
        tally_counts(t),
    ensures
        t[i].1 <= tally_sum(t),
        tally_sum(t) >= 0,
    decreases t.len(),
{
    let d = t.drop_last();
    assert(forall|k: int| 0 <= k < d.len() ==> #[trigger] d[k] == t[k]);
    assert(t[t.len() - 1].1 >= 0);
    if i < d.len() {
        lemma_tally_at(d, i);
        assert(d[i] == t[i]);
    } else if d.len() > 0 {
        lemma_tally_at(d, 0);
    }
}

proof fn lemma_tally_update(t: Seq<(Seq<char>, int)>, i: int, x: (Seq<char>, int))
    requires
        0 <= i < t.len(),
    ensures
        tally_sum(t.update(i, x)) == tally_sum(t) - t[i].1 + x.1,
    decreases t.len(),
{
    let u = t.update(i, x);
    if i == t.len() - 1 {
        assert(u.drop_last() =~= t.drop_last());
    } else {
        assert(u.drop_last() =~= t.drop_last().update(i, x));
        lemma_tally_update(t.drop_last(), i, x);
    }
}

/// Count each distinct key among the first ones of an object.
fn tally_keys(b: &[u8], start: usize, end: usize, tally: &mut Tally)
    requires
        value_range(b@, start as int, end as int, Kind::Object),
        old(tally).wf(),
        tally_sum(old(tally).model()) + MAP_KEY_CAP < usize::MAX,
    ensures
        final(tally).wf(),
        final(tally).model() == bumped_all(
            old(tally).model(),
            sample_keys(b@, ValueV { start: start as int, end: end as int, kind: Kind::Object }),
        ),
        tally_sum(final(tally).model()) <= tally_sum(old(tally).model()) + MAP_KEY_CAP,
        final(tally).counts@.len() <= old(tally).counts@.len() + MAP_KEY_CAP,
{
    let ghost v = ValueV { start: start as int, end: end as int, kind: Kind::Object };
    let ghost all = children_from(b@, level_of(start as int, end as int, false));
    let ghost cs = first_children(all, MAP_KEY_CAP as int);
    let ghost t0 = tally.model();
    let ghost n0 = tally.counts@.len();
    let ghost ls = labels(cs);
    let mut seen = NameIndex::new();
    let mut n_seen: usize = 0;
    let mut cur = Cursor::new(start, end, false);
    let mut i: usize = 0;
    proof {
        lemma_level_of_wf(b@, v);
        assert(all.skip(0) =~= all);
        assert(ls.take(0) =~= Seq::empty());
    }
    while i < MAP_KEY_CAP
        invariant
            addressable(b@),
            cur.wf(b@),
            i <= MAP_KEY_CAP,
            i <= all.len(),
            cs == first_children(all, MAP_KEY_CAP as int),
            ls == labels(cs),
            cur.model(b@).level.index == i,
            children_from(b@, cur.model(b@).level) == all.skip(i as int),
            i == MAP_KEY_CAP ==> ls.take(i as int) == ls,
            tally.counts@.len() <= n0 + n_seen,
            seen.wf(),
            seen.names() == distinct(ls.take(i as int)),
            n_seen == seen.names().len(),
            n_seen <= i,
            tally.wf(),
            tally.model() == bumped_all(t0, seen.names()),
            tally_sum(tally.model()) <= tally_sum(t0) + n_seen,
            tally_sum(t0) + MAP_KEY_CAP < usize::MAX,
        ensures
            tally.wf(),
            tally.model() == bumped_all(t0, distinct(ls)),
            tally_sum(tally.model()) <= tally_sum(t0) + MAP_KEY_CAP,
            tally.counts@.len() <= n0 + MAP_KEY_CAP,
        decreases MAP_KEY_CAP - i,
    {
        let ghost s = cur.model(b@).level;
        proof {
            lemma_next_child(b@, s);
        }
        match cur.next(b) {
            None => {
                proof {
                    assert(all.skip(i as int).len() == 0);
                    assert(ls.take(i as int) =~= ls);
                }
                break;
            },
            Some(sub) => {
                proof {
                    assert(all.skip(i as int)[0] == sub@);
                    assert(children_from(b@, cur.model(b@).level) =~= all.skip(i as int).skip(1));
                    assert(all.skip(i as int).skip(1) =~= all.skip(i + 1));
                    assert(ls.take(i + 1).drop_last() =~= ls.take(i as int));
                    assert(ls.take(i + 1).last() == sub.label@);
                }
                let ghost before = seen.names();
                if seen.position(sub.label.as_str()).is_none() {
                    seen.push(sub.label.clone(), n_seen);
                    n_seen += 1;
                    proof {
                        assert(seen.names().drop_last() =~= before);
                    }
                    tally.bump(sub.label);
                }
                i += 1;
                proof {
                    if i == MAP_KEY_CAP {
                        assert(ls.take(i as int) =~= ls);
                    }
                }
            },
        }
    }
}

/// The sum of the counts, and the sum of their squares.
fn tally_sums(tally: &Tally) -> (r: (u64, u64))
    requires
        tally.wf(),
        tally_sum(tally.model()) <= 0x1_0000,
        tally.counts@.len() <= 0x1_0000,
    ensures
        r.0 == tally_sum(tally.model()),
        r.1 == tally_square_sum(tally.model()),
        r.0 <= 0x1_0000,
        r.1 <= 0x1_0000_0000_0000,
{
    let ghost t = tally.model();
    let mut sum: u64 = 0;
    let mut squares: u64 = 0;
    let mut i: usize = 0;
    assert(t.take(0) =~= Seq::empty());
    while i < tally.counts.len()
        invariant
            t == tally.model(),
            tally_sum(t) <= 0x1_0000,
            tally.counts@.len() <= 0x1_0000,
            i <= tally.counts@.len(),
            sum == tally_sum(t.take(i as int)),
            squares == tally_square_sum(t.take(i as int)),
            sum <= i * 0x1_0000,
            squares <= i * 0x1_0000_0000,
        decreases tally.counts@.len() - i,
    {
        let c: u64 = tally.counts[i] as u64;
        proof {
            lemma_tally_at(t, i as int);
            assert(t.take(i + 1).drop_last() =~= t.take(i as int));
            assert(t.take(i + 1).last() == t[i as int]);
            assert(c * c <= 0x1_0000_0000) by (nonlinear_arith)
                requires
                    c <= 0x1_0000,
            ;
        }
        sum += c;
        squares += c * c;
        i += 1;
    }
    assert(t.take(t.len() as int) =~= t);
    (sum, squares)
}

/// Whether an object at `[start, end)` reads as a data-keyed map (keys are
/// values, values share a shape) rather than a record. Returns the inferred key
/// type: `Num` when every sampled key parses as a number, else `Str`.
///
/// Two triggers, both gated on homogeneous values: key shape (most keys aren't
/// identifiers; catches `{8960: …, 8970: …}` even with a few entries) and object
/// similarity (object values with alike key-sets). Sheer entry count is
/// deliberately not a trigger: a stats record like `{buys_placed: 22464, tick: …}`
/// has many homogeneous numeric fields and would be misread as a map.
pub fn looks_like_map(b: &[u8], start: usize, end: usize) -> (r: Option<MapKey>)
    requires
        value_range(b@, start as int, end as int, Kind::Object),
    ensures
        r == map_key(b@, start as int, end as int),
{
    let ghost all = children_from(b@, level_of(start as int, end as int, false));
    let ghost cs = first_children(all, MAP_PROBE as int);
    let ghost is_object = |c: ChildV| c.kind is Object;
    let ghost is_array = |c: ChildV| c.kind is Array;
    let ghost is_str = |c: ChildV| c.kind is Str;
    let ghost is_number = |c: ChildV| c.kind is Number;
    let ghost is_other = |c: ChildV| c.kind is Bool || c.kind is Null;
    let ghost is_data = |c: ChildV| !ident_key(c.label);
    let ghost is_numeric = |c: ChildV| float_text(c.label);
    let mut n: usize = 0;
    let mut n_obj: usize = 0;
    let mut n_arr: usize = 0;
    let mut n_str: usize = 0;
    let mut n_num: usize = 0;
    let mut n_other: usize = 0;
    let mut n_nonident: usize = 0;
    let mut n_numeric: usize = 0;
    let mut tally = Tally::new();
    let mut cur = Cursor::new(start, end, false);
    proof {
        assert(all.skip(0) =~= all);
        assert(cs.take(0) =~= Seq::empty());
    }
    while n < MAP_PROBE
        invariant
            addressable(b@),
            cur.wf(b@),
            n <= MAP_PROBE,
            n <= all.len(),
            cs == first_children(all, MAP_PROBE as int),
            cur.model(b@).level.index == n,
            children_from(b@, cur.model(b@).level) == all.skip(n as int),
            n == MAP_PROBE ==> cs.take(n as int) == cs,
            is_object == (|c: ChildV| c.kind is Object),
            is_array == (|c: ChildV| c.kind is Array),
            is_str == (|c: ChildV| c.kind is Str),
            is_number == (|c: ChildV| c.kind is Number),
            is_other == (|c: ChildV| c.kind is Bool || c.kind is Null),
            is_data == (|c: ChildV| !ident_key(c.label)),
            is_numeric == (|c: ChildV| float_text(c.label)),
            n_obj == how_many(cs.take(n as int), is_object),
            n_arr == how_many(cs.take(n as int), is_array),
            n_str == how_many(cs.take(n as int), is_str),
            n_num == how_many(cs.take(n as int), is_number),
            n_other == how_many(cs.take(n as int), is_other),
            n_nonident == how_many(cs.take(n as int), is_data),
            n_numeric == how_many(cs.take(n as int), is_numeric),
            n_obj <= n,
            n_arr <= n,
            n_str <= n,
            n_num <= n,
            n_other <= n,
            n_nonident <= n,
            n_numeric <= n,
            tally.wf(),
            tally.model() == key_tally(b@, cs.take(n as int)),
            tally_sum(tally.model()) <= n * MAP_KEY_CAP,
            tally.counts@.len() <= n * MAP_KEY_CAP,
        ensures
            cs.take(n as int) == cs,
        decreases MAP_PROBE - n,
    {
        let ghost s = cur.model(b@).level;
        proof {
            lemma_next_child(b@, s);
        }
        match cur.next(b) {
            None => {
                proof {
                    assert(all.skip(n as int).len() == 0);
                    assert(cs.take(n as int) =~= cs);
                }
                break;
            },
            Some(f) => {
                proof {
                    lemma_child_value_wf(b@, s);
                    assert(all.skip(n as int)[0] == f@);
                    assert(children_from(b@, cur.model(b@).level) =~= all.skip(n as int).skip(1));
                    assert(all.skip(n as int).skip(1) =~= all.skip(n + 1));
                    assert(cs.take(n + 1).drop_last() =~= cs.take(n as int));
                    assert(cs.take(n + 1).last() == f@);
                }
                n += 1;
                if !is_ident_key(f.label.as_str()) {
                    n_nonident += 1;
                }
                if is_float_text(f.label.as_str()) {
                    n_numeric += 1;
                }
                match f.kind {
                    Kind::Object => {
                        n_obj += 1;
                        tally_keys(b, f.start, f.end, &mut tally);
                    },
                    Kind::Array => {
                        n_arr += 1;
                    },
                    Kind::Str => {
                        n_str += 1;
                    },
                    Kind::Number => {
                        n_num += 1;
                    },
                    Kind::Bool | Kind::Null => {
                        n_other += 1;
                    },
                }
                proof {
                    if n == MAP_PROBE {
                        assert(cs.take(n as int) =~= cs);
                    }
                }
            },
        }
    }
    if n == 0 {
        return None;
    }
    // Values must be homogeneous in kind: a record's values are typically mixed.
    let mut dominant: usize = n_other;
    if n_num >= dominant {
        dominant = n_num;
    }
    if n_str >= dominant {
        dominant = n_str;
    }
    if n_arr >= dominant {
        dominant = n_arr;
    }
    if n_obj >= dominant {
        dominant = n_obj;
    }
    if dominant * 100 < n * MAP_RATIO_PCT {
        return None;
    }
    // Object similarity: object values whose key sets look alike.
    let (sum, squares) = tally_sums(&tally);
    let ghost objects = n_obj as int;
    assert(sum * objects <= 0x1_0000 * 48) by (nonlinear_arith)
        requires
            0 <= sum <= 0x1_0000,
            0 <= objects <= 48,
    ;
    let weight: u64 = sum * (n_obj as u64) * (MAP_SIMILARITY_PCT as u64);
    let obj_similar = n_obj >= MAP_MIN_OBJ && n_obj * 100 >= n * MAP_RATIO_PCT && sum > 0
        && squares * 100 >= weight;
    // Key shape: most keys aren't identifiers, so they're data.
    let data_keys = n_nonident * 100 >= n * MAP_DATAKEY_PCT;
    if obj_similar || data_keys {
        if n_numeric == n {
            Some(MapKey::Num)
        } else {
            Some(MapKey::Str)
        }
    } else {
        None
    }
}

// ---------------------------------------------------------------------------
// The inferred type
// ---------------------------------------------------------------------------
/// A structural type inferred from sampled JSON.
#[derive(Debug, PartialEq)]
pub enum Type {
    /// Nothing observed, or the node budget ran out.
    Any,
    Str,
    Num,
    Bool,
    Null,
    Array(Box<Type>),
    /// A record: named fields, each possibly optional.
    Object(Vec<Field>),
    /// A data-keyed map: `Record<K, T>`, where `K` is `string` or `number`.
    Dict(MapKey, Box<Type>),
    /// Mixed shapes seen at the same position.
    Union(Vec<Type>),
}

/// One field of an [`Type::Object`], with how often it appeared (for optionality
/// and a fill-rate comment).
#[derive(Debug, PartialEq)]
pub struct Field {
    pub name: String,
    pub ty: Type,
    pub present: usize,
    pub total: usize,
}

/// A type as the contracts speak of it.
pub enum TypeV {
    Any,
    Str,
    Num,
    Bool,
    Null,
    Array(Box<TypeV>),
    Object(Seq<FieldV>),
    Dict(MapKey, Box<TypeV>),
    Union(Seq<TypeV>),
}

/// A field as the contracts speak of it.
pub struct FieldV {
    pub name: Seq<char>,
    pub ty: TypeV,
    pub present: int,
    pub total: int,
}

impl Type {
    pub open spec fn model(&self) -> TypeV
        decreases self,
    {
        match self {
            Type::Any => TypeV::Any,
            Type::Str => TypeV::Str,
            Type::Num => TypeV::Num,
            Type::Bool => TypeV::Bool,
            Type::Null => TypeV::Null,
            Type::Array(el) => TypeV::Array(Box::new(el.model())),
            Type::Object(fields) => TypeV::Object(
                Seq::new(
                    fields@.len(),
                    |i: int|
                        if 0 <= i < fields@.len() {
                            FieldV {
                                name: fields@[i].name@,
                                ty: fields@[i].ty.model(),
                                present: fields@[i].present as int,
                                total: fields@[i].total as int,
                            }
                        } else {
                            arbitrary()
                        },
                ),
            ),
            Type::Dict(k, v) => TypeV::Dict(*k, Box::new(v.model())),
            Type::Union(vs) => TypeV::Union(
                Seq::new(
                    vs@.len(),
                    |i: int|
                        if 0 <= i < vs@.len() {
                            vs@[i].model()
                        } else {
                            arbitrary()
                        },
                ),
            ),
        }
    }
}

impl Field {
    pub open spec fn model(&self) -> FieldV {
        FieldV {
            name: self.name@,
            ty: self.ty.model(),
            present: self.present as int,
            total: self.total as int,
        }
    }

    /// Whether some of the records lack this field.
    pub fn optional(&self) -> (r: bool)
        ensures
            r == (self.present < self.total),
    {
        self.present < self.total
    }
}

pub open spec fn type_models(types: Seq<Type>) -> Seq<TypeV> {
    Seq::new(types.len(), |i: int| types[i].model())
}

// ---------------------------------------------------------------------------
// Inference (accumulate, then finish)
// ---------------------------------------------------------------------------
/// What was seen at one position.
pub struct AccV {
    pub str: bool,
    pub num: bool,
    pub boo: bool,
    pub null: bool,
    /// How many records, and what was seen at each field, in order of first
    /// appearance.
    pub rec_count: int,
    pub fields: Seq<FieldAccV>,
    /// How many data-keyed maps, what was seen at their values, and whether one
    /// of them has keys that are not all numbers.
    pub map_count: int,
    pub map_val: Option<Box<AccV>>,
    pub map_key_str: bool,
    /// How many arrays, and what was seen at their elements.
    pub arr_count: int,
    pub arr_elem: Option<Box<AccV>>,
}

/// What was seen at one field: in how many records it was there, and its values.
pub struct FieldAccV {
    pub name: Seq<char>,
    pub present: int,
    pub acc: AccV,
}

/// Nothing seen yet.
pub open spec fn nothing() -> AccV {
    AccV {
        str: false,
        num: false,
        boo: false,
        null: false,
        rec_count: 0,
        fields: Seq::empty(),
        map_count: 0,
        map_val: None,
        map_key_str: false,
        arr_count: 0,
        arr_elem: None,
    }
}

pub open spec fn acc_or_nothing(a: Option<Box<AccV>>) -> AccV {
    match a {
        Some(a) => *a,
        None => nothing(),
    }
}

pub open spec fn field_names(fs: Seq<FieldAccV>) -> Seq<Seq<char>> {
    Seq::new(fs.len(), |i: int| fs[i].name)
}

/// How many entries are sampled at a depth.
pub open spec fn sample_limit(depth: int) -> int {
    if depth == 0 {
        TOP_SAMPLE as int
    } else {
        NESTED_CAP as int
    }
}

/// What was seen once the value `v` has been looked at as well, and the budget
/// that is left. Each value looked at takes one from the budget.
pub open spec fn seen_value(b: Seq<u8>, acc: AccV, v: ValueV, depth: int, budget: int) -> (
    AccV,
    int,
)
    decreases MAX_DEPTH + 1 - depth, 0int, 0int,
{
    if depth > MAX_DEPTH || budget <= 0 {
        (acc, budget)
    } else {
        match v.kind {
            Kind::Str => (AccV { str: true, ..acc }, budget - 1),
            Kind::Number => (AccV { num: true, ..acc }, budget - 1),
            Kind::Bool => (AccV { boo: true, ..acc }, budget - 1),
            Kind::Null => (AccV { null: true, ..acc }, budget - 1),
            Kind::Array => {
                let (el, left) = seen_each(
                    b,
                    acc_or_nothing(acc.arr_elem),
                    first_children(elements(b, v), sample_limit(depth)),
                    0,
                    depth + 1,
                    budget - 1,
                );
                (AccV { arr_count: acc.arr_count + 1, arr_elem: Some(Box::new(el)), ..acc }, left)
            },
            Kind::Object => match map_key(b, v.start, v.end) {
                Some(key) => {
                    let (mv, left) = seen_each(
                        b,
                        acc_or_nothing(acc.map_val),
                        first_children(elements(b, v), sample_limit(depth)),
                        0,
                        depth + 1,
                        budget - 1,
                    );
                    (
                        AccV {
                            map_count: acc.map_count + 1,
                            map_val: Some(Box::new(mv)),
                            map_key_str: acc.map_key_str || key is Str,
                            ..acc
                        },
                        left,
                    )
                },
                None => {
                    let (fields, left) = seen_fields(
                        b,
                        acc.fields,
                        first_children(elements(b, v), KEY_CAP as int),
                        0,
                        depth + 1,
                        budget - 1,
                    );
                    (AccV { rec_count: acc.rec_count + 1, fields, ..acc }, left)
                },
            },
        }
    }
}

/// What was seen once the children from number `i` on have been looked at.
pub open spec fn seen_each(
    b: Seq<u8>,
    acc: AccV,
    cs: Seq<ChildV>,
    i: int,
    depth: int,
    budget: int,
) -> (AccV, int)
    decreases MAX_DEPTH + 1 - depth, 1int, cs.len() - i,
{
    if i >= cs.len() {
        (acc, budget)
    } else {
        let (a, left) = seen_value(b, acc, value_of(cs[i]), depth, budget);
        seen_each(b, a, cs, i + 1, depth, left)
    }
}

/// The fields with one named `name` among them, and its position.
pub open spec fn with_field(fs: Seq<FieldAccV>, name: Seq<char>) -> (Seq<FieldAccV>, int) {
    match name_position(field_names(fs), name, 0) {
        Some(i) => (fs, i),
        None => (fs.push(FieldAccV { name, present: 0, acc: nothing() }), fs.len() as int),
    }
}

/// Whether member number `i` is the first with its key.
pub open spec fn first_of_key(cs: Seq<ChildV>, i: int) -> bool {
    forall|j: int| 0 <= j < i ==> (#[trigger] cs[j]).label != cs[i].label
}

/// What was seen at the fields once the members from number `i` on have been
/// looked at. A key that a record repeats counts once for it.
pub open spec fn seen_fields(
    b: Seq<u8>,
    fs: Seq<FieldAccV>,
    cs: Seq<ChildV>,
    i: int,
    depth: int,
    budget: int,
) -> (Seq<FieldAccV>, int)
    decreases MAX_DEPTH + 1 - depth, 1int, cs.len() - i,
{
    if i >= cs.len() {
        (fs, budget)
    } else {
        let (gs, p) = with_field(fs, cs[i].label);
        let (a, left) = seen_value(b, gs[p].acc, value_of(cs[i]), depth, budget);
        let present = if first_of_key(cs, i) {
            gs[p].present + 1
        } else {
            gs[p].present
        };
        let hs = gs.update(p, FieldAccV { name: gs[p].name, present, acc: a });
        seen_fields(b, hs, cs, i + 1, depth, left)
    }
}

/// Whether a member before number `i` has that key.
spec fn named_before(cs: Seq<ChildV>, i: int, name: Seq<char>) -> bool {
    exists|j: int| 0 <= j < i && (#[trigger] cs[j]).label == name
}

proof fn lemma_named_next(cs: Seq<ChildV>, i: int)
    requires
        0 <= i < cs.len(),
    ensures
        forall|name: Seq<char>| #[trigger]
            named_before(cs, i + 1, name) == (named_before(cs, i, name) || cs[i].label == name),
{
    assert forall|name: Seq<char>| #[trigger]
        named_before(cs, i + 1, name) == (named_before(cs, i, name) || cs[i].label == name) by {
        if named_before(cs, i, name) {
            let j = choose|j: int| 0 <= j < i && (#[trigger] cs[j]).label == name;
            assert(cs[j].label == name);
        }
        if cs[i].label == name {
            assert(0 <= i < i + 1);
        }
    }
}

/// The counts are within what `used` values looked at can bring about, and the
/// nesting is within `levels`.
pub open spec fn acc_bounded(acc: AccV, used: int, levels: int) -> bool
    decreases acc,
{
    &&& 0 <= acc.rec_count <= used
    &&& 0 <= acc.map_count <= used
    &&& 0 <= acc.arr_count <= used
    &&& match acc.map_val {
        Some(a) => levels > 0 && acc_bounded(*a, used, levels - 1),
        None => true,
    }
    &&& match acc.arr_elem {
        Some(a) => levels > 0 && acc_bounded(*a, used, levels - 1),
        None => true,
    }
    &&& forall|i: int|
        0 <= i < acc.fields.len() ==> 0 <= (#[trigger] acc.fields[i]).present <= acc.rec_count
            && levels > 0 && acc_bounded(acc.fields[i].acc, used, levels - 1)
}

/// The same of a list of fields, where each was there `most` times at most.
pub open spec fn fields_bounded(fs: Seq<FieldAccV>, most: int, used: int, levels: int) -> bool {
    forall|i: int|
        0 <= i < fs.len() ==> 0 <= (#[trigger] fs[i]).present <= most && acc_bounded(
            fs[i].acc,
            used,
            levels,
        )
}

proof fn lemma_acc_bounded_more(acc: AccV, used: int, more: int, levels: int)
    requires
        acc_bounded(acc, used, levels),
        used <= more,
    ensures
        acc_bounded(acc, more, levels),
    decreases acc,
{
    if let Some(a) = acc.map_val {
        lemma_acc_bounded_more(*a, used, more, levels - 1);
    }
    if let Some(a) = acc.arr_elem {
        lemma_acc_bounded_more(*a, used, more, levels - 1);
    }
    assert forall|i: int| 0 <= i < acc.fields.len() implies 0 <= (
    #[trigger] acc.fields[i]).present <= acc.rec_count && levels > 0 && acc_bounded(
        acc.fields[i].acc,
        more,
        levels - 1,
    ) by {
        lemma_acc_bounded_more(acc.fields[i].acc, used, more, levels - 1);
    }
}

proof fn lemma_fields_bounded_more(
    fs: Seq<FieldAccV>,
    most: int,
    used: int,
    more: int,
    levels: int,
)
    requires
        fields_bounded(fs, most, used, levels),
        used <= more,
    ensures
        fields_bounded(fs, most, more, levels),
{
    assert forall|i: int| 0 <= i < fs.len() implies 0 <= (#[trigger] fs[i]).present <= most
        && acc_bounded(fs[i].acc, more, levels) by {
        lemma_acc_bounded_more(fs[i].acc, used, more, levels);
    }
}

/// How many levels there can be below a depth.
pub open spec fn levels_below(depth: int) -> int {
    MAX_DEPTH + 1 - depth
}

/// Accumulates every value seen at one position, then collapses to a [`Type`].
struct Acc {
    str: bool,
    num: bool,
    boo: bool,
    null: bool,
    rec_count: usize,
    names: NameIndex,
    fields: Vec<FieldAcc>,
    map_count: usize,
    map_val: Option<Box<Acc>>,
    map_key_str: bool,
    arr_count: usize,
    arr_elem: Option<Box<Acc>>,
}

struct FieldAcc {
    name: String,
    present: usize,
    /// The number of the last record that had the field.
    last: usize,
    acc: Acc,
}

impl FieldAcc {
    /// Count the field for record number `rec`, unless it has been counted for it.
    fn note(&mut self, rec: usize)
        requires
            old(self).present < usize::MAX,
        ensures
            final(self).name == old(self).name,
            final(self).acc == old(self).acc,
            old(self).last < rec ==> final(self).last == rec && final(self).present == old(
                self,
            ).present + 1,
            old(self).last >= rec ==> *final(self) == *old(self),
    {
        if self.last < rec {
            self.last = rec;
            self.present = self.present + 1;
        }
    }
}

impl Acc {
    spec fn model(&self) -> AccV
        decreases self,
    {
        AccV {
            str: self.str,
            num: self.num,
            boo: self.boo,
            null: self.null,
            rec_count: self.rec_count as int,
            fields: Seq::new(
                self.fields@.len(),
                |i: int|
                    if 0 <= i < self.fields@.len() {
                        FieldAccV {
                            name: self.fields@[i].name@,
                            present: self.fields@[i].present as int,
                            acc: self.fields@[i].acc.model(),
                        }
                    } else {
                        arbitrary()
                    },
            ),
            map_count: self.map_count as int,
            map_val: match self.map_val {
                Some(a) => Some(Box::new(a.model())),
                None => None,
            },
            map_key_str: self.map_key_str,
            arr_count: self.arr_count as int,
            arr_elem: match self.arr_elem {
                Some(a) => Some(Box::new(a.model())),
                None => None,
            },
        }
    }

    spec fn wf(&self) -> bool
        decreases self,
    {
        &&& self.names.wf()
        &&& self.names.names().len() == self.fields@.len()
        &&& match self.map_val {
            Some(a) => a.wf(),
            None => true,
        }
        &&& match self.arr_elem {
            Some(a) => a.wf(),
            None => true,
        }
        &&& forall|i: int|
            0 <= i < self.fields@.len() ==> (#[trigger] self.fields@[i]).acc.wf()
                && self.names.names()[i] == self.fields@[i].name@ && self.fields@[i].last
                <= self.rec_count
    }

    fn new() -> (r: Acc)
        ensures
            r.wf(),
            r.model() == nothing(),
    {
        let r = Acc {
            str: false,
            num: false,
            boo: false,
            null: false,
            rec_count: 0,
            names: NameIndex::new(),
            fields: Vec::new(),
            map_count: 0,
            map_val: None,
            map_key_str: false,
            arr_count: 0,
            arr_elem: None,
        };
        assert(r.model().fields =~= Seq::empty());
        r
    }

    /// Fold one value into the accumulator.
    fn add(
        &mut self,
        b: &[u8],
        start: usize,
        end: usize,
        kind: Kind,
        depth: usize,
        budget: usize,
    ) -> (left: usize)
        requires
            value_range(b@, start as int, end as int, kind),
            old(self).wf(),
            depth <= MAX_DEPTH + 1,
            budget <= NODE_BUDGET,
            acc_bounded(old(self).model(), NODE_BUDGET - budget, levels_below(depth as int)),
        ensures
            final(self).wf(),
            left <= budget,
            acc_bounded(final(self).model(), NODE_BUDGET - left, levels_below(depth as int)),
            seen_value(
                b@,
                old(self).model(),
                (ValueV { start: start as int, end: end as int, kind }),
                depth as int,
                budget as int,
            ) == (final(self).model(), left as int),
        decreases MAX_DEPTH + 1 - depth, 0int,
    {
        if depth > MAX_DEPTH || budget == 0 {
            return budget;
        }
        let ghost a0 = self.model();
        let ghost v = ValueV { start: start as int, end: end as int, kind };
        let ghost used = NODE_BUDGET - budget;
        proof {
            lemma_acc_bounded_more(a0, used, used + 1, levels_below(depth as int));
        }
        let lim: usize = if depth == 0 {
            TOP_SAMPLE
        } else {
            NESTED_CAP
        };
        match kind {
            Kind::Str => {
                self.str = true;
                assert(self.model().fields =~= a0.fields);
                budget - 1
            },
            Kind::Number => {
                self.num = true;
                assert(self.model().fields =~= a0.fields);
                budget - 1
            },
            Kind::Bool => {
                self.boo = true;
                assert(self.model().fields =~= a0.fields);
                budget - 1
            },
            Kind::Null => {
                self.null = true;
                assert(self.model().fields =~= a0.fields);
                budget - 1
            },
            Kind::Array => {
                self.arr_count = self.arr_count + 1;
                let mut el = match self.arr_elem.take() {
                    Some(a) => *a,
                    None => Acc::new(),
                };
                let left: usize = el.add_each(b, start, end, true, lim, depth + 1, budget - 1);
                proof {
                    lemma_acc_bounded_more(a0, used, NODE_BUDGET - left, levels_below(depth as int));
                }
                self.arr_elem = Some(Box::new(el));
                assert(self.model().fields =~= a0.fields);
                left
            },
            Kind::Object => {
                if let Some(key) = looks_like_map(b, start, end) {
                    // A data-keyed map: merge its values into one element type.
                    self.map_count = self.map_count + 1;
                    if matches!(key, MapKey::Str) {
                        self.map_key_str = true;
                    }
                    let mut mv = match self.map_val.take() {
                        Some(a) => *a,
                        None => Acc::new(),
                    };
                    let left: usize = mv.add_each(b, start, end, false, lim, depth + 1, budget - 1);
                    proof {
                        lemma_acc_bounded_more(a0, used, NODE_BUDGET - left, levels_below(depth as int));
                    }
                    self.map_val = Some(Box::new(mv));
                    assert(self.model().fields =~= a0.fields);
                    left
                } else {
                    // A record: merge each key's value type across occurrences.
                    self.rec_count = self.rec_count + 1;
                    assert(self.model().fields =~= a0.fields);
                    self.add_fields(b, start, end, depth + 1, budget - 1)
                }
            },
        }
    }

    /// Fold the first `lim` children of a container into the accumulator.
    fn add_each(
        &mut self,
        b: &[u8],
        start: usize,
        end: usize,
        is_array: bool,
        lim: usize,
        depth: usize,
        budget: usize,
    ) -> (left: usize)
        requires
            value_range(b@, start as int, end as int, if is_array { Kind::Array } else { Kind::Object }),
            old(self).wf(),
            depth <= MAX_DEPTH + 1,
            lim < usize::MAX,
            budget <= NODE_BUDGET,
            acc_bounded(old(self).model(), NODE_BUDGET - budget, levels_below(depth as int)),
        ensures
            final(self).wf(),
            left <= budget,
            acc_bounded(final(self).model(), NODE_BUDGET - left, levels_below(depth as int)),
            seen_each(
                b@,
                old(self).model(),
                first_children(
                    children_from(b@, level_of(start as int, end as int, is_array)),
                    lim as int,
                ),
                0,
                depth as int,
                budget as int,
            ) == (final(self).model(), left as int),
        decreases MAX_DEPTH + 1 - depth, 2int,
    {
        let cur = Cursor::new(start, end, is_array);
        self.add_from(b, cur, lim, depth, budget)
    }

    /// Fold the first `lim` children that `cur` gives into the accumulator.
    fn add_from(&mut self, b: &[u8], cur: Cursor, lim: usize, depth: usize, budget: usize) -> (left:
        usize)
        requires
            cur.wf(b@),
            cur.model(b@).level.index == 0,
            old(self).wf(),
            depth <= MAX_DEPTH + 1,
            lim < usize::MAX,
            budget <= NODE_BUDGET,
            acc_bounded(old(self).model(), NODE_BUDGET - budget, levels_below(depth as int)),
        ensures
            final(self).wf(),
            left <= budget,
            acc_bounded(final(self).model(), NODE_BUDGET - left, levels_below(depth as int)),
            seen_each(
                b@,
                old(self).model(),
                first_children(children_from(b@, cur.model(b@).level), lim as int),
                0,
                depth as int,
                budget as int,
            ) == (final(self).model(), left as int),
        decreases MAX_DEPTH + 1 - depth, 1int,
    {
        let mut cur = cur;
        let ghost all = children_from(b@, cur.model(b@).level);
        let ghost cs = first_children(all, lim as int);
        let ghost a0 = self.model();
        let mut left: usize = budget;
        let mut i: usize = 0;
        assert(all.skip(0) =~= all);
        while i < lim
            invariant
                addressable(b@),
                cur.wf(b@),
                i <= lim,
                i <= all.len(),
                depth <= MAX_DEPTH + 1,
                cs == first_children(all, lim as int),
                cur.model(b@).level.index == i,
                children_from(b@, cur.model(b@).level) == all.skip(i as int),
                self.wf(),
                left <= budget <= NODE_BUDGET,
                acc_bounded(self.model(), NODE_BUDGET - left, levels_below(depth as int)),
                seen_each(b@, a0, cs, 0, depth as int, budget as int) == seen_each(
                    b@,
                    self.model(),
                    cs,
                    i as int,
                    depth as int,
                    left as int,
                ),
            ensures
                i >= cs.len(),
            decreases lim - i,
        {
            let ghost s = cur.model(b@).level;
            proof {
                lemma_next_child(b@, s);
            }
            match cur.next(b) {
                None => {
                    assert(all.skip(i as int).len() == 0);
                    break;
                },
                Some(e) => {
                    proof {
                        lemma_child_value_wf(b@, s);
                        assert(all.skip(i as int)[0] == e@);
                        assert(children_from(b@, cur.model(b@).level) =~= all.skip(i as int).skip(
                            1,
                        ));
                        assert(all.skip(i as int).skip(1) =~= all.skip(i + 1));
                        assert(cs[i as int] == e@);
                    }
                    left = self.add(b, e.start, e.end, e.kind, depth, left);
                    i += 1;
                },
            }
        }
        left
    }

    /// The number of the field with that name, which is there from now on.
    fn field_at(&mut self, name: String) -> (at: usize)
        requires
            old(self).wf(),
        ensures
            final(self).wf(),
            final(self).rec_count == old(self).rec_count,
            with_field(old(self).model().fields, name@) == (final(self).model().fields, at as int),
            final(self).model() == (AccV {
                fields: final(self).model().fields,
                ..old(self).model()
            }),
            at < final(self).fields@.len(),
            final(self).fields@[at as int].name@ == name@,
            final(self).fields@ == old(self).fields@ || {
                &&& final(self).fields@.len() == old(self).fields@.len() + 1
                &&& final(self).fields@.drop_last() == old(self).fields@
                &&& at == old(self).fields@.len()
                &&& final(self).fields@.last().last == 0
                &&& final(self).fields@.last().present == 0
            },
            at < old(self).fields@.len() ==> final(self).fields@ == old(self).fields@,
    {
        let ghost fs = self.model().fields;
        let ghost label = name@;
        let ghost before = self.fields@;
        proof {
            assert(field_names(fs) =~= self.names.names());
            lemma_name_position(field_names(fs), name@, 0);
        }
        match self.names.position(name.as_str()) {
            Some(p) => p,
            None => {
                let p: usize = self.fields.len();
                self.names.push(name.clone(), p);
                self.fields.push(FieldAcc { name, present: 0, last: 0, acc: Acc::new() });
                proof {
                    assert(self.fields@.drop_last() =~= before);
                    assert(self.model().fields =~= with_field(fs, label).0);
                }
                p
            },
        }
    }

    /// Fold the members of a record into the fields.
    fn add_fields(&mut self, b: &[u8], start: usize, end: usize, depth: usize, budget: usize) -> (
        left: usize)
        requires
            value_range(b@, start as int, end as int, Kind::Object),
            old(self).wf(),
            1 <= depth <= MAX_DEPTH + 1,
            budget < NODE_BUDGET,
            old(self).rec_count >= 1,
            forall|i: int|
                0 <= i < old(self).fields@.len() ==> (#[trigger] old(self).fields@[i]).last < old(
                    self,
                ).rec_count,
            acc_bounded(
                AccV { rec_count: old(self).rec_count - 1, ..old(self).model() },
                NODE_BUDGET - budget - 1,
                levels_below(depth - 1),
            ),
        ensures
            final(self).wf(),
            left <= budget,
            acc_bounded(final(self).model(), NODE_BUDGET - left, levels_below(depth - 1)),
            ({
                let (fs, l) = seen_fields(
                    b@,
                    old(self).model().fields,
                    first_children(
                        children_from(b@, level_of(start as int, end as int, false)),
                        KEY_CAP as int,
                    ),
                    0,
                    depth as int,
                    budget as int,
                );
                &&& final(self).model() == (AccV { fields: fs, ..old(self).model() })
                &&& left == l
            }),
        decreases MAX_DEPTH + 1 - depth, 1int,
    {
        let ghost a0 = self.model();
        let ghost base = self.rec_count as int;
        let ghost fields0 = self.fields@;
        let ghost all = children_from(b@, level_of(start as int, end as int, false));
        let ghost cs = first_children(all, KEY_CAP as int);
        let mut cur = Cursor::new(start, end, false);
        let mut left: usize = budget;
        let mut i: usize = 0;
        proof {
            assert(all.skip(0) =~= all);
            assert forall|k: int| 0 <= k < fields0.len() implies (
            #[trigger] fields0[k]).present < base by {
                assert(a0.fields[k].present == fields0[k].present);
            }
            assert(fields_bounded(
                a0.fields,
                base,
                NODE_BUDGET - budget - 1,
                levels_below(depth as int),
            ));
            lemma_fields_bounded_more(
                a0.fields,
                base,
                NODE_BUDGET - budget - 1,
                NODE_BUDGET - budget,
                levels_below(depth as int),
            );
        }
        while i < KEY_CAP
            invariant
                addressable(b@),
                cur.wf(b@),
                i <= KEY_CAP,
                i <= all.len(),
                depth <= MAX_DEPTH + 1,
                cs == first_children(all, KEY_CAP as int),
                cur.model(b@).level.index == i,
                children_from(b@, cur.model(b@).level) == all.skip(i as int),
                self.wf(),
                left <= budget < NODE_BUDGET,
                a0 == old(self).model(),
                1 <= a0.rec_count <= NODE_BUDGET,
                base == a0.rec_count,
                self.model() == (AccV { fields: self.model().fields, ..a0 }),
                forall|j: int|
                    0 <= j < i ==> field_names(self.model().fields).contains(
                        (#[trigger] cs[j]).label,
                    ),
                forall|k: int|
                    0 <= k < self.fields@.len() ==> ((#[trigger] self.fields@[k]).last == base
                        <==> named_before(cs, i as int, self.fields@[k].name@)),
                forall|k: int|
                    0 <= k < self.fields@.len() ==> (#[trigger] self.fields@[k]).present <= base
                        && (self.fields@[k].last < base ==> self.fields@[k].present < base),
                fields_bounded(
                    self.model().fields,
                    base,
                    NODE_BUDGET - left,
                    levels_below(depth as int),
                ),
                seen_fields(b@, a0.fields, cs, 0, depth as int, budget as int) == seen_fields(
                    b@,
                    self.model().fields,
                    cs,
                    i as int,
                    depth as int,
                    left as int,
                ),
            ensures
                i >= cs.len(),
            decreases KEY_CAP - i,
        {
            let ghost s = cur.model(b@).level;
            proof {
                lemma_next_child(b@, s);
            }
            match cur.next(b) {
                None => {
                    assert(all.skip(i as int).len() == 0);
                    break;
                },
                Some(f) => {
                    let ghost fs = self.model().fields;
                    proof {
                        lemma_child_value_wf(b@, s);
                        assert(all.skip(i as int)[0] == f@);
                        assert(children_from(b@, cur.model(b@).level) =~= all.skip(i as int).skip(
                            1,
                        ));
                        assert(all.skip(i as int).skip(1) =~= all.skip(i + 1));
                        assert(cs[i as int] == f@);
                        assert(field_names(fs) =~= self.names.names());
                        lemma_name_position(field_names(fs), f@.label, 0);
                    }
                    let ghost before0 = self.fields@;
                    let at: usize = self.field_at(f.label);
                    let ghost gs = self.model().fields;
                    proof {
                        assert(fields_bounded(
                            gs,
                            base,
                            NODE_BUDGET - left,
                            levels_below(depth as int),
                        ));
                        assert(self.fields@[at as int].name@ == f@.label);
                        lemma_name_position(field_names(fs), f@.label, 0);
                        self.names.lemma_distinct();
                        if at == fs.len() {
                            assert(!named_before(cs, i as int, f@.label)) by {
                                if named_before(cs, i as int, f@.label) {
                                    let j = choose|j: int|
                                        0 <= j < i && (#[trigger] cs[j]).label == f@.label;
                                    assert(field_names(fs).contains(cs[j].label));
                                }
                            }
                        } else {
                            assert(self.fields@ == before0);
                        }
                        assert((self.fields@[at as int].last == base) == named_before(
                            cs,
                            i as int,
                            f@.label,
                        ));
                        assert(first_of_key(cs, i as int) == !named_before(
                            cs,
                            i as int,
                            f@.label,
                        ));
                        assert(gs[at as int].acc == self.fields@[at as int].acc.model());
                        assert(self.wf());
                    }
                    let ghost before = self.fields@;
                    let ghost left0 = left;
                    self.fields[at].note(self.rec_count);
                    left = self.fields[at].acc.add(b, f.start, f.end, f.kind, depth, left);
                    proof {
                        let one = FieldAccV {
                            name: gs[at as int].name,
                            present: if first_of_key(cs, i as int) {
                                gs[at as int].present + 1
                            } else {
                                gs[at as int].present
                            },
                            acc: self.fields@[at as int].acc.model(),
                        };
                        assert(self.model().fields =~= gs.update(at as int, one));
                        lemma_fields_bounded_more(
                            gs,
                            base,
                            NODE_BUDGET - left0,
                            NODE_BUDGET - left,
                            levels_below(depth as int),
                        );
                        assert(fields_bounded(
                            gs.update(at as int, one),
                            base,
                            NODE_BUDGET - left,
                            levels_below(depth as int),
                        ));
                        lemma_named_next(cs, i as int);
                        self.names.lemma_distinct();
                        assert(field_names(gs.update(at as int, one)) =~= field_names(gs));
                        assert(field_names(gs)[at as int] == cs[i as int].label);
                        assert forall|j: int| 0 <= j < i + 1 implies field_names(gs).contains(
                            (#[trigger] cs[j]).label,
                        ) by {
                            if j < i {
                                let x = choose|x: int|
                                    0 <= x < fs.len() && field_names(fs)[x] == cs[j].label;
                                assert(field_names(gs)[x] == cs[j].label);
                            }
                        }
                        assert forall|k: int| 0 <= k < self.fields@.len() implies ((
                        #[trigger] self.fields@[k]).last == base <==> named_before(
                            cs,
                            i + 1,
                            self.fields@[k].name@,
                        )) by {
                            assert(field_names(gs)[k] == before[k].name@);
                            if k != at {
                                assert(self.fields@[k] == before[k]);
                                if before0.len() < before.len() {
                                    assert(before.drop_last()[k] == before0[k]);
                                }
                                assert(self.names.names()[k] != self.names.names()[at as int]);
                            }
                        }
                    }
                    i += 1;
                },
            }
        }
        proof {
            let a1 = self.model();
            lemma_acc_bounded_more(
                AccV { rec_count: a0.rec_count - 1, ..a0 },
                NODE_BUDGET - budget - 1,
                NODE_BUDGET - left,
                levels_below(depth - 1),
            );
            assert forall|k: int| 0 <= k < a1.fields.len() implies 0 <= (
            #[trigger] a1.fields[k]).present <= a1.rec_count && levels_below(depth - 1)
                > 0 && acc_bounded(
                a1.fields[k].acc,
                NODE_BUDGET - left,
                levels_below(depth - 1) - 1,
            ) by {}
        }
        left
    }
}

/// `t` where `seen`.
pub open spec fn variant_if(seen: bool, t: TypeV) -> Seq<TypeV> {
    if seen {
        seq![t]
    } else {
        Seq::empty()
    }
}

/// The types of what was seen, given those of the composite shapes.
#[verifier::opaque]
pub open spec fn shapes(acc: AccV, object: TypeV, array: TypeV, dict: TypeV) -> Seq<TypeV> {
    variant_if(acc.rec_count > 0, object) + variant_if(acc.arr_count > 0, array) + variant_if(
        acc.map_count > 0,
        dict,
    ) + variant_if(acc.str, TypeV::Str) + variant_if(acc.num, TypeV::Num) + variant_if(
        acc.boo,
        TypeV::Bool,
    ) + variant_if(acc.null, TypeV::Null)
}

/// The fields of the records that were seen.
pub open spec fn collapsed_fields(acc: AccV) -> Seq<FieldV>
    decreases acc, 0int,
{
    Seq::new(
        acc.fields.len(),
        |i: int|
            if 0 <= i < acc.fields.len() {
                FieldV {
                    name: acc.fields[i].name,
                    ty: collapsed(acc.fields[i].acc),
                    present: acc.fields[i].present,
                    total: acc.rec_count,
                }
            } else {
                arbitrary()
            },
    )
}

/// The types of what was seen, one for each shape.
pub open spec fn variants(acc: AccV) -> Seq<TypeV>
    decreases acc, 1int,
{
    let el = match acc.arr_elem {
        Some(a) => collapsed(*a),
        None => TypeV::Any,
    };
    let key = if acc.map_key_str {
        MapKey::Str
    } else {
        MapKey::Num
    };
    let val = match acc.map_val {
        Some(a) => collapsed(*a),
        None => TypeV::Any,
    };
    shapes(
        acc,
        TypeV::Object(collapsed_fields(acc)),
        TypeV::Array(Box::new(el)),
        TypeV::Dict(key, Box::new(val)),
    )
}

/// The type of what was seen.
pub open spec fn collapsed(acc: AccV) -> TypeV
    decreases acc, 2int,
{
    one_or_union(variants(acc))
}

/// The type of values each of which has one of the given types.
pub open spec fn one_or_union(vs: Seq<TypeV>) -> TypeV {
    if vs.len() == 0 {
        TypeV::Any
    } else if vs.len() == 1 {
        vs[0]
    } else {
        TypeV::Union(vs)
    }
}

fn push_if(vs: &mut Vec<Type>, seen: bool, t: Type)
    ensures
        type_models(final(vs)@) == type_models(old(vs)@) + variant_if(seen, t.model()),
{
    let ghost before = type_models(vs@);
    let ghost m = t.model();
    if seen {
        vs.push(t);
    }
    assert(type_models(vs@) =~= before + variant_if(seen, m));
}

impl Acc {
    /// The fields of the records that were seen.
    fn finish_fields(&self) -> (fields: Vec<Field>)
        ensures
            Type::Object(fields).model() == TypeV::Object(collapsed_fields(self.model())),
        decreases self, 0int,
    {
        let ghost acc = self.model();
        let mut fields: Vec<Field> = Vec::new();
        let mut i: usize = 0;
        while i < self.fields.len()
            invariant
                acc == self.model(),
                i <= self.fields@.len(),
                fields@.len() == i,
                forall|k: int|
                    0 <= k < i ==> (#[trigger] fields@[k]).model() == (FieldV {
                        name: acc.fields[k].name,
                        ty: collapsed(acc.fields[k].acc),
                        present: acc.fields[k].present,
                        total: acc.rec_count,
                    }),
            decreases self.fields@.len() - i,
        {
            let fa = &self.fields[i];
            let ty = fa.acc.finish();
            fields.push(
                Field { name: fa.name.clone(), ty, present: fa.present, total: self.rec_count },
            );
            i += 1;
        }
        assert(Type::Object(fields).model()->Object_0 =~= collapsed_fields(acc));
        fields
    }

    /// Collapse the accumulated observations into a single type.
    fn finish(&self) -> (r: Type)
        ensures
            r.model() == collapsed(self.model()),
        decreases self, 1int,
    {
        let object = Type::Object(self.finish_fields());
        let el = match &self.arr_elem {
            Some(a) => a.finish(),
            None => Type::Any,
        };
        let array = Type::Array(Box::new(el));
        let key = if self.map_key_str {
            MapKey::Str
        } else {
            MapKey::Num
        };
        let val = match &self.map_val {
            Some(a) => a.finish(),
            None => Type::Any,
        };
        let dict = Type::Dict(key, Box::new(val));
        proof {
            let acc = self.model();
            assert(object.model() == TypeV::Object(collapsed_fields(acc)));
            assert(el.model() == match acc.arr_elem {
                Some(a) => collapsed(*a),
                None => TypeV::Any,
            });
            assert(val.model() == match acc.map_val {
                Some(a) => collapsed(*a),
                None => TypeV::Any,
            });
            assert(array.model() == TypeV::Array(Box::new(el.model())));
            assert(dict.model() == TypeV::Dict(key, Box::new(val.model())));
            assert(shapes(acc, object.model(), array.model(), dict.model()) == variants(acc));
        }
        collapse(self.gather(object, array, dict))
    }

    /// The types of what was seen, given those of the composite shapes.
    fn gather(&self, object: Type, array: Type, dict: Type) -> (found: Vec<Type>)
        ensures
            type_models(found@) == shapes(
                self.model(),
                object.model(),
                array.model(),
                dict.model(),
            ),
    {
        proof {
            reveal(shapes);
        }
        let mut found: Vec<Type> = Vec::new();
        assert(type_models(found@) + variant_if(self.rec_count > 0, object.model()) =~= variant_if(
            self.rec_count > 0,
            object.model(),
        ));
        push_if(&mut found, self.rec_count > 0, object);
        push_if(&mut found, self.arr_count > 0, array);
        push_if(&mut found, self.map_count > 0, dict);
        push_if(&mut found, self.str, Type::Str);
        push_if(&mut found, self.num, Type::Num);
        push_if(&mut found, self.boo, Type::Bool);
        push_if(&mut found, self.null, Type::Null);
        found
    }
}

/// The type of values each of which has one of the given types.
fn collapse(found: Vec<Type>) -> (r: Type)
    ensures
        r.model() == one_or_union(type_models(found@)),
{
    let ghost vs = type_models(found@);
    let mut found = found;
    if found.len() == 1 {
        if let Some(t) = found.pop() {
            return t;
        }
    }
    if found.len() == 0 {
        return Type::Any;
    }
    let u = Type::Union(found);
    assert(u.model()->Union_0 =~= vs);
    u
}

/// What was seen once the values from number `i` on have been looked at.
pub open spec fn seen_values(b: Seq<u8>, acc: AccV, vs: Seq<ValueV>, i: int, budget: int) -> (
    AccV,
    int,
)
    decreases vs.len() - i,
{
    if i >= vs.len() {
        (acc, budget)
    } else {
        let (a, left) = seen_value(b, acc, vs[i], 1, budget);
        seen_values(b, a, vs, i + 1, left)
    }
}

/// The type of a value, or with `jsonl` of the array of the values in its range.
pub open spec fn inferred(b: Seq<u8>, v: ValueV, jsonl: bool) -> TypeV {
    if jsonl {
        let docs = children_from(b, level_of_lines(v.start, v.end));
        let seen = seen_each(
            b,
            nothing(),
            first_children(docs, TOP_SAMPLE as int),
            0,
            1,
            NODE_BUDGET as int,
        ).0;
        TypeV::Array(Box::new(collapsed(seen)))
    } else {
        collapsed(seen_value(b, nothing(), v, 0, NODE_BUDGET as int).0)
    }
}

/// The type of a sequence of values: that of an array with these elements.
pub open spec fn inferred_seq(b: Seq<u8>, vs: Seq<ValueV>) -> TypeV {
    let some = if vs.len() <= TOP_SAMPLE {
        vs
    } else {
        vs.take(TOP_SAMPLE as int)
    };
    TypeV::Array(Box::new(collapsed(seen_values(b, nothing(), some, 0, NODE_BUDGET as int).0)))
}

/// No field was there in more records than there were, and objects are nested at most
/// `levels` deep.
pub open spec fn type_ok(ty: TypeV, levels: int) -> bool
    decreases ty,
{
    match ty {
        TypeV::Array(el) => type_ok(*el, levels),
        TypeV::Dict(_, v) => type_ok(*v, levels),
        TypeV::Union(vs) => forall|i: int| 0 <= i < vs.len() ==> type_ok(#[trigger] vs[i], levels),
        TypeV::Object(fs) => forall|i: int|
            0 <= i < fs.len() ==> levels > 0 && 0 <= (#[trigger] fs[i]).present
                <= fs[i].total && type_ok(fs[i].ty, levels - 1),
        _ => true,
    }
}

/// Objects are nested at most `levels` deep.
pub open spec fn nested_within(ty: TypeV, levels: int) -> bool
    decreases ty,
{
    match ty {
        TypeV::Array(el) => nested_within(*el, levels),
        TypeV::Dict(_, v) => nested_within(*v, levels),
        TypeV::Union(vs) => forall|i: int|
            0 <= i < vs.len() ==> nested_within(#[trigger] vs[i], levels),
        TypeV::Object(fs) => forall|i: int|
            0 <= i < fs.len() ==> levels > 0 && nested_within((#[trigger] fs[i]).ty, levels - 1),
        _ => true,
    }
}

pub proof fn lemma_type_ok_nested(ty: TypeV, levels: int)
    requires
        type_ok(ty, levels),
    ensures
        nested_within(ty, levels),
    decreases ty,
{
    match ty {
        TypeV::Array(el) => lemma_type_ok_nested(*el, levels),
        TypeV::Dict(_, v) => lemma_type_ok_nested(*v, levels),
        TypeV::Union(vs) => {
            assert forall|i: int| 0 <= i < vs.len() implies nested_within(
                #[trigger] vs[i],
                levels,
            ) by {
                lemma_type_ok_nested(vs[i], levels);
            }
        },
        TypeV::Object(fs) => {
            assert forall|i: int| 0 <= i < fs.len() implies levels > 0 && nested_within(
                (#[trigger] fs[i]).ty,
                levels - 1,
            ) by {
                lemma_type_ok_nested(fs[i].ty, levels - 1);
            }
        },
        _ => {},
    }
}

pub proof fn lemma_type_ok_more(ty: TypeV, levels: int, more: int)
    requires
        type_ok(ty, levels),
        levels <= more,
    ensures
        type_ok(ty, more),
    decreases ty,
{
    match ty {
        TypeV::Array(el) => lemma_type_ok_more(*el, levels, more),
        TypeV::Dict(_, v) => lemma_type_ok_more(*v, levels, more),
        TypeV::Union(vs) => {
            assert forall|i: int| 0 <= i < vs.len() implies type_ok(#[trigger] vs[i], more) by {
                lemma_type_ok_more(vs[i], levels, more);
            }
        },
        TypeV::Object(fs) => {
            assert forall|i: int| 0 <= i < fs.len() implies more > 0 && 0 <= (
            #[trigger] fs[i]).present <= fs[i].total && type_ok(fs[i].ty, more - 1) by {
                lemma_type_ok_more(fs[i].ty, levels - 1, more - 1);
            }
        },
        _ => {},
    }
}

spec fn all_ok(vs: Seq<TypeV>, levels: int) -> bool {
    forall|i: int| 0 <= i < vs.len() ==> type_ok(#[trigger] vs[i], levels)
}

proof fn lemma_all_ok_append(a: Seq<TypeV>, seen: bool, t: TypeV, levels: int)
    requires
        all_ok(a, levels),
        type_ok(t, levels),
    ensures
        all_ok(a + variant_if(seen, t), levels),
{
    let c = a + variant_if(seen, t);
    assert forall|i: int| 0 <= i < c.len() implies type_ok(#[trigger] c[i], levels) by {
        if i < a.len() {
            assert(c[i] == a[i]);
        }
    }
}

proof fn lemma_shapes_ok(acc: AccV, object: TypeV, array: TypeV, dict: TypeV, levels: int)
    requires
        type_ok(object, levels),
        type_ok(array, levels),
        type_ok(dict, levels),
    ensures
        all_ok(shapes(acc, object, array, dict), levels),
{
    reveal(shapes);
    let v0 = Seq::<TypeV>::empty();
    let v1 = variant_if(acc.rec_count > 0, object);
    lemma_all_ok_append(v0, acc.rec_count > 0, object, levels);
    assert(v0 + v1 =~= v1);
    lemma_all_ok_append(v1, acc.arr_count > 0, array, levels);
    let v2 = v1 + variant_if(acc.arr_count > 0, array);
    lemma_all_ok_append(v2, acc.map_count > 0, dict, levels);
    let v3 = v2 + variant_if(acc.map_count > 0, dict);
    lemma_all_ok_append(v3, acc.str, TypeV::Str, levels);
    let v4 = v3 + variant_if(acc.str, TypeV::Str);
    lemma_all_ok_append(v4, acc.num, TypeV::Num, levels);
    let v5 = v4 + variant_if(acc.num, TypeV::Num);
    lemma_all_ok_append(v5, acc.boo, TypeV::Bool, levels);
    let v6 = v5 + variant_if(acc.boo, TypeV::Bool);
    lemma_all_ok_append(v6, acc.null, TypeV::Null, levels);
}

proof fn lemma_collapsed_ok(acc: AccV, used: int, levels: int)
    requires
        acc_bounded(acc, used, levels),
        levels >= 0,
    ensures
        type_ok(collapsed(acc), levels),
    decreases acc,
{
    let fields = collapsed_fields(acc);
    assert forall|i: int| 0 <= i < fields.len() implies levels > 0 && 0 <= (
    #[trigger] fields[i]).present <= fields[i].total && type_ok(
        fields[i].ty,
        levels - 1,
    ) by {
        assert(0 <= acc.fields[i].present);
        lemma_collapsed_ok(acc.fields[i].acc, used, levels - 1);
    }
    let object = TypeV::Object(fields);
    assert(type_ok(object, levels));
    let el = match acc.arr_elem {
        Some(a) => collapsed(*a),
        None => TypeV::Any,
    };
    if let Some(a) = acc.arr_elem {
        lemma_collapsed_ok(*a, used, levels - 1);
        lemma_type_ok_more(el, levels - 1, levels);
    }
    let val = match acc.map_val {
        Some(a) => collapsed(*a),
        None => TypeV::Any,
    };
    if let Some(a) = acc.map_val {
        lemma_collapsed_ok(*a, used, levels - 1);
        lemma_type_ok_more(val, levels - 1, levels);
    }
    let key = if acc.map_key_str {
        MapKey::Str
    } else {
        MapKey::Num
    };
    let array = TypeV::Array(Box::new(el));
    let dict = TypeV::Dict(key, Box::new(val));
    assert(type_ok(el, levels));
    assert(type_ok(val, levels));
    lemma_shapes_ok(acc, object, array, dict, levels);
    let vs = shapes(acc, object, array, dict);
    assert(vs == variants(acc));
    if vs.len() == 1 {
        assert(type_ok(vs[0], levels));
    } else if vs.len() > 1 {
        assert(type_ok(TypeV::Union(vs), levels));
    }
}

/// Infer the structural type of the value at `[start, end)`. `jsonl` treats the
/// range as a stream of documents (an array of them).
pub fn infer(b: &[u8], start: usize, end: usize, kind: Kind, jsonl: bool) -> (r: Type)
    requires
        addressable(b@),
        if jsonl {
            end <= b@.len() + 1
        } else {
            value_range(b@, start as int, end as int, kind)
        },
    ensures
        r.model() == inferred(
            b@,
            (ValueV { start: start as int, end: end as int, kind }),
            jsonl,
        ),
        type_ok(r.model(), MAX_DEPTH + 1),
{
    let mut acc = Acc::new();
    if jsonl {
        let cur = Cursor::lines(start, end);
        let left: usize = acc.add_from(b, cur, TOP_SAMPLE, 1, NODE_BUDGET);
        proof {
            lemma_collapsed_ok(acc.model(), NODE_BUDGET - left, levels_below(1));
            lemma_type_ok_more(collapsed(acc.model()), levels_below(1), MAX_DEPTH + 1);
        }
        return Type::Array(Box::new(acc.finish()));
    }
    let left: usize = acc.add(b, start, end, kind, 0, NODE_BUDGET);
    proof {
        lemma_collapsed_ok(acc.model(), NODE_BUDGET - left, levels_below(0));
    }
    acc.finish()
}

pub open spec fn item_values(items: Seq<(usize, usize, Kind)>) -> Seq<ValueV> {
    Seq::new(
        items.len(),
        |i: int|
            ValueV { start: items[i].0 as int, end: items[i].1 as int, kind: items[i].2 },
    )
}

/// Infer the type of a synthetic sequence: values that belong together but
/// aren't contiguous in the file, like a filter pane's hits. Merged the same way
/// an array's elements are, and reported as one: `T[]`.
pub fn infer_seq(b: &[u8], items: &[(usize, usize, Kind)]) -> (r: Type)
    requires
        addressable(b@),
        forall|i: int|
            0 <= i < items@.len() ==> value_wf(b@, #[trigger] item_values(items@)[i]),
    ensures
        r.model() == inferred_seq(b@, item_values(items@)),
        type_ok(r.model(), MAX_DEPTH + 1),
{
    let ghost vs = item_values(items@);
    let ghost some = if vs.len() <= TOP_SAMPLE {
        vs
    } else {
        vs.take(TOP_SAMPLE as int)
    };
    let mut el = Acc::new();
    let mut left: usize = NODE_BUDGET;
    let mut i: usize = 0;
    while i < items.len() && i < TOP_SAMPLE
        invariant
            vs == item_values(items@),
            some == (if vs.len() <= TOP_SAMPLE {
                vs
            } else {
                vs.take(TOP_SAMPLE as int)
            }),
            forall|k: int| 0 <= k < items@.len() ==> value_wf(b@, #[trigger] vs[k]),
            i <= items@.len(),
            i <= TOP_SAMPLE,
            el.wf(),
            left <= NODE_BUDGET,
            acc_bounded(el.model(), NODE_BUDGET - left, levels_below(1)),
            seen_values(b@, nothing(), some, 0, NODE_BUDGET as int) == seen_values(
                b@,
                el.model(),
                some,
                i as int,
                left as int,
            ),
        decreases items@.len() - i,
    {
        assert(value_wf(b@, vs[i as int]));
        assert(some[i as int] == vs[i as int]);
        left = el.add(b, items[i].0, items[i].1, items[i].2, 1, left);
        i += 1;
    }
    proof {
        lemma_collapsed_ok(el.model(), NODE_BUDGET - left, levels_below(1));
        lemma_type_ok_more(collapsed(el.model()), levels_below(1), MAX_DEPTH + 1);
    }
    Type::Array(Box::new(el.finish()))
}

// ---------------------------------------------------------------------------
// Sequences and arrays
// ---------------------------------------------------------------------------
/// A budget that was not used up is not missed where it is larger.
proof fn lemma_seen_more(b: Seq<u8>, acc: AccV, v: ValueV, depth: int, budget: int, more: int)
    requires
        more >= 0,
        seen_value(b, acc, v, depth, budget).1 > 0,
    ensures
        ({
            let (a, left) = seen_value(b, acc, v, depth, budget);
            seen_value(b, acc, v, depth, budget + more) == (a, left + more)
        }),
    decreases MAX_DEPTH + 1 - depth, 0int, 0int,
{
    if depth <= MAX_DEPTH && budget > 0 {
        match v.kind {
            Kind::Array => {
                let cs = first_children(elements(b, v), sample_limit(depth));
                let el = acc_or_nothing(acc.arr_elem);
                lemma_seen_each_more(b, el, cs, 0, depth + 1, budget - 1, more);
            },
            Kind::Object => {
                if map_key(b, v.start, v.end) is Some {
                    let cs = first_children(elements(b, v), sample_limit(depth));
                    let mv = acc_or_nothing(acc.map_val);
                    lemma_seen_each_more(b, mv, cs, 0, depth + 1, budget - 1, more);
                } else {
                    let cs = first_children(elements(b, v), KEY_CAP as int);
                    lemma_seen_fields_more(b, acc.fields, cs, 0, depth + 1, budget - 1, more);
                }
            },
            _ => {},
        }
    } else {
        lemma_seen_dry(b, acc, v, depth, budget);
    }
}

/// A used-up budget stays so.
proof fn lemma_seen_dry(b: Seq<u8>, acc: AccV, v: ValueV, depth: int, budget: int)
    requires
        depth > MAX_DEPTH || budget <= 0,
    ensures
        seen_value(b, acc, v, depth, budget) == (acc, budget),
{
}

proof fn lemma_each_dry(b: Seq<u8>, acc: AccV, cs: Seq<ChildV>, i: int, depth: int, budget: int)
    requires
        budget <= 0,
    ensures
        seen_each(b, acc, cs, i, depth, budget).1 <= 0,
    decreases cs.len() - i,
{
    if i < cs.len() {
        lemma_seen_dry(b, acc, value_of(cs[i]), depth, budget);
        lemma_each_dry(b, acc, cs, i + 1, depth, budget);
    }
}

proof fn lemma_fields_dry(
    b: Seq<u8>,
    fs: Seq<FieldAccV>,
    cs: Seq<ChildV>,
    i: int,
    depth: int,
    budget: int,
)
    requires
        budget <= 0,
    ensures
        seen_fields(b, fs, cs, i, depth, budget).1 <= 0,
    decreases cs.len() - i,
{
    if i < cs.len() {
        let (gs, p) = with_field(fs, cs[i].label);
        let present = if first_of_key(cs, i) {
            gs[p].present + 1
        } else {
            gs[p].present
        };
        let hs = gs.update(p, FieldAccV { name: gs[p].name, present, acc: gs[p].acc });
        lemma_seen_dry(b, gs[p].acc, value_of(cs[i]), depth, budget);
        lemma_fields_dry(b, hs, cs, i + 1, depth, budget);
    }
}

proof fn lemma_seen_each_more(
    b: Seq<u8>,
    acc: AccV,
    cs: Seq<ChildV>,
    i: int,
    depth: int,
    budget: int,
    more: int,
)
    requires
        more >= 0,
        seen_each(b, acc, cs, i, depth, budget).1 > 0,
    ensures
        ({
            let (a, left) = seen_each(b, acc, cs, i, depth, budget);
            seen_each(b, acc, cs, i, depth, budget + more) == (a, left + more)
        }),
    decreases MAX_DEPTH + 1 - depth, 1int, cs.len() - i,
{
    if i < cs.len() {
        let (a, left) = seen_value(b, acc, value_of(cs[i]), depth, budget);
        if left <= 0 {
            lemma_each_dry(b, a, cs, i + 1, depth, left);
        }
        lemma_seen_more(b, acc, value_of(cs[i]), depth, budget, more);
        lemma_seen_each_more(b, a, cs, i + 1, depth, left, more);
    }
}

proof fn lemma_seen_fields_more(
    b: Seq<u8>,
    fs: Seq<FieldAccV>,
    cs: Seq<ChildV>,
    i: int,
    depth: int,
    budget: int,
    more: int,
)
    requires
        more >= 0,
        seen_fields(b, fs, cs, i, depth, budget).1 > 0,
    ensures
        ({
            let (a, left) = seen_fields(b, fs, cs, i, depth, budget);
            seen_fields(b, fs, cs, i, depth, budget + more) == (a, left + more)
        }),
    decreases MAX_DEPTH + 1 - depth, 1int, cs.len() - i,
{
    if i < cs.len() {
        let (gs, p) = with_field(fs, cs[i].label);
        let (a, left) = seen_value(b, gs[p].acc, value_of(cs[i]), depth, budget);
        let present = if first_of_key(cs, i) {
            gs[p].present + 1
        } else {
            gs[p].present
        };
        let hs = gs.update(p, FieldAccV { name: gs[p].name, present, acc: a });
        if left <= 0 {
            lemma_fields_dry(b, hs, cs, i + 1, depth, left);
        }
        lemma_seen_more(b, gs[p].acc, value_of(cs[i]), depth, budget, more);
        lemma_seen_fields_more(b, hs, cs, i + 1, depth, left, more);
    }
}

/// Values looked at one after another are looked at as the children that they are.
proof fn lemma_values_are_children(
    b: Seq<u8>,
    acc: AccV,
    vs: Seq<ValueV>,
    cs: Seq<ChildV>,
    i: int,
    budget: int,
)
    requires
        vs.len() == cs.len(),
        forall|k: int| 0 <= k < cs.len() ==> #[trigger] vs[k] == value_of(cs[k]),
        0 <= i,
    ensures
        seen_values(b, acc, vs, i, budget) == seen_each(b, acc, cs, i, 1, budget),
    decreases vs.len() - i,
{
    if i < vs.len() {
        let (a, left) = seen_value(b, acc, vs[i], 1, budget);
        lemma_values_are_children(b, a, vs, cs, i + 1, left);
    }
}

/// The values of the elements of an array.
pub open spec fn element_values(b: Seq<u8>, v: ValueV) -> Seq<ValueV> {
    Seq::new(elements(b, v).len(), |i: int| value_of(elements(b, v)[i]))
}

/// A synthetic sequence is merged just as an array's elements are: where there is
/// budget left, the elements of an array as a sequence have the type of the array.
pub proof fn law_sequence_is_inferred_like_an_array(b: Seq<u8>, v: ValueV)
    requires
        v.kind is Array,
        seen_value(b, nothing(), v, 0, NODE_BUDGET as int).1 > 0,
    ensures
        inferred_seq(b, element_values(b, v)) == inferred(b, v, false),
{
    let all = elements(b, v);
    let vs = element_values(b, v);
    let cs = first_children(all, TOP_SAMPLE as int);
    let some = if vs.len() <= TOP_SAMPLE {
        vs
    } else {
        vs.take(TOP_SAMPLE as int)
    };
    lemma_values_are_children(b, nothing(), some, cs, 0, NODE_BUDGET as int);
    lemma_seen_each_more(b, nothing(), cs, 0, 1, NODE_BUDGET - 1, 1);
    let el = seen_each(b, nothing(), cs, 0, 1, NODE_BUDGET - 1).0;
    let acc = AccV { arr_count: 1, arr_elem: Some(Box::new(el)), ..nothing() };
    assert(seen_value(b, nothing(), v, 0, NODE_BUDGET as int).0 == acc);
    reveal(shapes);
    let array = TypeV::Array(Box::new(collapsed(el)));
    assert(variants(acc) =~= seq![array]);
}

} // verus!
