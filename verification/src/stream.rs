//! Documents that arrive bit by bit: what kind of document it is, when it is time
//! to parse it anew, and what stays true as it grows.

use crate::json::{
    all_ws, doc_bytes, doc_ok, law_stream_children, law_value_end, stands, stream_bytes,
    stream_child, stream_children, stream_ok, stream_pos, Item,
};
use crate::pane::{focus_path, rebuilt, tree_ok, Pane, PaneV};
use crate::scanner::{
    addressable, extends, kind_of, skip_value, skip_ws, token_end, ws_byte, ws_end,
};
use crate::session::{
    lemma_linked_update, lemma_panes_at, lemma_panes_update, pane_models, panes_drawn, panes_wf,
    App, AppV,
};
use crate::text::{ascii_lower, chars_of, lower_ascii};
use crate::tree::{document_root, law_tree_outlives_growth};
use vstd::prelude::*;

verus! {

// ---------------------------------------------------------------------------
// One document or many
// ---------------------------------------------------------------------------
/// Whether anything but whitespace follows the first value.
pub open spec fn several_values(b: Seq<u8>) -> bool {
    let len = b.len() as int;
    let first = ws_end(b, 0, len);
    &&& first < len
    &&& ws_end(b, token_end(b, ws_end(b, first, len), len), len) < len
}

/// Sniff whether a buffer holds more than one top-level JSON value (NDJSON or
/// concatenated JSON) rather than a single document. Used for piped input, which
/// has no filename extension to key off. Cheap: it skips exactly one value and
/// checks whether anything non-whitespace follows.
pub fn sniff_multi(b: &[u8]) -> (r: bool)
    requires
        addressable(b@),
    ensures
        r == several_values(b@),
{
    let i: usize = skip_ws(b, 0, b.len());
    if i >= b.len() {
        return false;
    }
    let after: usize = skip_value(b, i, b.len());
    skip_ws(b, after, b.len()) < b.len()
}

/// Whether a name ends in `ext`, letter case aside.
pub open spec fn has_extension(name: Seq<char>, ext: Seq<char>) -> bool {
    let k = name.len() - ext.len();
    k >= 0 && forall|i: int| 0 <= i < ext.len() ==> lower_ascii(#[trigger] name[k + i]) == ext[i]
}

/// Whether a file name is that of a stream of documents, one per line.
pub open spec fn lines_name(name: Seq<char>) -> bool {
    has_extension(name, ".jsonl"@) || has_extension(name, ".ndjson"@) || has_extension(
        name,
        ".ldjson"@,
    ) || has_extension(name, ".jsonlines"@)
}

fn ends_in(name: &Vec<char>, ext: &str) -> (r: bool)
    ensures
        r == has_extension(name@, ext@),
{
    let e = chars_of(ext);
    if name.len() < e.len() {
        return false;
    }
    let k: usize = name.len() - e.len();
    let mut i: usize = 0;
    while i < e.len()
        invariant
            i <= e@.len(),
            e@ == ext@,
            k + e.len() == name.len(),
            k == name@.len() - e@.len(),
            forall|j: int| 0 <= j < i ==> lower_ascii(#[trigger] name@[k + j]) == e@[j],
        decreases e@.len() - i,
    {
        if ascii_lower(name[k + i]) != e[i] {
            assert(lower_ascii(name@[k + i as int]) != ext@[i as int]);
            return false;
        }
        i += 1;
    }
    true
}

/// NDJSON / JSON Lines detected by extension (cheap: a look at the content would
/// have to scan the whole file and defeat the lazy open).
pub fn is_lines_name(name: &str) -> (r: bool)
    ensures
        r == lines_name(name@),
{
    let cs = chars_of(name);
    ends_in(&cs, ".jsonl") || ends_in(&cs, ".ndjson") || ends_in(&cs, ".ldjson") || ends_in(
        &cs,
        ".jsonlines",
    )
}

// ---------------------------------------------------------------------------
// When to parse anew
// ---------------------------------------------------------------------------
/// How long a tree is kept, in milliseconds, while bytes keep arriving.
pub const STREAM_REBUILD_MS: u128 = 100;

/// How far a stream has come.
pub struct Feed {
    /// Bytes arrived that aren't in the tree yet.
    pub dirty: bool,
    /// The reader hit the end.
    pub done: bool,
    /// There is more than one document. Once so, always so.
    pub jsonl: bool,
}

/// What the loop does with the bytes at hand.
pub open spec fn settled(f: Feed, b: Seq<u8>, elapsed_ms: u128) -> (Feed, bool) {
    let due = f.dirty && (f.done || elapsed_ms >= STREAM_REBUILD_MS);
    (
        Feed { dirty: f.dirty && !due, done: f.done, jsonl: f.jsonl || several_values(b) },
        due,
    )
}

/// While bytes keep arriving, what is there is parsed at most ten times a second; nothing is
/// parsed where nothing has arrived, and what has arrived waits no longer than until then.
pub proof fn law_parsing_takes_its_time(f: Feed, b: Seq<u8>, elapsed_ms: u128)
    requires
        !f.done,
    ensures
        ({
            let (g, due) = settled(f, b, elapsed_ms);
            &&& elapsed_ms < 100 ==> !due
            &&& elapsed_ms >= 100 ==> due == f.dirty
            &&& g.dirty == (f.dirty && !due)
            &&& !g.done
            &&& g.jsonl == (f.jsonl || several_values(b))
        }),
{
}

/// Once a stream holds more than one document it does for good, however often it is
/// looked at.
pub proof fn law_several_documents_stay(f: Feed, b: Seq<u8>, elapsed_ms: u128)
    requires
        f.jsonl,
    ensures
        settled(f, b, elapsed_ms).0.jsonl,
{
}

/// Bytes that have arrived are parsed at the end of the stream at the latest, and
/// then never again.
pub proof fn law_the_end_is_parsed_once(f: Feed, b: Seq<u8>, elapsed_ms: u128)
    requires
        f.done,
    ensures
        settled(f, b, elapsed_ms).1 == f.dirty,
        !settled(f, b, elapsed_ms).0.dirty,
        !settled(settled(f, b, elapsed_ms).0, b, elapsed_ms).1,
{
}

impl Feed {
    pub fn new() -> (r: Feed)
        ensures
            r == (Feed { dirty: false, done: false, jsonl: false }),
    {
        Feed { dirty: false, done: false, jsonl: false }
    }

    /// Bytes have arrived.
    pub fn arrived(&mut self)
        ensures
            *final(self) == (Feed { dirty: true, ..*old(self) }),
    {
        self.dirty = true;
    }

    /// Nothing more will arrive.
    pub fn ended(&mut self)
        ensures
            *final(self) == (Feed { done: true, ..*old(self) }),
    {
        self.done = true;
    }

    /// Look at the bytes that have arrived: whether they are several documents, and
    /// whether it is time to parse them anew. That is so on a throttle, or
    /// immediately once the stream is complete.
    pub fn settle(&mut self, b: &[u8], elapsed_ms: u128) -> (r: bool)
        requires
            addressable(b@),
        ensures
            settled(*old(self), b@, elapsed_ms) == (*final(self), r),
    {
        if !self.jsonl && sniff_multi(b) {
            self.jsonl = true;
        }
        let due = self.dirty && (self.done || elapsed_ms >= STREAM_REBUILD_MS);
        if due {
            self.dirty = false;
        }
        due
    }
}

// ---------------------------------------------------------------------------
// Growth
// ---------------------------------------------------------------------------
/// A pane over a buffer is one over the buffer with more bytes behind it: it shows
/// what it showed.
pub proof fn law_pane_outlives_growth(v: &Pane, a: Seq<u8>, b: Seq<u8>)
    requires
        v.wf(a),
        extends(a, b),
        addressable(b),
    ensures
        v.wf(b),
        v.model(b) == v.model(a),
{
    reveal(tree_ok);
    law_tree_outlives_growth(&v.root, a, b);
}

/// A workspace over a buffer is one over the buffer with more bytes behind it.
pub proof fn law_workspace_outlives_growth(app: &App, a: Seq<u8>, b: Seq<u8>)
    requires
        app.wf(a),
        extends(a, b),
        addressable(b),
    ensures
        app.wf(b),
        app.model(b) == app.model(a),
        app.drawn(a) ==> app.drawn(b),
{
    reveal(panes_wf);
    reveal(panes_drawn);
    assert forall|i: int| 0 <= i < app.views@.len() implies (#[trigger] app.views@[i]).wf(b)
        && app.views@[i].model(b) == app.views@[i].model(a) by {
        law_pane_outlives_growth(&app.views@[i], a, b);
    }
    assert(pane_models(app.views@, b) =~= pane_models(app.views@, a));
}

/// The first pane over a whole document, from number `i` on.
pub open spec fn document_pane(views: Seq<PaneV>, i: int) -> Option<int>
    decreases views.len() - i,
{
    if i >= views.len() {
        None
    } else if !views[i].derived {
        Some(i)
    } else {
        document_pane(views, i + 1)
    }
}

/// The workspace with the document parsed anew. Only the document pane follows the
/// stream; split panes show the bytes that had arrived when they were split off.
pub open spec fn reparsed(b: Seq<u8>, a: AppV, jsonl: bool) -> AppV {
    match document_pane(a.views, 0) {
        Some(i) => AppV { views: a.views.update(i, rebuilt(b, a.views[i], jsonl)), ..a },
        None => a,
    }
}

impl App {
    /// Re-parse the document pane over the bytes that have arrived. The rows of a
    /// pane that was re-parsed are those of the tree before, until the next frame.
    pub fn rebuild_document(&mut self, b: &[u8], jsonl: bool)
        requires
            old(self).wf(b@),
            addressable(b@),
        ensures
            final(self).wf(b@),
            final(self).model(b@) == reparsed(b@, old(self).model(b@), jsonl),
    {
        let ghost a = self.model(b@);
        let ghost views = self.views@;
        let mut i: usize = 0;
        while i < self.views.len()
            invariant
                i <= self.views@.len(),
                self.views@ == views,
                a.views == pane_models(views, b@),
                document_pane(a.views, 0) == document_pane(a.views, i as int),
                *self == *old(self),
                addressable(b@),
                self.wf(b@),
            decreases self.views@.len() - i,
        {
            assert(a.views[i as int] == views[i as int].model(b@));
            if !self.views[i].derived {
                proof {
                    lemma_panes_at(views, b@, i as int);
                }
                let v = &mut self.views[i];
                v.rebuild(b, jsonl);
                proof {
                    let w = self.views@[i as int];
                    assert(self.views@ =~= views.update(i as int, w));
                    assert(w.wf(b@)) by {
                        reveal(tree_ok);
                    }
                    lemma_panes_update(views, b@, i as int, w);
                    lemma_linked_update(a.views, self.next_id as int, i as int, w.model(b@));
                }
                return;
            }
            i += 1;
        }
    }
}

proof fn lemma_blanks_end(b: Seq<u8>, i: int, z: int, end: int)
    requires
        i <= z <= end,
        forall|k: int| i <= k < z ==> ws_byte(#[trigger] b[k]),
        z < end ==> !ws_byte(b[z]),
    ensures
        ws_end(b, i, end) == z,
    decreases z - i,
{
    if i < z {
        assert(ws_byte(b[i]));
        lemma_blanks_end(b, i + 1, z, end);
    }
}

/// Bytes hold several documents exactly where more than one document is written in them,
/// whatever whitespace there is around them.
pub proof fn law_several_documents(docs: Seq<Item>)
    requires
        stream_ok(docs),
        docs.len() > 0,
        stream_bytes(docs, 0).len() < usize::MAX,
    ensures
        several_values(stream_bytes(docs, 0)) <==> docs.len() > 1,
{
    let b = stream_bytes(docs, 0);
    let len = b.len() as int;
    let it = docs[0];
    let v = doc_bytes(it.value);
    let rest = stream_bytes(docs, 1);
    law_stream_children(b, 0, docs);
    let first = stream_child(docs, 0, 0);
    assert(stream_children(docs, 0, 0)[0] == first);
    assert(first.start == it.lead.len());
    assert(b == it.lead + v + it.trail + rest);
    let p = it.lead.len() as int;
    let e = p + v.len();
    assert(all_ws(it.lead) && all_ws(it.trail) && doc_ok(it.value));
    assert forall|k: int| 0 <= k < p implies ws_byte(#[trigger] b[k]) by {
        assert(b[k] == it.lead[k]);
        assert(ws_byte(it.lead[k]));
    }
    if it.trail.len() > 0 {
        assert(b[e] == it.trail[0]);
        assert(ws_byte(it.trail[0]));
    } else {
        assert(rest.len() == 0 || docs.len() > 1);
    }
    law_value_end(b, p, it.value, len);
    lemma_blanks_end(b, 0, p, len);
    lemma_blanks_end(b, p, p, len);
    let t = e + it.trail.len();
    if docs.len() == 1 {
        assert(rest.len() == 0);
        assert forall|k: int| e <= k < len implies ws_byte(#[trigger] b[k]) by {
            assert(b[k] == it.trail[k - e]);
            assert(ws_byte(it.trail[k - e]));
        }
        lemma_blanks_end(b, e, len, len);
    } else {
        let next = docs[1];
        let w = doc_bytes(next.value);
        let q = t + next.lead.len();
        assert(all_ws(next.lead) && doc_ok(next.value));
        assert(stream_children(docs, 0, 0)[1] == stream_child(docs, 0, 1));
        reveal_with_fuel(stream_pos, 2);
        assert(stream_child(docs, 0, 1).start == q);
        assert(stands(b, q, w));
        assert(w.len() > 0 && !ws_byte(w[0])) by {
            assert(stands(w, 0, w));
            law_value_end(w, 0, next.value, w.len() as int);
        }
        assert(b[q + 0] == w[0]);
        assert(rest == next.lead + w + next.trail + stream_bytes(docs, 2));
        assert forall|k: int| e <= k < q implies ws_byte(#[trigger] b[k]) by {
            if k < t {
                assert(b[k] == it.trail[k - e]);
                assert(ws_byte(it.trail[k - e]));
            } else {
                assert(b[k] == rest[k - t]);
                assert(rest[k - t] == next.lead[k - t]);
                assert(ws_byte(next.lead[k - t]));
            }
        }
        lemma_blanks_end(b, e, q, len);
    }
}

/// Whether the end of a name is that word, in upper or lower case.
pub open spec fn ends_like(name: Seq<char>, ext: Seq<char>) -> bool {
    name.len() >= ext.len() && forall|i: int|
        0 <= i < ext.len() ==> ({
            let c = name[name.len() - ext.len() + i];
            c == #[trigger] ext[i] || 'a' <= ext[i] <= 'z' && c as int == ext[i] as int - 32
        })
}

/// The names of files that hold one document per line.
pub proof fn law_names_of_lines(name: Seq<char>)
    ensures
        lines_name(name) <==> ends_like(name, seq!['.', 'j', 's', 'o', 'n', 'l']) || ends_like(
            name,
            seq!['.', 'n', 'd', 'j', 's', 'o', 'n'],
        ) || ends_like(name, seq!['.', 'l', 'd', 'j', 's', 'o', 'n']) || ends_like(
            name,
            seq!['.', 'j', 's', 'o', 'n', 'l', 'i', 'n', 'e', 's'],
        ),
{
    reveal_strlit(".jsonl");
    reveal_strlit(".ndjson");
    reveal_strlit(".ldjson");
    reveal_strlit(".jsonlines");
    assert(".jsonl"@ =~= seq!['.', 'j', 's', 'o', 'n', 'l']);
    assert(".ndjson"@ =~= seq!['.', 'n', 'd', 'j', 's', 'o', 'n']);
    assert(".ldjson"@ =~= seq!['.', 'l', 'd', 'j', 's', 'o', 'n']);
    assert(".jsonlines"@ =~= seq!['.', 'j', 's', 'o', 'n', 'l', 'i', 'n', 'e', 's']);
    lemma_ends_like(name, ".jsonl"@);
    lemma_ends_like(name, ".ndjson"@);
    lemma_ends_like(name, ".ldjson"@);
    lemma_ends_like(name, ".jsonlines"@);
}

proof fn lemma_ends_like(name: Seq<char>, ext: Seq<char>)
    requires
        forall|i: int| 0 <= i < ext.len() ==> 'a' <= #[trigger] ext[i] <= 'z' || ext[i] == '.',
    ensures
        has_extension(name, ext) == ends_like(name, ext),
{
    let k = name.len() - ext.len();
    if has_extension(name, ext) {
        assert forall|i: int| 0 <= i < ext.len() implies ({
            let c = name[k + i];
            c == #[trigger] ext[i] || 'a' <= ext[i] <= 'z' && c as int == ext[i] as int - 32
        }) by {
            assert(lower_ascii(name[k + i]) == ext[i]);
        }
    }
    if ends_like(name, ext) {
        assert forall|i: int| 0 <= i < ext.len() implies lower_ascii(#[trigger] name[k + i])
            == ext[i] by {
            assert('a' <= ext[i] <= 'z' || ext[i] == '.');
        }
    }
}

/// Parsing anew touches one pane at most: the first that is over the whole document. Its name,
/// its place among the panes and its search stay; the cursor is to be put back on the node it
/// was on.
pub proof fn law_only_the_document_follows(b: Seq<u8>, a: AppV, jsonl: bool, i: int)
    requires
        0 <= i < a.views.len(),
    ensures
        ({
            let w = reparsed(b, a, jsonl);
            let first = !a.views[i].derived && forall|j: int|
                0 <= j < i ==> (#[trigger] a.views[j]).derived;
            &&& w == (AppV { views: w.views, ..a })
            &&& w.views.len() == a.views.len()
            &&& !first ==> w.views[i] == a.views[i]
            &&& first ==> {
                &&& w.views[i] == (PaneV {
                    root: w.views[i].root,
                    want_path: w.views[i].want_path,
                    ..a.views[i]
                })
                &&& a.views[i].want_path is Some ==> w.views[i].want_path == a.views[i].want_path
                &&& a.views[i].want_path is None ==> w.views[i].want_path == focus_path(a.views[i])
            }
        }),
{
    lemma_document_pane(a.views, 0);
}

proof fn lemma_document_pane(views: Seq<PaneV>, from: int)
    requires
        0 <= from,
    ensures
        match document_pane(views, from) {
            Some(k) => from <= k < views.len() && !views[k].derived && forall|j: int|
                from <= j < k ==> (#[trigger] views[j]).derived,
            None => forall|j: int| from <= j < views.len() ==> (#[trigger] views[j]).derived,
        },
    decreases views.len() - from,
{
    if from < views.len() && views[from].derived {
        lemma_document_pane(views, from + 1);
    }
}

/// The root of a document: under the name it is given, from its first value on, and of the
/// kind that this starts as; where there is nothing but whitespace yet, an empty root. A
/// stream of documents is an array of all that is there, and holds something as soon as there
/// is anything but whitespace.
pub proof fn law_the_root_of_a_document(b: Seq<u8>, name: Seq<char>, i: int)
    requires
        0 <= i <= b.len(),
        forall|k: int| 0 <= k < i ==> ws_byte(#[trigger] b[k]),
        i < b.len() ==> !ws_byte(b[i]),
    ensures
        ({
            let one = document_root(b, name, false);
            let all = document_root(b, name, true);
            &&& one.label == name && all.label == name
            &&& one.start == i && one.end == b.len()
            &&& !one.jsonl && all.jsonl
            &&& all.kind is Array
            &&& all.start == 0 && all.end == b.len()
            &&& all.has_children <==> i < b.len()
            &&& i < b.len() ==> one.kind == kind_of(b[i])
            &&& i == b.len() ==> one.kind is Null && !one.has_children
        }),
{
    lemma_leading_ws(b, 0, i);
}

proof fn lemma_leading_ws(b: Seq<u8>, from: int, i: int)
    requires
        0 <= from <= i <= b.len(),
        forall|k: int| from <= k < i ==> ws_byte(#[trigger] b[k]),
        i < b.len() ==> !ws_byte(b[i]),
    ensures
        ws_end(b, from, b.len() as int) == i,
    decreases i - from,
{
    if from < i {
        lemma_leading_ws(b, from + 1, i);
    }
}

} // verus!
