//! The columns in which a sequence of values can be laid out as a table.

use crate::schema::{type_ok, Field, FieldV, MapKey, Type, TypeV};
use crate::text::{join_strings, joined, texts};
use vstd::prelude::*;

verus! {

/// Deepest object nesting flattened into dotted columns (`user.city`). A field
/// below that shows as a `{…}` cell instead: a table is a grid, not a tree.
pub const COL_DEPTH: usize = 2;

/// Columns present in fewer than this share of sampled rows are dropped: a key
/// seen twice in 5000 rows is noise, not a column.
pub const MIN_FILL_PCT: usize = 5;

/// Hard cap on columns, so a pathological record can't build a 4000-wide grid.
pub const MAX_COLS: usize = 64;

/// One column of the table view: where its cell lives inside a row, and what to
/// call it. Derived from the same inferred [`Type`] the `t` overlay renders, so
/// the table's shape and the schema's never disagree.
#[derive(Debug, PartialEq, Clone)]
pub struct Column {
    /// Field path within a row (`["user","city"]`). Empty when the row is the
    /// value (a sequence of scalars).
    pub path: Vec<String>,
    /// Header text: `path` joined with dots, or `value` for a bare sequence.
    pub label: String,
    /// True when every value observed here was a number, so cells right-align.
    pub num: bool,
    /// Percent of sampled rows carrying this field; 100 = always present.
    pub fill: usize,
}

/// A column as the contracts speak of it.
pub struct ColumnV {
    pub path: Seq<Seq<char>>,
    pub label: Seq<char>,
    pub num: bool,
    pub fill: int,
}

impl View for Column {
    type V = ColumnV;

    open spec fn view(&self) -> ColumnV {
        ColumnV {
            path: texts(self.path@),
            label: self.label@,
            num: self.num,
            fill: self.fill as int,
        }
    }
}

pub open spec fn column_views(cols: Seq<Column>) -> Seq<ColumnV> {
    Seq::new(cols.len(), |i: int| cols[i]@)
}

/// The element type of a sequence: what one table row looks like. A union has
/// that of the first sequence in it.
pub open spec fn element_type(ty: TypeV) -> Option<TypeV>
    decreases ty, 1int, 0int,
{
    match ty {
        TypeV::Array(el) => Some(*el),
        TypeV::Dict(_, v) => Some(*v),
        TypeV::Union(vs) => element_type_from(ty, 0),
        _ => None,
    }
}

/// The element type of the first sequence in a union, from number `i` on.
pub open spec fn element_type_from(ty: TypeV, i: int) -> Option<TypeV>
    decreases ty, 0int, (if ty is Union { ty->Union_0.len() - i } else { 0 }),
{
    match ty {
        TypeV::Union(vs) => if 0 <= i < vs.len() {
            match element_type(vs[i]) {
                Some(t) => Some(t),
                None => element_type_from(ty, i + 1),
            }
        } else {
            None
        },
        _ => None,
    }
}

/// The fields of a record that has any. A union has those of the first such
/// record in it.
pub open spec fn record_fields(ty: TypeV) -> Option<Seq<FieldV>>
    decreases ty, 1int, 0int,
{
    match ty {
        TypeV::Object(fs) => if fs.len() > 0 {
            Some(fs)
        } else {
            None
        },
        TypeV::Union(vs) => record_fields_from(ty, 0),
        _ => None,
    }
}

/// The fields of the first record in a union, from number `i` on.
pub open spec fn record_fields_from(ty: TypeV, i: int) -> Option<Seq<FieldV>>
    decreases ty, 0int, (if ty is Union { ty->Union_0.len() - i } else { 0 }),
{
    match ty {
        TypeV::Union(vs) => if 0 <= i < vs.len() {
            match record_fields(vs[i]) {
                Some(fs) => Some(fs),
                None => record_fields_from(ty, i + 1),
            }
        } else {
            None
        },
        _ => None,
    }
}

fn element_of(ty: &Type) -> (r: Option<&Type>)
    ensures
        match r {
            Some(t) => element_type(ty.model()) == Some(t.model()) && (forall|n: int|
                type_ok(ty.model(), n) ==> #[trigger] type_ok(t.model(), n)),
            None => element_type(ty.model()) is None,
        },
    decreases ty,
{
    match ty {
        Type::Array(el) => Some(el),
        Type::Dict(_, v) => Some(v),
        Type::Union(vs) => {
            let ghost m = ty.model();
            let mut i: usize = 0;
            while i < vs.len()
                invariant
                    *ty == Type::Union(*vs),
                    m == ty.model(),
                    i <= vs@.len(),
                    element_type(m) == element_type_from(m, i as int),
                decreases vs@.len() - i,
            {
                assert(m->Union_0[i as int] == vs@[i as int].model());
                if let Some(t) = element_of(&vs[i]) {
                    proof {
                        assert forall|n: int| type_ok(m, n) implies #[trigger] type_ok(
                            t.model(),
                            n,
                        ) by {
                            assert(type_ok(m->Union_0[i as int], n));
                        }
                    }
                    return Some(t);
                }
                i += 1;
            }
            None
        },
        _ => None,
    }
}

/// The record fields of a type, looking through a union (rows of mixed shapes
/// tabulate on the object arm; the others simply leave their cells blank).
fn record_of(ty: &Type) -> (r: Option<&Vec<Field>>)
    ensures
        match r {
            Some(fs) => record_fields(ty.model()) == Some(Type::Object(*fs).model()->Object_0) && (
            forall|n: int|
                type_ok(ty.model(), n) ==> #[trigger] type_ok(Type::Object(*fs).model(), n)),
            None => record_fields(ty.model()) is None,
        },
    decreases ty,
{
    match ty {
        Type::Object(f) => if f.len() > 0 {
            assert(*ty == Type::Object(*f));
            Some(f)
        } else {
            None
        },
        Type::Union(vs) => {
            let ghost m = ty.model();
            let mut i: usize = 0;
            while i < vs.len()
                invariant
                    *ty == Type::Union(*vs),
                    m == ty.model(),
                    i <= vs@.len(),
                    record_fields(m) == record_fields_from(m, i as int),
                decreases vs@.len() - i,
            {
                assert(m->Union_0[i as int] == vs@[i as int].model());
                if let Some(fs) = record_of(&vs[i]) {
                    proof {
                        assert forall|n: int| type_ok(m, n) implies #[trigger] type_ok(
                            Type::Object(*fs).model(),
                            n,
                        ) by {
                            assert(type_ok(m->Union_0[i as int], n));
                        }
                    }
                    return Some(fs);
                }
                i += 1;
            }
            None
        },
        _ => None,
    }
}

/// The share of records, in percent, that have a field.
pub open spec fn fill_rate(f: FieldV) -> int {
    if f.total == 0 {
        100
    } else {
        f.present * 100 / f.total
    }
}

/// The columns of the fields from number `i` on, nested records flattened. The
/// fill rate of a nested column compounds with that of its parent (`user` in 50%
/// of the rows and `city` in 50% of those make 25%).
pub open spec fn flat_columns(
    fs: Seq<FieldV>,
    i: int,
    prefix: Seq<Seq<char>>,
    fill: int,
    depth: int,
) -> Seq<ColumnV>
    decreases COL_DEPTH - depth, fs.len() - i,
{
    if i >= fs.len() {
        Seq::empty()
    } else {
        let f = fs[i];
        let own = fill * fill_rate(f) / 100;
        let path = prefix.push(f.name);
        (match record_fields(f.ty) {
            Some(sub) if depth + 1 < COL_DEPTH => flat_columns(sub, 0, path, own, depth + 1),
            _ => seq![
                ColumnV { path, label: joined(path, "."@), num: f.ty is Num, fill: own },
            ],
        }) + flat_columns(fs, i + 1, prefix, fill, depth)
    }
}

/// All the columns that a type has, where it is that of a sequence.
pub open spec fn all_columns(ty: TypeV) -> Option<Seq<ColumnV>> {
    match element_type(ty) {
        None => None,
        Some(el) => Some(
            match record_fields(el) {
                Some(fs) => flat_columns(fs, 0, Seq::empty(), 100, 0),
                None => seq![
                    ColumnV {
                        path: Seq::empty(),
                        label: "value"@,
                        num: el is Num,
                        fill: 100,
                    },
                ],
            },
        ),
    }
}

/// The columns that are not near-empty.
pub open spec fn filled(cols: Seq<ColumnV>) -> Seq<ColumnV>
    decreases cols.len(),
{
    if cols.len() == 0 {
        Seq::empty()
    } else if cols.last().fill >= MIN_FILL_PCT {
        filled(cols.drop_last()).push(cols.last())
    } else {
        filled(cols.drop_last())
    }
}

/// The columns that are shown: the near-empty ones are dropped unless that is
/// all of them, and no more than `MAX_COLS` are kept.
pub open spec fn shown_columns(cols: Seq<ColumnV>) -> Seq<ColumnV> {
    let some = if filled(cols).len() > 0 {
        filled(cols)
    } else {
        cols
    };
    if some.len() <= MAX_COLS {
        some
    } else {
        some.take(MAX_COLS as int)
    }
}

fn fill_of(f: &Field) -> (r: usize)
    requires
        f.present <= f.total,
    ensures
        r == fill_rate(f.model()),
        r <= 100,
{
    if f.total == 0 {
        100
    } else {
        proof {
            let p = f.present as int;
            let t = f.total as int;
            assert(p * 100 / t <= 100) by (nonlinear_arith)
                requires
                    0 <= p <= t,
                    t > 0,
            ;
        }
        (f.present as u128 * 100 / f.total as u128) as usize
    }
}

/// Flatten a record's fields into columns, descending into nested records up to
/// [`COL_DEPTH`].
fn push_columns(
    fields: &Vec<Field>,
    prefix: &mut Vec<String>,
    fill: usize,
    depth: usize,
    out: &mut Vec<Column>,
)
    requires
        depth < COL_DEPTH,
        fill <= 100,
        exists|n: int| type_ok(Type::Object(*fields).model(), n),
    ensures
        texts(final(prefix)@) == texts(old(prefix)@),
        column_views(final(out)@) == column_views(old(out)@) + flat_columns(
            Type::Object(*fields).model()->Object_0,
            0,
            texts(old(prefix)@),
            fill as int,
            depth as int,
        ),
    decreases COL_DEPTH - depth,
{
    let ghost fs = Type::Object(*fields).model()->Object_0;
    let ghost pre = texts(prefix@);
    let ghost start = column_views(out@);
    let ghost total = start + flat_columns(fs, 0, pre, fill as int, depth as int);
    let ghost levels = choose|n: int| type_ok(Type::Object(*fields).model(), n);
    let mut i: usize = 0;
    while i < fields.len()
        invariant
            depth < COL_DEPTH,
            fill <= 100,
            fs == Type::Object(*fields).model()->Object_0,
            type_ok(Type::Object(*fields).model(), levels),
            i <= fields@.len(),
            texts(prefix@) == pre,
            column_views(out@) + flat_columns(fs, i as int, pre, fill as int, depth as int)
                == total,
        decreases fields@.len() - i,
    {
        let ghost before = column_views(out@);
        let f = &fields[i];
        assert(fs[i as int] == f.model());
        assert(type_ok(fs[i as int].ty, levels - 1));
        let rate: usize = fill_of(f);
        proof {
            assert(fill * rate <= 100 * 100) by (nonlinear_arith)
                requires
                    0 <= fill <= 100,
                    0 <= rate <= 100,
            ;
        }
        let own: usize = fill * rate / 100;
        prefix.push(f.name.clone());
        let ghost path = texts(prefix@);
        assert(path =~= pre.push(fs[i as int].name));
        let mut nested = false;
        let ghost first = match record_fields(fs[i as int].ty) {
            Some(sub) if depth + 1 < COL_DEPTH => flat_columns(
                sub,
                0,
                path,
                own as int,
                depth + 1,
            ),
            _ => seq![
                ColumnV {
                    path,
                    label: joined(path, "."@),
                    num: fs[i as int].ty is Num,
                    fill: own as int,
                },
            ],
        };
        if depth + 1 < COL_DEPTH {
            if let Some(sub) = record_of(&f.ty) {
                nested = true;
                assert(type_ok(Type::Object(*sub).model(), levels - 1));
                push_columns(sub, prefix, own, depth + 1, out);
            }
        }
        if !nested {
            let label = join_strings(prefix.as_slice(), ".");
            let path_copy = clone_texts(prefix);
            let num = matches!(f.ty, Type::Num);
            out.push(Column { path: path_copy, label, num, fill: own });
        }
        proof {
            assert(column_views(out@) =~= before + first);
            let rest = flat_columns(fs, i + 1, pre, fill as int, depth as int);
            assert(before + first + rest =~= before + (first + rest));
        }
        let ghost longer = texts(prefix@);
        prefix.pop();
        proof {
            assert(texts(prefix@) =~= longer.drop_last());
            assert(longer.drop_last() =~= pre);
        }
        i += 1;
    }
    assert(column_views(out@) =~= total);
}

fn clone_texts(v: &Vec<String>) -> (r: Vec<String>)
    ensures
        texts(r@) == texts(v@),
{
    let mut out: Vec<String> = Vec::new();
    let mut i: usize = 0;
    while i < v.len()
        invariant
            i <= v@.len(),
            out@.len() == i,
            forall|k: int| 0 <= k < i ==> (#[trigger] out@[k])@ == v@[k]@,
        decreases v@.len() - i,
    {
        out.push(v[i].clone());
        i += 1;
    }
    assert(texts(out@) =~= texts(v@));
    out
}

/// Columns for tabulating a value of type `ty`, or `None` when it isn't a
/// sequence: a lone record has nothing to repeat down the page.
///
/// Also returns how many columns the type has, before sparse ones are dropped
/// and the rest capped, so the view can say what it isn't showing.
pub fn columns(ty: &Type) -> (r: Option<(Vec<Column>, usize)>)
    requires
        exists|n: int| type_ok(ty.model(), n),
    ensures
        match all_columns(ty.model()) {
            Some(all) => r matches Some(x) && column_views(x.0@) == shown_columns(all) && x.1
                == all.len(),
            None => r is None,
        },
        r matches Some(x) ==> forall|i: int|
            0 <= i < x.0@.len() ==> (#[trigger] x.0@[i]).fill <= 100,
{
    let el = match element_of(ty) {
        None => {
            return None;
        },
        Some(el) => el,
    };
    let ghost levels = choose|n: int| type_ok(ty.model(), n);
    assert(type_ok(el.model(), levels));
    let ghost all = all_columns(ty.model())->0;
    let mut cols: Vec<Column> = Vec::new();
    assert(column_views(cols@) =~= Seq::empty());
    match record_of(el) {
        Some(fields) => {
            let mut prefix: Vec<String> = Vec::new();
            assert(texts(prefix@) =~= Seq::empty());
            assert(type_ok(Type::Object(*fields).model(), levels));
            push_columns(fields, &mut prefix, 100, 0, &mut cols);
            assert(column_views(cols@) =~= all);
        },
        // A sequence of scalars (or of arrays) is still a table: one column of
        // values, which beats no table at all.
        None => {
            let path: Vec<String> = Vec::new();
            assert(texts(path@) =~= Seq::empty());
            cols.push(
                Column {
                    path,
                    label: "value".to_owned(),
                    num: matches!(el, Type::Num),
                    fill: 100,
                },
            );
            assert(column_views(cols@) =~= all);
        },
    }
    let total: usize = cols.len();
    // Drop the near-empty columns, unless that's all of them, in which case a
    // sparse grid still beats an empty one.
    let mut kept: Vec<Column> = Vec::new();
    let mut i: usize = 0;
    assert(all.take(0) =~= Seq::empty());
    assert(column_views(kept@) =~= Seq::empty());
    while i < cols.len()
        invariant
            all == column_views(cols@),
            i <= cols@.len(),
            column_views(kept@) == filled(all.take(i as int)),
        decreases cols@.len() - i,
    {
        proof {
            assert(all.take(i + 1).drop_last() =~= all.take(i as int));
            assert(all.take(i + 1).last() == cols@[i as int]@);
        }
        if cols[i].fill >= MIN_FILL_PCT {
            let ghost before = column_views(kept@);
            let c = &cols[i];
            kept.push(
                Column {
                    path: clone_texts(&c.path),
                    label: c.label.clone(),
                    num: c.num,
                    fill: c.fill,
                },
            );
            assert(column_views(kept@) =~= before.push(c@));
        }
        i += 1;
    }
    assert(all.take(all.len() as int) =~= all);
    let mut some = if kept.len() > 0 {
        kept
    } else {
        cols
    };
    let ghost whole = column_views(some@);
    if some.len() > MAX_COLS {
        some.truncate(MAX_COLS);
        assert(column_views(some@) =~= whole.take(MAX_COLS as int));
    }
    proof {
        law_fill_is_a_percentage(ty.model(), levels);
        assert forall|i: int| 0 <= i < some@.len() implies (#[trigger] some@[i]).fill <= 100 by {
            assert(column_views(some@)[i] == some@[i]@);
            lemma_filled_among(all);
        }
    }
    Some((some, total))
}

// ---------------------------------------------------------------------------
// Laws
// ---------------------------------------------------------------------------
proof fn lemma_filled(cols: Seq<ColumnV>)
    ensures
        filled(cols).len() <= cols.len(),
        forall|i: int| 0 <= i < filled(cols).len() ==> (#[trigger] filled(cols)[i]).fill
            >= MIN_FILL_PCT,
    decreases cols.len(),
{
    if cols.len() > 0 {
        lemma_filled(cols.drop_last());
    }
}

/// A table never has more columns than its type, nor more than the cap; and where
/// any column is filled, no near-empty one is shown.
pub proof fn law_shown_columns(cols: Seq<ColumnV>)
    ensures
        shown_columns(cols).len() <= cols.len(),
        shown_columns(cols).len() <= MAX_COLS,
        cols.len() > 0 ==> shown_columns(cols).len() > 0,
        filled(cols).len() > 0 ==> forall|i: int|
            0 <= i < shown_columns(cols).len() ==> (#[trigger] shown_columns(cols)[i]).fill
                >= MIN_FILL_PCT,
{
    lemma_filled(cols);
}

/// A value that is no sequence, nor a union with one, has no columns.
pub proof fn law_lone_value_has_no_columns(ty: TypeV)
    requires
        !(ty is Array || ty is Dict || ty is Union),
    ensures
        all_columns(ty) is None,
{
}

proof fn lemma_filled_among(cols: Seq<ColumnV>)
    ensures
        forall|i: int|
            0 <= i < filled(cols).len() ==> cols.contains(#[trigger] filled(cols)[i]),
    decreases cols.len(),
{
    if cols.len() > 0 {
        let d = cols.drop_last();
        lemma_filled_among(d);
        assert forall|i: int| 0 <= i < filled(cols).len() implies cols.contains(
            #[trigger] filled(cols)[i],
        ) by {
            if i < filled(d).len() {
                assert(d.contains(filled(d)[i]));
                let k = choose|k: int| 0 <= k < d.len() && d[k] == filled(d)[i];
                assert(cols[k] == filled(cols)[i]);
            } else {
                assert(cols[cols.len() - 1] == filled(cols)[i]);
            }
        }
    }
}

proof fn lemma_flat_fill(
    fs: Seq<FieldV>,
    i: int,
    prefix: Seq<Seq<char>>,
    fill: int,
    depth: int,
    levels: int,
)
    requires
        type_ok(TypeV::Object(fs), levels),
        0 <= i,
        0 <= fill <= 100,
    ensures
        forall|k: int|
            0 <= k < flat_columns(fs, i, prefix, fill, depth).len() ==> 0 <= (
            #[trigger] flat_columns(fs, i, prefix, fill, depth)[k]).fill <= 100,
    decreases COL_DEPTH - depth, fs.len() - i,
{
    if i < fs.len() {
        let f = fs[i];
        assert(0 <= f.present <= f.total && type_ok(f.ty, levels - 1));
        let rate = fill_rate(f);
        assert(0 <= rate <= 100) by {
            if f.total != 0 {
                assert(0 <= f.present * 100 / f.total <= 100) by (nonlinear_arith)
                    requires
                        0 <= f.present <= f.total,
                        f.total > 0,
                ;
            }
        }
        let own = fill * rate / 100;
        assert(0 <= fill * rate <= 100 * 100) by (nonlinear_arith)
            requires
                0 <= fill <= 100,
                0 <= rate <= 100,
        ;
        let path = prefix.push(f.name);
        lemma_flat_fill(fs, i + 1, prefix, fill, depth, levels);
        let first = match record_fields(f.ty) {
            Some(sub) if depth + 1 < COL_DEPTH => flat_columns(sub, 0, path, own, depth + 1),
            _ => seq![
                ColumnV { path, label: joined(path, "."@), num: f.ty is Num, fill: own },
            ],
        };
        if let Some(sub) = record_fields(f.ty) {
            if depth + 1 < COL_DEPTH {
                lemma_record_ok(f.ty, levels - 1);
                lemma_flat_fill(sub, 0, path, own, depth + 1, levels - 1);
            }
        }
        let rest = flat_columns(fs, i + 1, prefix, fill, depth);
        let all = flat_columns(fs, i, prefix, fill, depth);
        assert(all == first + rest);
        assert forall|k: int| 0 <= k < all.len() implies 0 <= (#[trigger] all[k]).fill <= 100 by {
            if k < first.len() {
                assert(all[k] == first[k]);
            } else {
                assert(all[k] == rest[k - first.len()]);
            }
        }
    }
}

proof fn lemma_record_ok(ty: TypeV, levels: int)
    requires
        type_ok(ty, levels),
    ensures
        record_fields(ty) matches Some(fs) ==> type_ok(TypeV::Object(fs), levels),
    decreases ty, 1int, 0int,
{
    if ty is Union {
        lemma_record_from_ok(ty, 0, levels);
    }
}

proof fn lemma_record_from_ok(ty: TypeV, i: int, levels: int)
    requires
        type_ok(ty, levels),
        ty is Union,
        0 <= i,
    ensures
        record_fields_from(ty, i) matches Some(fs) ==> type_ok(TypeV::Object(fs), levels),
    decreases ty, 0int, ty->Union_0.len() - i,
{
    if i < ty->Union_0.len() {
        assert(type_ok(ty->Union_0[i], levels));
        lemma_record_ok(ty->Union_0[i], levels);
        lemma_record_from_ok(ty, i + 1, levels);
    }
}

proof fn lemma_element_ok(ty: TypeV, levels: int)
    requires
        type_ok(ty, levels),
    ensures
        element_type(ty) matches Some(el) ==> type_ok(el, levels),
    decreases ty, 1int, 0int,
{
    if ty is Union {
        lemma_element_from_ok(ty, 0, levels);
    }
}

proof fn lemma_element_from_ok(ty: TypeV, i: int, levels: int)
    requires
        type_ok(ty, levels),
        ty is Union,
        0 <= i,
    ensures
        element_type_from(ty, i) matches Some(el) ==> type_ok(el, levels),
    decreases ty, 0int, ty->Union_0.len() - i,
{
    if i < ty->Union_0.len() {
        assert(type_ok(ty->Union_0[i], levels));
        lemma_element_ok(ty->Union_0[i], levels);
        lemma_element_from_ok(ty, i + 1, levels);
    }
}

/// The fill of a column is the share of rows that carry it, in percent.
pub proof fn law_fill_is_a_percentage(ty: TypeV, levels: int)
    requires
        type_ok(ty, levels),
    ensures
        all_columns(ty) matches Some(cols) ==> forall|i: int|
            0 <= i < cols.len() ==> 0 <= (#[trigger] cols[i]).fill <= 100,
{
    if let Some(el) = element_type(ty) {
        lemma_element_ok(ty, levels);
        if let Some(fs) = record_fields(el) {
            lemma_record_ok(el, levels);
            lemma_flat_fill(fs, 0, Seq::empty(), 100, 0, levels);
        }
    }
}

/// Whether values of a type have no fields to make columns of.
pub open spec fn fieldless(ty: TypeV) -> bool {
    ty is Any || ty is Str || ty is Num || ty is Bool || ty is Null || ty is Array || ty is Dict
}

proof fn lemma_plain_columns(fs: Seq<FieldV>, i: int)
    requires
        0 <= i <= fs.len(),
        forall|k: int|
            0 <= k < fs.len() ==> fieldless((#[trigger] fs[k]).ty) && fs[k].total > 0,
    ensures
        ({
            let cols = flat_columns(fs, i, Seq::empty(), 100, 0);
            &&& cols.len() == fs.len() - i
            &&& forall|k: int|
                0 <= k < cols.len() ==> #[trigger] cols[k] == (ColumnV {
                    path: seq![fs[i + k].name],
                    label: fs[i + k].name,
                    num: fs[i + k].ty == TypeV::Num,
                    fill: 100 * fs[i + k].present / fs[i + k].total,
                })
        }),
    decreases fs.len() - i,
{
    if i < fs.len() {
        let f = fs[i];
        let path = Seq::<Seq<char>>::empty().push(f.name);
        let rest = flat_columns(fs, i + 1, Seq::empty(), 100, 0);
        let cols = flat_columns(fs, i, Seq::empty(), 100, 0);
        assert(fieldless(f.ty) && f.total > 0);
        lemma_plain_columns(fs, i + 1);
        assert(path =~= seq![f.name]);
        assert(joined(path, "."@) == f.name) by {
            reveal_with_fuel(joined, 2);
            assert(path.drop_last() =~= Seq::empty());
        }
        assert(100 * (f.present * 100 / f.total) / 100 == f.present * 100 / f.total);
        assert(f.present * 100 == 100 * f.present);
        assert(record_fields(f.ty) is None);
        let first = ColumnV {
            path: seq![f.name],
            label: f.name,
            num: f.ty == TypeV::Num,
            fill: 100 * f.present / f.total,
        };
        assert(cols =~= seq![first] + rest);
        assert forall|k: int| 0 <= k < cols.len() implies #[trigger] cols[k] == (ColumnV {
            path: seq![fs[i + k].name],
            label: fs[i + k].name,
            num: fs[i + k].ty == TypeV::Num,
            fill: 100 * fs[i + k].present / fs[i + k].total,
        }) by {
            if k > 0 {
                assert(cols[k] == rest[k - 1]);
            }
        }
    }
}

/// A sequence of records has a column for each field, in their order: under its name, on the
/// right where its values are numbers, and with the share of records that have it.
pub proof fn law_a_column_for_each_field(ty: TypeV, fs: Seq<FieldV>)
    requires
        ty == TypeV::Array(Box::new(TypeV::Object(fs))) || ty == TypeV::Dict(
            MapKey::Str,
            Box::new(TypeV::Object(fs)),
        ) || ty == TypeV::Dict(MapKey::Num, Box::new(TypeV::Object(fs))),
        fs.len() > 0,
        forall|k: int|
            0 <= k < fs.len() ==> fieldless((#[trigger] fs[k]).ty) && fs[k].total > 0,
    ensures
        all_columns(ty) matches Some(cols) && cols.len() == fs.len() && forall|k: int|
            0 <= k < cols.len() ==> #[trigger] cols[k] == (ColumnV {
                path: seq![fs[k].name],
                label: fs[k].name,
                num: fs[k].ty == TypeV::Num,
                fill: 100 * fs[k].present / fs[k].total,
            }),
{
    lemma_plain_columns(fs, 0);
}

/// A sequence of values that are no records has one column, which holds the values.
pub proof fn law_one_column_for_plain_values(el: TypeV, key: MapKey)
    requires
        fieldless(el),
    ensures
        all_columns(TypeV::Array(Box::new(el))) == Some(
            seq![
                ColumnV {
                    path: Seq::empty(),
                    label: "value"@,
                    num: el == TypeV::Num,
                    fill: 100,
                },
            ],
        ),
        all_columns(TypeV::Dict(key, Box::new(el))) == all_columns(TypeV::Array(Box::new(el))),
{
}

/// A field that is a record gives place to the columns of its own fields, with its name in
/// front of theirs, and with the share of rows that have both; what is nested more than one
/// record deep is shown as it is.
pub proof fn law_columns_of_nested_records(
    fs: Seq<FieldV>,
    i: int,
    sub: Seq<FieldV>,
    prefix: Seq<Seq<char>>,
    fill: int,
    depth: int,
)
    requires
        0 <= i < fs.len(),
        fs[i].ty == TypeV::Object(sub),
        sub.len() > 0,
        fs[i].total > 0,
    ensures
        ({
            let path = prefix.push(fs[i].name);
            let own = fill * (fs[i].present * 100 / fs[i].total) / 100;
            flat_columns(fs, i, prefix, fill, depth) == (if depth < 1 {
                flat_columns(sub, 0, path, own, depth + 1)
            } else {
                seq![ColumnV { path, label: joined(path, "."@), num: false, fill: own }]
            }) + flat_columns(fs, i + 1, prefix, fill, depth)
        }),
{
}

/// Where a column is filled at all well, the columns that are shown are the first
/// sixty-four of those, in their order; what is filled in fewer than 5 in a hundred
/// rows is left out.
pub proof fn law_which_columns_are_shown(cols: Seq<ColumnV>, c: ColumnV)
    ensures
        filled(cols.push(c)) == (if c.fill >= 5 {
            filled(cols).push(c)
        } else {
            filled(cols)
        }),
        filled(cols).len() > 0 && filled(cols).len() <= 64 ==> shown_columns(cols) == filled(cols),
        filled(cols).len() > 64 ==> shown_columns(cols) == filled(cols).take(64),
        filled(cols).len() == 0 && cols.len() <= 64 ==> shown_columns(cols) == cols,
        filled(cols).len() == 0 && cols.len() > 64 ==> shown_columns(cols) == cols.take(64),
{
    assert(cols.push(c).drop_last() =~= cols);
}

/// A union has the columns of the first sequence in it, and none where there is no sequence;
/// where its elements are a union, the fields are those of the first record in that.
pub proof fn law_columns_of_unions(vs: Seq<TypeV>, k: int)
    requires
        0 <= k <= vs.len(),
    ensures
        (forall|j: int| 0 <= j < k ==> all_columns(#[trigger] vs[j]) is None) ==> {
            &&& k == vs.len() ==> all_columns(TypeV::Union(vs)) is None
            &&& k < vs.len() && all_columns(vs[k]) is Some ==> all_columns(TypeV::Union(vs))
                == all_columns(vs[k])
        },
        (forall|j: int| 0 <= j < k ==> record_fields(#[trigger] vs[j]) is None) ==> {
            &&& k == vs.len() ==> record_fields(TypeV::Union(vs)) is None
            &&& k < vs.len() && record_fields(vs[k]) is Some ==> record_fields(TypeV::Union(vs))
                == record_fields(vs[k])
        },
{
    if forall|j: int| 0 <= j < k ==> all_columns(#[trigger] vs[j]) is None {
        assert forall|j: int| 0 <= j < k implies element_type(#[trigger] vs[j]) is None by {
            assert(all_columns(vs[j]) is None);
        }
        lemma_first_sequence(vs, k, 0);
    }
    if forall|j: int| 0 <= j < k ==> record_fields(#[trigger] vs[j]) is None {
        lemma_first_record(vs, k, 0);
    }
}

proof fn lemma_first_sequence(vs: Seq<TypeV>, k: int, i: int)
    requires
        0 <= i <= k <= vs.len(),
        forall|j: int| 0 <= j < k ==> element_type(#[trigger] vs[j]) is None,
    ensures
        k == vs.len() ==> element_type_from(TypeV::Union(vs), i) is None,
        k < vs.len() && element_type(vs[k]) is Some ==> element_type_from(TypeV::Union(vs), i)
            == element_type(vs[k]),
    decreases k - i,
{
    reveal_with_fuel(element_type_from, 2);
    if i < k {
        lemma_first_sequence(vs, k, i + 1);
    }
}

proof fn lemma_first_record(vs: Seq<TypeV>, k: int, i: int)
    requires
        0 <= i <= k <= vs.len(),
        forall|j: int| 0 <= j < k ==> record_fields(#[trigger] vs[j]) is None,
    ensures
        k == vs.len() ==> record_fields_from(TypeV::Union(vs), i) is None,
        k < vs.len() && record_fields(vs[k]) is Some ==> record_fields_from(TypeV::Union(vs), i)
            == record_fields(vs[k]),
    decreases k - i,
{
    reveal_with_fuel(record_fields_from, 2);
    if i < k {
        lemma_first_record(vs, k, i + 1);
    }
}

} // verus!
