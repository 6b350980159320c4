//! What an inferred type says of the values that it was inferred from: that each of them is
//! of that type, and that the type holds nothing which none of them is.

use crate::filter::{elements, first_children, value_of, ValueV};
use crate::names::{lemma_name_position, name_position};
use crate::scanner::{children_from, level_of, level_of_lines, ChildV, Kind};
use crate::schema::{
    acc_or_nothing, bumped, bumped_all, collapsed, collapsed_fields, distinct, field_names,
    first_of_key, how_many, ident_key, inferred, inferred_seq, key_tally, labels, map_key, nothing,
    one_or_union, sample_keys, sample_limit, seen_each, seen_fields, seen_value, seen_values,
    shapes, tally_names, tally_square_sum, tally_sum, variant_if, variants, with_field, AccV,
    FieldAccV, FieldV, KEY_CAP, MAP_PROBE, MapKey, NODE_BUDGET, TOP_SAMPLE, TypeV,
};
use crate::text::float_text;
use vstd::prelude::*;

verus! {

// ---------------------------------------------------------------------------
// Values and their shapes
// ---------------------------------------------------------------------------
/// What a value is: a scalar of some kind, an array, or an object, which is a record of
/// fields or a map keyed by data.
pub enum Shape {
    Record,
    List,
    Keyed,
    Text,
    Number,
    Truth,
    Null,
}

pub open spec fn shape(b: Seq<u8>, v: ValueV) -> Shape {
    match v.kind {
        Kind::Str => Shape::Text,
        Kind::Number => Shape::Number,
        Kind::Bool => Shape::Truth,
        Kind::Null => Shape::Null,
        Kind::Array => Shape::List,
        Kind::Object => if map_key(b, v.start, v.end) is Some {
            Shape::Keyed
        } else {
            Shape::Record
        },
    }
}

/// The first of the children, no more than `most`.
pub open spec fn front(cs: Seq<ChildV>, most: int) -> Seq<ChildV> {
    Seq::new(
        (if cs.len() <= most {
            cs.len() as int
        } else {
            most
        }) as nat,
        |i: int| cs[i],
    )
}

/// The children of a value that are looked at: of a record so many members, of an array or
/// a map so many elements, and more of them at the top.
pub open spec fn sampled(b: Seq<u8>, v: ValueV, depth: int) -> Seq<ChildV> {
    let cs = children_from(b, level_of(v.start, v.end, v.kind == Kind::Array));
    match shape(b, v) {
        Shape::Record => front(cs, 512),
        Shape::List => front(
            cs,
            if depth == 0 {
                2000
            } else {
                128
            },
        ),
        Shape::Keyed => front(
            cs,
            if depth == 0 {
                2000
            } else {
                128
            },
        ),
        _ => Seq::empty(),
    }
}

pub open spec fn as_value(c: ChildV) -> ValueV {
    ValueV { start: c.start, end: c.end, kind: c.kind }
}

pub open spec fn as_values(cs: Seq<ChildV>) -> Seq<ValueV> {
    Seq::new(cs.len(), |i: int| as_value(cs[i]))
}

/// How many values are looked at for the type of `v`, itself among them. What is nested
/// more than twenty-four levels deep is not.
pub open spec fn looked_at(b: Seq<u8>, v: ValueV, depth: int) -> int
    decreases 25 - depth, 0int, 0int,
{
    if depth > 24 {
        0
    } else {
        1 + looked_at_from(b, sampled(b, v, depth), 0, depth + 1)
    }
}

/// How many are looked at for the types of the children from number `i` on.
pub open spec fn looked_at_from(b: Seq<u8>, cs: Seq<ChildV>, i: int, depth: int) -> int
    decreases 25 - depth, 1int, cs.len() - i,
{
    if i >= cs.len() || depth > 24 {
        0
    } else {
        looked_at(b, as_value(cs[i]), depth) + looked_at_from(b, cs, i + 1, depth)
    }
}

/// How many of the values have that shape.
pub open spec fn how_often(b: Seq<u8>, vs: Seq<ValueV>, s: Shape) -> int
    decreases vs.len(),
{
    if vs.len() == 0 {
        0
    } else {
        how_often(b, vs.drop_last(), s) + (if shape(b, vs.last()) == s {
            1int
        } else {
            0
        })
    }
}

/// Whether one of the values has that shape.
pub open spec fn occurs(b: Seq<u8>, vs: Seq<ValueV>, s: Shape) -> bool {
    exists|i: int| 0 <= i < vs.len() && shape(b, #[trigger] vs[i]) == s
}

/// Whether one of the maps among the values has a key that is no number.
pub open spec fn text_keyed(b: Seq<u8>, vs: Seq<ValueV>) -> bool {
    exists|i: int|
        0 <= i < vs.len() && (#[trigger] vs[i]).kind == Kind::Object && map_key(
            b,
            vs[i].start,
            vs[i].end,
        ) == Some(MapKey::Str)
}

/// The children that are looked at of the values of that shape, one value's after
/// another's.
pub open spec fn below(b: Seq<u8>, vs: Seq<ValueV>, depth: int, s: Shape) -> Seq<ChildV>
    decreases vs.len(),
{
    if vs.len() == 0 {
        Seq::empty()
    } else {
        below(b, vs.drop_last(), depth, s) + (if shape(b, vs.last()) == s {
            sampled(b, vs.last(), depth)
        } else {
            Seq::empty()
        })
    }
}

/// The values of the children with that label.
pub open spec fn labelled(cs: Seq<ChildV>, name: Seq<char>) -> Seq<ValueV>
    decreases cs.len(),
{
    if cs.len() == 0 {
        Seq::empty()
    } else if cs.last().label == name {
        labelled(cs.drop_last(), name).push(as_value(cs.last()))
    } else {
        labelled(cs.drop_last(), name)
    }
}

/// Whether one of the children has that label.
pub open spec fn has_label(cs: Seq<ChildV>, name: Seq<char>) -> bool {
    exists|i: int| 0 <= i < cs.len() && (#[trigger] cs[i]).label == name
}

/// How many of the records among the values have a member with that label.
pub open spec fn having(b: Seq<u8>, vs: Seq<ValueV>, depth: int, name: Seq<char>) -> int
    decreases vs.len(),
{
    if vs.len() == 0 {
        0
    } else {
        having(b, vs.drop_last(), depth, name) + (if shape(b, vs.last()) == Shape::Record
            && has_label(sampled(b, vs.last(), depth), name) {
            1int
        } else {
            0
        })
    }
}

/// Where the first child with that label is, or how many children there are.
pub open spec fn first_with(cs: Seq<ChildV>, name: Seq<char>, i: int) -> int
    decreases cs.len() - i,
{
    if i >= cs.len() || cs[i].label == name {
        i
    } else {
        first_with(cs, name, i + 1)
    }
}

// ---------------------------------------------------------------------------
// What a type says
// ---------------------------------------------------------------------------
/// The types that a type leaves the choice between.
pub open spec fn alternatives(ty: TypeV) -> Seq<TypeV> {
    match ty {
        TypeV::Any => Seq::empty(),
        TypeV::Union(ts) => ts,
        _ => seq![ty],
    }
}

/// The shape that the values of a type have.
pub open spec fn type_shape(ty: TypeV) -> Option<Shape> {
    match ty {
        TypeV::Object(_) => Some(Shape::Record),
        TypeV::Array(_) => Some(Shape::List),
        TypeV::Dict(_, _) => Some(Shape::Keyed),
        TypeV::Str => Some(Shape::Text),
        TypeV::Num => Some(Shape::Number),
        TypeV::Bool => Some(Shape::Truth),
        TypeV::Null => Some(Shape::Null),
        _ => None,
    }
}

/// The order in which a union names its alternatives.
pub open spec fn rank(s: Shape) -> int {
    match s {
        Shape::Record => 0,
        Shape::List => 1,
        Shape::Keyed => 2,
        Shape::Text => 3,
        Shape::Number => 4,
        Shape::Truth => 5,
        Shape::Null => 6,
    }
}

/// Whether a type is what can be said of those values, and no more: its alternatives are
/// the shapes that occur among them, each once.
pub open spec fn describes(b: Seq<u8>, vs: Seq<ValueV>, depth: int, ty: TypeV) -> bool
    decreases 25 - depth, 1int,
{
    let ts = alternatives(ty);
    if depth > 24 {
        ty == TypeV::Any
    } else {
        &&& forall|i: int| 0 <= i < ts.len() ==> describes_shape(b, vs, depth, #[trigger] ts[i])
        &&& forall|s: Shape| #[trigger]
            occurs(b, vs, s) ==> exists|i: int|
                0 <= i < ts.len() && type_shape(#[trigger] ts[i]) == Some(s)
        &&& forall|i: int, j: int|
            0 <= i < j < ts.len() ==> rank(type_shape(#[trigger] ts[i])->0) < rank(
                type_shape(#[trigger] ts[j])->0,
            )
        &&& ty is Union ==> ts.len() > 1
    }
}

/// Whether a type that is no union is what can be said of the values of its shape, of which
/// there is one: of the elements of the arrays, of the values of the maps, and of each field
/// of the records.
pub open spec fn describes_shape(b: Seq<u8>, vs: Seq<ValueV>, depth: int, ty: TypeV) -> bool
    decreases 25 - depth, 0int,
{
    &&& type_shape(ty) matches Some(s) && occurs(b, vs, s)
    &&& depth <= 24
    &&& match ty {
        TypeV::Array(el) => describes(
            b,
            as_values(below(b, vs, depth, Shape::List)),
            depth + 1,
            *el,
        ),
        TypeV::Dict(key, el) => {
            &&& describes(b, as_values(below(b, vs, depth, Shape::Keyed)), depth + 1, *el)
            &&& key == MapKey::Str <==> text_keyed(b, vs)
        },
        TypeV::Object(fs) => {
            let cs = below(b, vs, depth, Shape::Record);
            &&& forall|k: int|
                0 <= k < cs.len() ==> exists|i: int|
                    0 <= i < fs.len() && (#[trigger] fs[i]).name == (#[trigger] cs[k]).label
            &&& forall|i: int|
                0 <= i < fs.len() ==> {
                    let f = #[trigger] fs[i];
                    &&& has_label(cs, f.name)
                    &&& f.present == having(b, vs, depth, f.name)
                    &&& f.total == how_often(b, vs, Shape::Record)
                    &&& describes(b, labelled(cs, f.name), depth + 1, f.ty)
                }
            &&& forall|i: int, j: int|
                0 <= i < j < fs.len() ==> first_with(cs, (#[trigger] fs[i]).name, 0) < first_with(
                    cs,
                    (#[trigger] fs[j]).name,
                    0,
                )
        },
        _ => true,
    }
}

/// Whether a value is of a type, by its kind and by what is in it.
pub open spec fn belongs(b: Seq<u8>, v: ValueV, depth: int, ty: TypeV) -> bool
    decreases 25 - depth,
{
    if depth > 24 {
        ty == TypeV::Any
    } else {
        exists|i: int|
            0 <= i < alternatives(ty).len() && ({
                let t = #[trigger] alternatives(ty)[i];
                match v.kind {
                    Kind::Str => t == TypeV::Str,
                    Kind::Number => t == TypeV::Num,
                    Kind::Bool => t == TypeV::Bool,
                    Kind::Null => t == TypeV::Null,
                    Kind::Array => t matches TypeV::Array(el) && forall|k: int|
                        0 <= k < sampled(b, v, depth).len() ==> belongs(
                            b,
                            as_value(#[trigger] sampled(b, v, depth)[k]),
                            depth + 1,
                            *el,
                        ),
                    Kind::Object => {
                        ||| t matches TypeV::Dict(_, el) && forall|k: int|
                            0 <= k < sampled(b, v, depth).len() ==> belongs(
                                b,
                                as_value(#[trigger] sampled(b, v, depth)[k]),
                                depth + 1,
                                *el,
                            )
                        ||| t matches TypeV::Object(fs) && fields_hold(b, v, depth, fs)
                            && forall|k: int, j: int|
                            0 <= k < sampled(b, v, depth).len() && 0 <= j < fs.len()
                                && (#[trigger] sampled(b, v, depth)[k]).label == (
                            #[trigger] fs[j]).name ==> belongs(
                                b,
                                as_value(sampled(b, v, depth)[k]),
                                depth + 1,
                                fs[j].ty,
                            )
                    },
                }
            })
    }
}

/// Whether each member of a record has a field of its name, and each field that the record
/// lacks is one that records may lack.
pub open spec fn fields_hold(b: Seq<u8>, v: ValueV, depth: int, fs: Seq<FieldV>) -> bool {
    let cs = sampled(b, v, depth);
    &&& forall|k: int|
        0 <= k < cs.len() ==> exists|i: int|
            0 <= i < fs.len() && (#[trigger] fs[i]).name == (#[trigger] cs[k]).label
    &&& forall|i: int|
        0 <= i < fs.len() && !has_label(cs, (#[trigger] fs[i]).name) ==> fs[i].present < fs[i].total
}

// ---------------------------------------------------------------------------
// What is noted of the values
// ---------------------------------------------------------------------------
/// Whether the shapes that were seen are those of the values.
spec fn counts(b: Seq<u8>, vs: Seq<ValueV>, acc: AccV) -> bool {
    &&& acc.str == occurs(b, vs, Shape::Text)
    &&& acc.num == occurs(b, vs, Shape::Number)
    &&& acc.boo == occurs(b, vs, Shape::Truth)
    &&& acc.null == occurs(b, vs, Shape::Null)
    &&& acc.rec_count == how_often(b, vs, Shape::Record)
    &&& acc.arr_count == how_often(b, vs, Shape::List)
    &&& acc.map_count == how_often(b, vs, Shape::Keyed)
    &&& acc.map_key_str == text_keyed(b, vs)
    &&& acc.arr_count > 0 <==> acc.arr_elem is Some
    &&& acc.map_count > 0 <==> acc.map_val is Some
}

/// Whether what was seen is what there was to see of those values.
spec fn tells(b: Seq<u8>, vs: Seq<ValueV>, depth: int, acc: AccV) -> bool
    decreases 25 - depth, 1int,
{
    if depth > 24 {
        acc == nothing()
    } else {
        &&& counts(b, vs, acc)
        &&& tells(
            b,
            as_values(below(b, vs, depth, Shape::List)),
            depth + 1,
            acc_or_nothing(acc.arr_elem),
        )
        &&& tells(
            b,
            as_values(below(b, vs, depth, Shape::Keyed)),
            depth + 1,
            acc_or_nothing(acc.map_val),
        )
        &&& fields_tell(b, vs, below(b, vs, depth, Shape::Record), Seq::empty(), depth, acc.fields)
    }
}

/// The same of the fields of the records, where `cs` are the members of all the records and
/// `part` those of one more, as far as it has been looked at.
spec fn fields_tell(
    b: Seq<u8>,
    vs: Seq<ValueV>,
    cs: Seq<ChildV>,
    part: Seq<ChildV>,
    depth: int,
    fs: Seq<FieldAccV>,
) -> bool
    decreases 25 - depth, 0int,
{
    let all = cs + part;
    &&& depth <= 24
    &&& forall|k: int|
        0 <= k < all.len() ==> exists|i: int|
            0 <= i < fs.len() && (#[trigger] fs[i]).name == (#[trigger] all[k]).label
    &&& forall|i: int|
        0 <= i < fs.len() ==> {
            let f = #[trigger] fs[i];
            &&& has_label(all, f.name)
            &&& f.present == having(b, vs, depth, f.name) + (if has_label(part, f.name) {
                1int
            } else {
                0
            })
            &&& tells(b, labelled(all, f.name), depth + 1, f.acc)
        }
    &&& forall|i: int, j: int|
        0 <= i < j < fs.len() ==> first_with(all, (#[trigger] fs[i]).name, 0) < first_with(
            all,
            (#[trigger] fs[j]).name,
            0,
        )
}

proof fn lemma_occurs_push(b: Seq<u8>, vs: Seq<ValueV>, v: ValueV, s: Shape)
    ensures
        occurs(b, vs.push(v), s) == (occurs(b, vs, s) || shape(b, v) == s),
{
    let ws = vs.push(v);
    if occurs(b, vs, s) {
        let i = choose|i: int| 0 <= i < vs.len() && shape(b, #[trigger] vs[i]) == s;
        assert(ws[i] == vs[i]);
    }
    if shape(b, v) == s {
        assert(ws[vs.len() as int] == v);
    }
    if occurs(b, ws, s) {
        let i = choose|i: int| 0 <= i < ws.len() && shape(b, #[trigger] ws[i]) == s;
        if i < vs.len() {
            assert(vs[i] == ws[i]);
        }
    }
}

proof fn lemma_text_keyed_push(b: Seq<u8>, vs: Seq<ValueV>, v: ValueV)
    ensures
        text_keyed(b, vs.push(v)) == (text_keyed(b, vs) || v.kind == Kind::Object && map_key(
            b,
            v.start,
            v.end,
        ) == Some(MapKey::Str)),
{
    let ws = vs.push(v);
    if text_keyed(b, vs) {
        let i = choose|i: int|
            0 <= i < vs.len() && (#[trigger] vs[i]).kind == Kind::Object && map_key(
                b,
                vs[i].start,
                vs[i].end,
            ) == Some(MapKey::Str);
        assert(ws[i] == vs[i]);
    }
    if v.kind == Kind::Object && map_key(b, v.start, v.end) == Some(MapKey::Str) {
        assert(ws[vs.len() as int] == v);
    }
    if text_keyed(b, ws) {
        let i = choose|i: int|
            0 <= i < ws.len() && (#[trigger] ws[i]).kind == Kind::Object && map_key(
                b,
                ws[i].start,
                ws[i].end,
            ) == Some(MapKey::Str);
        if i < vs.len() {
            assert(vs[i] == ws[i]);
        }
    }
}

/// How the notions of a sequence of values go on with one more value.
proof fn lemma_push(b: Seq<u8>, vs: Seq<ValueV>, v: ValueV, depth: int)
    ensures
        forall|s: Shape| #[trigger]
            occurs(b, vs.push(v), s) == (occurs(b, vs, s) || shape(b, v) == s),
        forall|s: Shape| #[trigger]
            how_often(b, vs.push(v), s) == how_often(b, vs, s) + (if shape(b, v) == s {
                1int
            } else {
                0
            }),
        forall|s: Shape| #[trigger]
            below(b, vs.push(v), depth, s) == below(b, vs, depth, s) + (if shape(b, v) == s {
                sampled(b, v, depth)
            } else {
                Seq::empty()
            }),
        forall|name: Seq<char>| #[trigger]
            having(b, vs.push(v), depth, name) == having(b, vs, depth, name) + (if shape(b, v)
                == Shape::Record && has_label(sampled(b, v, depth), name) {
                1int
            } else {
                0
            }),
        text_keyed(b, vs.push(v)) == (text_keyed(b, vs) || v.kind == Kind::Object && map_key(
            b,
            v.start,
            v.end,
        ) == Some(MapKey::Str)),
{
    let ws = vs.push(v);
    assert(ws.drop_last() =~= vs);
    lemma_text_keyed_push(b, vs, v);
    assert forall|s: Shape| #[trigger]
        occurs(b, vs.push(v), s) == (occurs(b, vs, s) || shape(b, v) == s) by {
        lemma_occurs_push(b, vs, v, s);
    }
}

/// Nothing is what there is to see of no values.
proof fn lemma_nothing_tells(b: Seq<u8>, depth: int)
    ensures
        tells(b, Seq::empty(), depth, nothing()),
    decreases 25 - depth,
{
    if depth <= 24 {
        let none = Seq::<ValueV>::empty();
        let cs = below(b, none, depth, Shape::List);
        assert(cs =~= Seq::empty());
        assert(as_values(cs) =~= none);
        assert(below(b, none, depth, Shape::Keyed) == cs);
        assert(below(b, none, depth, Shape::Record) == cs);
        lemma_nothing_tells(b, depth + 1);
        assert(fields_tell(b, none, cs, Seq::empty(), depth, Seq::empty())) by {
            assert(cs + Seq::<ChildV>::empty() =~= cs);
        }
    }
}

proof fn lemma_labelled_push(cs: Seq<ChildV>, c: ChildV, name: Seq<char>)
    ensures
        labelled(cs.push(c), name) == (if c.label == name {
            labelled(cs, name).push(as_value(c))
        } else {
            labelled(cs, name)
        }),
        has_label(cs.push(c), name) == (has_label(cs, name) || c.label == name),
        !has_label(cs, name) ==> labelled(cs, name) == Seq::<ValueV>::empty(),
{
    let ds = cs.push(c);
    assert(ds.drop_last() =~= cs);
    if has_label(cs, name) {
        let i = choose|i: int| 0 <= i < cs.len() && (#[trigger] cs[i]).label == name;
        assert(ds[i] == cs[i]);
    } else {
        lemma_none_labelled(cs, name);
    }
    if c.label == name {
        assert(ds[cs.len() as int] == c);
    }
    if has_label(ds, name) {
        let i = choose|i: int| 0 <= i < ds.len() && (#[trigger] ds[i]).label == name;
        if i < cs.len() {
            assert(cs[i] == ds[i]);
        }
    }
}

proof fn lemma_none_labelled(cs: Seq<ChildV>, name: Seq<char>)
    requires
        !has_label(cs, name),
    ensures
        labelled(cs, name) == Seq::<ValueV>::empty(),
    decreases cs.len(),
{
    if cs.len() > 0 {
        let ds = cs.drop_last();
        assert(cs[cs.len() - 1].label != name);
        assert(!has_label(ds, name)) by {
            if has_label(ds, name) {
                let i = choose|i: int| 0 <= i < ds.len() && (#[trigger] ds[i]).label == name;
                assert(cs[i] == ds[i]);
            }
        }
        lemma_none_labelled(ds, name);
    }
}

proof fn lemma_first_with(cs: Seq<ChildV>, name: Seq<char>, i: int)
    requires
        0 <= i <= cs.len(),
    ensures
        i <= first_with(cs, name, i) <= cs.len(),
        first_with(cs, name, i) < cs.len() ==> cs[first_with(cs, name, i)].label == name,
        forall|j: int| i <= j < first_with(cs, name, i) ==> (#[trigger] cs[j]).label != name,
    decreases cs.len() - i,
{
    if i < cs.len() && cs[i].label != name {
        lemma_first_with(cs, name, i + 1);
    }
}

proof fn lemma_first_with_push(cs: Seq<ChildV>, c: ChildV, name: Seq<char>)
    ensures
        has_label(cs, name) ==> first_with(cs.push(c), name, 0) == first_with(cs, name, 0)
            && first_with(cs, name, 0) < cs.len(),
        !has_label(cs, name) && c.label == name ==> first_with(cs.push(c), name, 0) == cs.len(),
{
    let ds = cs.push(c);
    lemma_first_with(cs, name, 0);
    lemma_first_with(ds, name, 0);
    let x = first_with(cs, name, 0);
    let y = first_with(ds, name, 0);
    if has_label(cs, name) {
        let i = choose|i: int| 0 <= i < cs.len() && (#[trigger] cs[i]).label == name;
        assert(x <= i);
        assert(ds[x].label == name);
        if y < x {
            assert(cs[y].label != name);
            assert(ds[y] == cs[y]);
        } else if x < y {
            assert(ds[x].label != name);
        }
    } else if c.label == name {
        assert(ds[cs.len() as int].label == name);
        if y < cs.len() {
            assert(cs[y] == ds[y]);
        }
    }
}

proof fn lemma_looked_at(b: Seq<u8>, cs: Seq<ChildV>, i: int, depth: int)
    ensures
        looked_at_from(b, cs, i, depth) >= 0,
    decreases 25 - depth, cs.len() - i,
{
    if i < cs.len() && depth <= 24 {
        let ds = sampled(b, as_value(cs[i]), depth);
        lemma_looked_at(b, ds, 0, depth + 1);
        lemma_looked_at(b, cs, i + 1, depth);
        assert(looked_at(b, as_value(cs[i]), depth) == 1 + looked_at_from(b, ds, 0, depth + 1));
    }
}

/// The children that are looked at are those that the inference goes over.
proof fn lemma_sampled(b: Seq<u8>, v: ValueV, depth: int)
    ensures
        shape(b, v) == Shape::List || shape(b, v) == Shape::Keyed ==> first_children(
            elements(b, v),
            sample_limit(depth),
        ) == sampled(b, v, depth),
        shape(b, v) == Shape::Record ==> first_children(elements(b, v), KEY_CAP as int) == sampled(
            b,
            v,
            depth,
        ),
{
    let cs = elements(b, v);
    if shape(b, v) == Shape::Record {
        assert(first_children(cs, KEY_CAP as int) =~= sampled(b, v, depth));
    } else if shape(b, v) == Shape::List || shape(b, v) == Shape::Keyed {
        assert(first_children(cs, sample_limit(depth)) =~= sampled(b, v, depth));
    }
}

/// The shape of one more value counts.
proof fn lemma_counts(b: Seq<u8>, vs: Seq<ValueV>, acc: AccV, v: ValueV, depth: int, budget: int)
    requires
        depth <= 24,
        0 < budget,
        counts(b, vs, acc),
    ensures
        counts(b, vs.push(v), seen_value(b, acc, v, depth, budget).0),
{
    lemma_push(b, vs, v, depth);
    lemma_how_often(b, vs, Shape::List);
    lemma_how_often(b, vs, Shape::Keyed);
}

/// One more value that is looked at is noted as what it is.
#[verifier::spinoff_prover]
#[verifier::rlimit(30)]
proof fn lemma_seen_value(
    b: Seq<u8>,
    vs: Seq<ValueV>,
    acc: AccV,
    v: ValueV,
    depth: int,
    budget: int,
)
    requires
        0 <= depth,
        tells(b, vs, depth, acc),
        looked_at(b, v, depth) <= budget,
    ensures
        tells(b, vs.push(v), depth, seen_value(b, acc, v, depth, budget).0),
        seen_value(b, acc, v, depth, budget).1 == budget - looked_at(b, v, depth),
    decreases 25 - depth, 0int, 0int,
{
    if depth <= 24 {
        let ws = vs.push(v);
        let cs = sampled(b, v, depth);
        let (r, left) = seen_value(b, acc, v, depth, budget);
        let lists = below(b, vs, depth, Shape::List);
        let maps = below(b, vs, depth, Shape::Keyed);
        let records = below(b, vs, depth, Shape::Record);
        lemma_looked_at(b, cs, 0, depth + 1);
        assert(looked_at(b, v, depth) == 1 + looked_at_from(b, cs, 0, depth + 1));
        lemma_sampled(b, v, depth);
        assert(cs.skip(0) =~= cs);
        assert(counts(b, ws, r)) by {
            lemma_counts(b, vs, acc, v, depth, budget);
        }
        let s = shape(b, v);
        assert(below(b, ws, depth, Shape::List) == (if s == Shape::List {
            lists + cs
        } else {
            lists
        }) && below(b, ws, depth, Shape::Keyed) == (if s == Shape::Keyed {
            maps + cs
        } else {
            maps
        }) && below(b, ws, depth, Shape::Record) == (if s == Shape::Record {
            records + cs
        } else {
            records
        })) by {
            lemma_push(b, vs, v, depth);
            assert(lists + Seq::<ChildV>::empty() =~= lists);
            assert(maps + Seq::<ChildV>::empty() =~= maps);
            assert(records + Seq::<ChildV>::empty() =~= records);
        }
        if s == Shape::List {
            let el = acc_or_nothing(acc.arr_elem);
            lemma_seen_each(b, as_values(lists), el, cs, 0, depth + 1, budget - 1);
            assert(as_values(lists) + as_values(cs) =~= as_values(lists + cs));
            lemma_fields_stay(b, vs, v, records, depth, acc.fields);
            assert(acc_or_nothing(r.arr_elem) == seen_each(b, el, cs, 0, depth + 1, budget - 1).0);
        } else if s == Shape::Keyed {
            let el = acc_or_nothing(acc.map_val);
            lemma_seen_each(b, as_values(maps), el, cs, 0, depth + 1, budget - 1);
            assert(as_values(maps) + as_values(cs) =~= as_values(maps + cs));
            lemma_fields_stay(b, vs, v, records, depth, acc.fields);
            assert(acc_or_nothing(r.map_val) == seen_each(b, el, cs, 0, depth + 1, budget - 1).0);
        } else if s == Shape::Record {
            assert(cs.take(0) =~= Seq::<ChildV>::empty());
            lemma_seen_fields(b, vs, records, cs, 0, acc.fields, depth, budget - 1);
            lemma_record_done(b, vs, v, records, depth, r.fields);
        } else {
            assert(looked_at_from(b, cs, 0, depth + 1) == 0);
            lemma_fields_stay(b, vs, v, records, depth, acc.fields);
        }
    }
}

proof fn lemma_how_often(b: Seq<u8>, vs: Seq<ValueV>, s: Shape)
    ensures
        how_often(b, vs, s) >= 0,
        how_often(b, vs, s) > 0 <==> occurs(b, vs, s),
    decreases vs.len(),
{
    if vs.len() > 0 {
        lemma_how_often(b, vs.drop_last(), s);
        lemma_occurs_push(b, vs.drop_last(), vs.last(), s);
        assert(vs.drop_last().push(vs.last()) =~= vs);
    }
}

/// What is no record changes nothing about the fields.
proof fn lemma_fields_stay(
    b: Seq<u8>,
    vs: Seq<ValueV>,
    v: ValueV,
    cs: Seq<ChildV>,
    depth: int,
    fs: Seq<FieldAccV>,
)
    requires
        fields_tell(b, vs, cs, Seq::empty(), depth, fs),
        shape(b, v) != Shape::Record,
    ensures
        fields_tell(b, vs.push(v), cs, Seq::empty(), depth, fs),
{
    lemma_push(b, vs, v, depth);
}

/// A record that has been looked at counts among the others.
proof fn lemma_record_done(
    b: Seq<u8>,
    vs: Seq<ValueV>,
    v: ValueV,
    cs: Seq<ChildV>,
    depth: int,
    fs: Seq<FieldAccV>,
)
    requires
        fields_tell(b, vs, cs, sampled(b, v, depth), depth, fs),
        shape(b, v) == Shape::Record,
    ensures
        fields_tell(b, vs.push(v), cs + sampled(b, v, depth), Seq::empty(), depth, fs),
{
    lemma_push(b, vs, v, depth);
    let all = cs + sampled(b, v, depth);
    assert(all + Seq::<ChildV>::empty() =~= all);
    assert forall|name: Seq<char>| !#[trigger] has_label(Seq::empty(), name) by {}
}

proof fn lemma_seen_each(
    b: Seq<u8>,
    vs: Seq<ValueV>,
    acc: AccV,
    cs: Seq<ChildV>,
    i: int,
    depth: int,
    budget: int,
)
    requires
        0 <= depth,
        0 <= i <= cs.len(),
        tells(b, vs, depth, acc),
        looked_at_from(b, cs, i, depth) <= budget,
    ensures
        tells(b, vs + as_values(cs.skip(i)), depth, seen_each(b, acc, cs, i, depth, budget).0),
        seen_each(b, acc, cs, i, depth, budget).1 == budget - looked_at_from(b, cs, i, depth),
    decreases 25 - depth, 1int, cs.len() - i,
{
    if i < cs.len() {
        let v = as_value(cs[i]);
        assert(v == value_of(cs[i]));
        lemma_looked_at(b, cs, i + 1, depth);
        let (a, left) = seen_value(b, acc, v, depth, budget);
        lemma_seen_value(b, vs, acc, v, depth, budget);
        lemma_seen_each(b, vs.push(v), a, cs, i + 1, depth, left);
        assert(vs.push(v) + as_values(cs.skip(i + 1)) =~= vs + as_values(cs.skip(i)));
    } else {
        assert(vs + as_values(cs.skip(i)) =~= vs);
    }
}

/// One more member of a record is noted at the field of its name.
proof fn lemma_seen_fields(
    b: Seq<u8>,
    vs: Seq<ValueV>,
    cs: Seq<ChildV>,
    part: Seq<ChildV>,
    i: int,
    fs: Seq<FieldAccV>,
    depth: int,
    budget: int,
)
    requires
        0 <= depth,
        0 <= i <= part.len(),
        cs == below(b, vs, depth, Shape::Record),
        fields_tell(b, vs, cs, part.take(i), depth, fs),
        looked_at_from(b, part, i, depth + 1) <= budget,
    ensures
        fields_tell(
            b,
            vs,
            cs,
            part,
            depth,
            seen_fields(b, fs, part, i, depth + 1, budget).0,
        ),
        seen_fields(b, fs, part, i, depth + 1, budget).1 == budget - looked_at_from(
            b,
            part,
            i,
            depth + 1,
        ),
    decreases 25 - depth - 1, 1int, part.len() - i,
{
    if i < part.len() {
        let c = part[i];
        let v = as_value(c);
        assert(v == value_of(c));
        let all = cs + part.take(i);
        let (gs, p) = with_field(fs, c.label);
        lemma_looked_at(b, part, i + 1, depth + 1);
        lemma_name_position(field_names(fs), c.label, 0);
        lemma_labelled_push(all, c, c.label);
        assert(has_label(all, c.label) <==> p < fs.len()) by {
            if has_label(all, c.label) {
                let k = choose|k: int| 0 <= k < all.len() && (#[trigger] all[k]).label == c.label;
                let j = choose|j: int|
                    0 <= j < fs.len() && (#[trigger] fs[j]).name == all[k].label;
                assert(field_names(fs)[j] == c.label);
            }
            if p < fs.len() {
                assert(field_names(fs)[p] == fs[p].name);
            }
        }
        if p == fs.len() {
            lemma_nothing_tells(b, depth + 1);
        }
        assert(gs[p].name == c.label);
        assert(tells(b, labelled(all, c.label), depth + 1, gs[p].acc));
        let (a, left) = seen_value(b, gs[p].acc, v, depth + 1, budget);
        lemma_seen_value(b, labelled(all, c.label), gs[p].acc, v, depth + 1, budget);
        let present = if first_of_key(part, i) {
            gs[p].present + 1
        } else {
            gs[p].present
        };
        let hs = gs.update(p, FieldAccV { name: gs[p].name, present, acc: a });
        lemma_member_noted(b, vs, cs, part, i, fs, hs, p, depth);
        lemma_seen_fields(b, vs, cs, part, i + 1, hs, depth, left);
    } else {
        assert(part.take(i) =~= part);
    }
}

/// A label that no member has is in no record.
proof fn lemma_none_having(b: Seq<u8>, vs: Seq<ValueV>, depth: int, name: Seq<char>)
    requires
        !has_label(below(b, vs, depth, Shape::Record), name),
    ensures
        having(b, vs, depth, name) == 0,
    decreases vs.len(),
{
    if vs.len() > 0 {
        let us = vs.drop_last();
        let all = below(b, vs, depth, Shape::Record);
        let most = below(b, us, depth, Shape::Record);
        let last = sampled(b, vs.last(), depth);
        assert(!has_label(most, name)) by {
            if has_label(most, name) {
                let k = choose|k: int| 0 <= k < most.len() && (#[trigger] most[k]).label == name;
                assert(all[k] == most[k]);
            }
        }
        lemma_none_having(b, us, depth, name);
        if shape(b, vs.last()) == Shape::Record && has_label(last, name) {
            let k = choose|k: int| 0 <= k < last.len() && (#[trigger] last[k]).label == name;
            assert(all[most.len() + k] == last[k]);
        }
    }
}

proof fn lemma_member_noted(
    b: Seq<u8>,
    vs: Seq<ValueV>,
    cs: Seq<ChildV>,
    part: Seq<ChildV>,
    i: int,
    fs: Seq<FieldAccV>,
    hs: Seq<FieldAccV>,
    p: int,
    depth: int,
)
    requires
        0 <= i < part.len(),
        cs == below(b, vs, depth, Shape::Record),
        fields_tell(b, vs, cs, part.take(i), depth, fs),
        0 <= p <= fs.len(),
        hs.len() == (if p < fs.len() {
            fs.len()
        } else {
            fs.len() + 1
        }),
        forall|k: int| 0 <= k < fs.len() && k != p ==> hs[k] == #[trigger] fs[k],
        hs[p].name == part[i].label,
        p < fs.len() ==> fs[p].name == part[i].label,
        has_label(cs + part.take(i), part[i].label) <==> p < fs.len(),
        hs[p].present == (if p < fs.len() {
            fs[p].present
        } else {
            0
        }) + (if first_of_key(part, i) {
            1int
        } else {
            0
        }),
        tells(
            b,
            labelled(cs + part.take(i), part[i].label).push(as_value(part[i])),
            depth + 1,
            hs[p].acc,
        ),
    ensures
        fields_tell(b, vs, cs, part.take(i + 1), depth, hs),
{
    let c = part[i];
    let all = cs + part.take(i);
    let more = cs + part.take(i + 1);
    assert(more =~= all.push(c));
    assert(part.take(i + 1) =~= part.take(i).push(c));
    assert(first_of_key(part, i) <==> !has_label(part.take(i), c.label)) by {
        let t = part.take(i);
        if has_label(t, c.label) {
            let k = choose|k: int| 0 <= k < t.len() && (#[trigger] t[k]).label == c.label;
            assert(part[k].label == c.label);
        }
        if !first_of_key(part, i) {
            let k = choose|k: int| 0 <= k < i && (#[trigger] part[k]).label == c.label;
            assert(t[k].label == c.label);
        }
    }
    assert forall|k: int| 0 <= k < more.len() implies exists|j: int|
        0 <= j < hs.len() && (#[trigger] hs[j]).name == (#[trigger] more[k]).label by {
        if k < all.len() {
            assert(more[k] == all[k]);
            let j = choose|j: int| 0 <= j < fs.len() && (#[trigger] fs[j]).name == all[k].label;
            assert(hs[j].name == more[k].label);
        } else {
            assert(hs[p].name == more[k].label);
        }
    }
    assert forall|j: int| 0 <= j < hs.len() implies ({
        let f = #[trigger] hs[j];
        &&& has_label(more, f.name)
        &&& f.present == having(b, vs, depth, f.name) + (if has_label(part.take(i + 1), f.name) {
            1int
        } else {
            0
        })
        &&& tells(b, labelled(more, f.name), depth + 1, f.acc)
        &&& j != p ==> f.name != c.label
    }) by {
        let f = hs[j];
        lemma_labelled_push(all, c, f.name);
        lemma_labelled_push(part.take(i), c, f.name);
        if j != p {
            assert(hs[j] == fs[j]);
            if p < fs.len() {
                assert(fs[p].name != fs[j].name);
            } else if f.name == c.label {
                assert(has_label(all, fs[j].name));
            }
        } else if p == fs.len() {
            assert(!has_label(cs, c.label)) by {
                if has_label(cs, c.label) {
                    let k = choose|k: int| 0 <= k < cs.len() && (#[trigger] cs[k]).label == c.label;
                    assert(all[k] == cs[k]);
                }
            }
            lemma_none_having(b, vs, depth, c.label);
            assert(!has_label(part.take(i), c.label)) by {
                let t = part.take(i);
                if has_label(t, c.label) {
                    let k = choose|k: int| 0 <= k < t.len() && (#[trigger] t[k]).label == c.label;
                    assert(all[cs.len() + k] == t[k]);
                }
            }
        }
    }
    assert forall|j: int, k: int| 0 <= j < k < hs.len() implies first_with(
        more,
        (#[trigger] hs[j]).name,
        0,
    ) < first_with(more, (#[trigger] hs[k]).name, 0) by {
        lemma_first_with_push(all, c, hs[j].name);
        lemma_first_with_push(all, c, hs[k].name);
        assert(hs[j].name == fs[j].name && has_label(all, fs[j].name));
        if k < fs.len() {
            assert(hs[k].name == fs[k].name && has_label(all, fs[k].name));
        }
    }
}

// ---------------------------------------------------------------------------
// From what was noted to the type
// ---------------------------------------------------------------------------
/// Whether those types are what can be said of the values of the first `r` shapes.
#[verifier::opaque]
spec fn listed(b: Seq<u8>, vs: Seq<ValueV>, depth: int, ts: Seq<TypeV>, r: int) -> bool {
    &&& forall|i: int|
        0 <= i < ts.len() ==> describes_shape(b, vs, depth, #[trigger] ts[i]) && rank(
            type_shape(ts[i])->0,
        ) < r
    &&& forall|s: Shape| #[trigger]
        occurs(b, vs, s) && rank(s) < r ==> exists|i: int|
            0 <= i < ts.len() && type_shape(#[trigger] ts[i]) == Some(s)
    &&& forall|i: int, j: int|
        0 <= i < j < ts.len() ==> rank(type_shape(#[trigger] ts[i])->0) < rank(
            type_shape(#[trigger] ts[j])->0,
        )
}

proof fn lemma_listed_next(
    b: Seq<u8>,
    vs: Seq<ValueV>,
    depth: int,
    ts: Seq<TypeV>,
    s: Shape,
    t: TypeV,
)
    requires
        listed(b, vs, depth, ts, rank(s)),
        type_shape(t) == Some(s),
        occurs(b, vs, s) ==> describes_shape(b, vs, depth, t),
    ensures
        listed(b, vs, depth, ts + variant_if(occurs(b, vs, s), t), rank(s) + 1),
{
    reveal(listed);
    let us = ts + variant_if(occurs(b, vs, s), t);
    assert forall|x: Shape| #[trigger]
        occurs(b, vs, x) && rank(x) < rank(s) + 1 implies exists|i: int|
        0 <= i < us.len() && type_shape(#[trigger] us[i]) == Some(x) by {
        if x == s {
            assert(us[ts.len() as int] == t);
        } else {
            let i = choose|i: int| 0 <= i < ts.len() && type_shape(#[trigger] ts[i]) == Some(x);
            assert(us[i] == ts[i]);
        }
    }
    assert forall|i: int| 0 <= i < us.len() implies describes_shape(
        b,
        vs,
        depth,
        #[trigger] us[i],
    ) && rank(type_shape(us[i])->0) < rank(s) + 1 && (i < ts.len() ==> rank(type_shape(us[i])->0)
        < rank(s)) by {
        if i < ts.len() {
            assert(us[i] == ts[i]);
        }
    }
    assert forall|i: int, j: int| 0 <= i < j < us.len() implies rank(
        type_shape(#[trigger] us[i])->0,
    ) < rank(type_shape(#[trigger] us[j])->0) by {
        assert(us[i] == ts[i]);
        if j < ts.len() {
            assert(us[j] == ts[j]);
        }
    }
}

/// What was noted of values comes to the type that describes them.
#[verifier::spinoff_prover]
#[verifier::rlimit(30)]
proof fn lemma_collapsed(b: Seq<u8>, vs: Seq<ValueV>, depth: int, acc: AccV)
    requires
        0 <= depth,
        tells(b, vs, depth, acc),
    ensures
        describes(b, vs, depth, collapsed(acc)),
    decreases 25 - depth, 1int,
{
    if depth > 24 {
        reveal(shapes);
        assert(variants(nothing()) =~= Seq::<TypeV>::empty());
    } else {
        assert(fields_tell(
            b,
            vs,
            below(b, vs, depth, Shape::Record),
            Seq::empty(),
            depth,
            acc.fields,
        ));
        let lists = as_values(below(b, vs, depth, Shape::List));
        let maps = as_values(below(b, vs, depth, Shape::Keyed));
        lemma_collapsed(b, lists, depth + 1, acc_or_nothing(acc.arr_elem));
        lemma_collapsed(b, maps, depth + 1, acc_or_nothing(acc.map_val));
        lemma_fields_collapsed(b, vs, depth, acc);
        lemma_how_often(b, vs, Shape::Record);
        lemma_how_often(b, vs, Shape::List);
        lemma_how_often(b, vs, Shape::Keyed);
        let el = match acc.arr_elem {
            Some(a) => collapsed(*a),
            None => TypeV::Any,
        };
        let key = if acc.map_key_str {
            MapKey::Str
        } else {
            MapKey::Num
        };
        let val = match acc.map_val {
            Some(a) => collapsed(*a),
            None => TypeV::Any,
        };
        lemma_alternatives(b, vs, depth, acc, el, key, val);
    }
}

/// The alternatives of the type, one after another.
#[verifier::spinoff_prover]
proof fn lemma_alternatives(
    b: Seq<u8>,
    vs: Seq<ValueV>,
    depth: int,
    acc: AccV,
    el: TypeV,
    key: MapKey,
    val: TypeV,
)
    requires
        0 <= depth <= 24,
        counts(b, vs, acc),
        acc.rec_count > 0 <==> occurs(b, vs, Shape::Record),
        acc.arr_count > 0 <==> occurs(b, vs, Shape::List),
        acc.map_count > 0 <==> occurs(b, vs, Shape::Keyed),
        variants(acc) == shapes(
            acc,
            TypeV::Object(collapsed_fields(acc)),
            TypeV::Array(Box::new(el)),
            TypeV::Dict(key, Box::new(val)),
        ),
        occurs(b, vs, Shape::Record) ==> describes_shape(
            b,
            vs,
            depth,
            TypeV::Object(collapsed_fields(acc)),
        ),
        occurs(b, vs, Shape::List) ==> describes_shape(b, vs, depth, TypeV::Array(Box::new(el))),
        occurs(b, vs, Shape::Keyed) ==> describes_shape(
            b,
            vs,
            depth,
            TypeV::Dict(key, Box::new(val)),
        ),
    ensures
        describes(b, vs, depth, collapsed(acc)),
{
    reveal(shapes);
    let t0 = TypeV::Object(collapsed_fields(acc));
    let t1 = TypeV::Array(Box::new(el));
    let t2 = TypeV::Dict(key, Box::new(val));
    let s0 = Seq::<TypeV>::empty();
    let s1 = s0 + variant_if(occurs(b, vs, Shape::Record), t0);
    let s2 = s1 + variant_if(occurs(b, vs, Shape::List), t1);
    let s3 = s2 + variant_if(occurs(b, vs, Shape::Keyed), t2);
    let s4 = s3 + variant_if(occurs(b, vs, Shape::Text), TypeV::Str);
    let s5 = s4 + variant_if(occurs(b, vs, Shape::Number), TypeV::Num);
    let s6 = s5 + variant_if(occurs(b, vs, Shape::Truth), TypeV::Bool);
    let s7 = s6 + variant_if(occurs(b, vs, Shape::Null), TypeV::Null);
    assert(s1 =~= variant_if(occurs(b, vs, Shape::Record), t0));
    assert(variants(acc) == s7);
    assert(listed(b, vs, depth, s0, 0)) by {
        reveal(listed);
    }
    lemma_listed_next(b, vs, depth, s0, Shape::Record, t0);
    lemma_listed_next(b, vs, depth, s1, Shape::List, t1);
    lemma_listed_next(b, vs, depth, s2, Shape::Keyed, t2);
    lemma_listed_next(b, vs, depth, s3, Shape::Text, TypeV::Str);
    lemma_listed_next(b, vs, depth, s4, Shape::Number, TypeV::Num);
    lemma_listed_next(b, vs, depth, s5, Shape::Truth, TypeV::Bool);
    lemma_listed_next(b, vs, depth, s6, Shape::Null, TypeV::Null);
    lemma_one_or_union(b, vs, depth, s7);
}

/// All the types of the shapes that occur make the type that describes the values.
proof fn lemma_one_or_union(b: Seq<u8>, vs: Seq<ValueV>, depth: int, ts: Seq<TypeV>)
    requires
        0 <= depth <= 24,
        listed(b, vs, depth, ts, 7),
    ensures
        describes(b, vs, depth, one_or_union(ts)),
{
    reveal(listed);
    let ty = one_or_union(ts);
    if ts.len() == 1 {
        assert(describes_shape(b, vs, depth, ts[0]));
    }
    assert(alternatives(ty) =~= ts);
    assert forall|s: Shape| #[trigger] occurs(b, vs, s) implies exists|i: int|
        0 <= i < ts.len() && type_shape(#[trigger] ts[i]) == Some(s) by {
        assert(rank(s) < 7);
    }
}

#[verifier::spinoff_prover]
#[verifier::rlimit(30)]
proof fn lemma_fields_collapsed(b: Seq<u8>, vs: Seq<ValueV>, depth: int, acc: AccV)
    requires
        0 <= depth <= 24,
        acc.rec_count == how_often(b, vs, Shape::Record),
        fields_tell(
            b,
            vs,
            below(b, vs, depth, Shape::Record),
            Seq::empty(),
            depth,
            acc.fields,
        ),
    ensures
        occurs(b, vs, Shape::Record) ==> describes_shape(
            b,
            vs,
            depth,
            TypeV::Object(collapsed_fields(acc)),
        ),
    decreases 25 - depth, 0int,
{
    let cs = below(b, vs, depth, Shape::Record);
    let gs = acc.fields;
    let fs = collapsed_fields(acc);
    assert(cs + Seq::<ChildV>::empty() =~= cs);
    assert forall|i: int| 0 <= i < fs.len() implies ({
        let f = #[trigger] fs[i];
        &&& f.name == gs[i].name
        &&& has_label(cs, f.name)
        &&& f.present == having(b, vs, depth, f.name)
        &&& f.total == how_often(b, vs, Shape::Record)
        &&& describes(b, labelled(cs, f.name), depth + 1, f.ty)
    }) by {
        assert(has_label(cs, gs[i].name));
        assert(!has_label(Seq::<ChildV>::empty(), gs[i].name));
        lemma_collapsed(b, labelled(cs, gs[i].name), depth + 1, gs[i].acc);
    }
    assert forall|k: int| 0 <= k < cs.len() implies exists|i: int|
        0 <= i < fs.len() && (#[trigger] fs[i]).name == (#[trigger] cs[k]).label by {
        let i = choose|i: int| 0 <= i < gs.len() && (#[trigger] gs[i]).name == cs[k].label;
        assert(fs[i].name == cs[k].label);
    }
    assert forall|i: int, j: int| 0 <= i < j < fs.len() implies first_with(
        cs,
        (#[trigger] fs[i]).name,
        0,
    ) < first_with(cs, (#[trigger] fs[j]).name, 0) by {
        assert(fs[i].name == gs[i].name && fs[j].name == gs[j].name);
    }
}

// ---------------------------------------------------------------------------
// Laws
// ---------------------------------------------------------------------------
/// The type that is inferred of a value is what can be said of it: the kinds that occur at
/// each place in it, through arrays, maps and the fields of records, and none that do not.
pub proof fn law_inferred_type_describes_the_value(b: Seq<u8>, v: ValueV)
    requires
        looked_at(b, v, 0) <= 300_000,
    ensures
        describes(b, seq![v], 0, inferred(b, v, false)),
{
    lemma_nothing_tells(b, 0);
    lemma_seen_value(b, Seq::empty(), nothing(), v, 0, NODE_BUDGET as int);
    assert(Seq::<ValueV>::empty().push(v) =~= seq![v]);
    lemma_collapsed(b, seq![v], 0, seen_value(b, nothing(), v, 0, NODE_BUDGET as int).0);
}

/// The type of documents that follow one another is that of an array of them.
pub proof fn law_inferred_type_describes_the_lines(b: Seq<u8>, v: ValueV)
    requires
        looked_at_from(
            b,
            front(children_from(b, level_of_lines(v.start, v.end)), 2000),
            0,
            1,
        ) <= 300_000,
    ensures
        inferred(b, v, true) matches TypeV::Array(el) && describes(
            b,
            as_values(front(children_from(b, level_of_lines(v.start, v.end)), 2000)),
            1,
            *el,
        ),
{
    let docs = children_from(b, level_of_lines(v.start, v.end));
    let cs = front(docs, 2000);
    let none = Seq::<ValueV>::empty();
    assert(first_children(docs, TOP_SAMPLE as int) =~= cs);
    lemma_nothing_tells(b, 1);
    lemma_seen_each(b, none, nothing(), cs, 0, 1, NODE_BUDGET as int);
    assert(none + as_values(cs.skip(0)) =~= as_values(cs));
    let seen = seen_each(b, nothing(), cs, 0, 1, NODE_BUDGET as int).0;
    lemma_collapsed(b, as_values(cs), 1, seen);
}

/// The type of a sequence of values is that of an array of them.
pub proof fn law_inferred_type_describes_the_sequence(b: Seq<u8>, cs: Seq<ChildV>)
    requires
        looked_at_from(b, front(cs, 2000), 0, 1) <= 300_000,
    ensures
        inferred_seq(b, as_values(cs)) matches TypeV::Array(el) && describes(
            b,
            as_values(front(cs, 2000)),
            1,
            *el,
        ),
{
    let some = front(cs, 2000);
    let vs = as_values(cs);
    let none = Seq::<ValueV>::empty();
    assert((if vs.len() <= TOP_SAMPLE {
        vs
    } else {
        vs.take(TOP_SAMPLE as int)
    }) =~= as_values(some));
    lemma_nothing_tells(b, 1);
    lemma_seen_each(b, none, nothing(), some, 0, 1, NODE_BUDGET as int);
    lemma_values_seen(b, nothing(), some, 0, NODE_BUDGET as int);
    assert(none + as_values(some.skip(0)) =~= as_values(some));
    let seen = seen_each(b, nothing(), some, 0, 1, NODE_BUDGET as int).0;
    lemma_collapsed(b, as_values(some), 1, seen);
}

proof fn lemma_values_seen(b: Seq<u8>, acc: AccV, cs: Seq<ChildV>, i: int, budget: int)
    requires
        0 <= i,
    ensures
        seen_values(b, acc, as_values(cs), i, budget) == seen_each(b, acc, cs, i, 1, budget),
    decreases cs.len() - i,
{
    if i < cs.len() {
        let (a, left) = seen_value(b, acc, as_value(cs[i]), 1, budget);
        assert(as_value(cs[i]) == value_of(cs[i]));
        lemma_values_seen(b, a, cs, i + 1, left);
    }
}

/// Where a child that is looked at stands among those of all the values.
proof fn lemma_in_below(b: Seq<u8>, vs: Seq<ValueV>, depth: int, s: Shape, k: int, m: int) -> (p: int)
    requires
        0 <= k < vs.len(),
        shape(b, vs[k]) == s,
        0 <= m < sampled(b, vs[k], depth).len(),
    ensures
        0 <= p < below(b, vs, depth, s).len(),
        below(b, vs, depth, s)[p] == sampled(b, vs[k], depth)[m],
    decreases vs.len(),
{
    let us = vs.drop_last();
    if k < us.len() {
        assert(us[k] == vs[k]);
        lemma_in_below(b, us, depth, s, k, m)
    } else {
        below(b, us, depth, s).len() + m
    }
}

proof fn lemma_in_labelled(cs: Seq<ChildV>, name: Seq<char>, p: int) -> (q: int)
    requires
        0 <= p < cs.len(),
        cs[p].label == name,
    ensures
        0 <= q < labelled(cs, name).len(),
        labelled(cs, name)[q] == as_value(cs[p]),
    decreases cs.len(),
{
    let ds = cs.drop_last();
    if p < ds.len() {
        assert(ds[p] == cs[p]);
        lemma_in_labelled(ds, name, p)
    } else {
        labelled(ds, name).len() as int
    }
}

/// No more records have a label than there are, and fewer where one lacks it.
proof fn lemma_lacking(b: Seq<u8>, vs: Seq<ValueV>, depth: int, name: Seq<char>)
    ensures
        having(b, vs, depth, name) <= how_often(b, vs, Shape::Record),
        having(b, vs, depth, name) < how_often(b, vs, Shape::Record) <==> exists|k: int|
            0 <= k < vs.len() && shape(b, #[trigger] vs[k]) == Shape::Record && !has_label(
                sampled(b, vs[k], depth),
                name,
            ),
    decreases vs.len(),
{
    if vs.len() > 0 {
        let us = vs.drop_last();
        lemma_lacking(b, us, depth, name);
        if having(b, us, depth, name) < how_often(b, us, Shape::Record) {
            let k = choose|k: int|
                0 <= k < us.len() && shape(b, #[trigger] us[k]) == Shape::Record && !has_label(
                    sampled(b, us[k], depth),
                    name,
                );
            assert(vs[k] == us[k]);
        }
        if shape(b, vs.last()) == Shape::Record && !has_label(sampled(b, vs.last(), depth), name) {
            assert(vs[vs.len() - 1] == vs.last());
        }
        if exists|k: int|
            0 <= k < vs.len() && shape(b, #[trigger] vs[k]) == Shape::Record && !has_label(
                sampled(b, vs[k], depth),
                name,
            ) {
            let k = choose|k: int|
                0 <= k < vs.len() && shape(b, #[trigger] vs[k]) == Shape::Record && !has_label(
                    sampled(b, vs[k], depth),
                    name,
                );
            if k < us.len() {
                assert(us[k] == vs[k]);
            }
        }
    }
}

/// Each of the values that a type describes is of that type.
proof fn lemma_belongs(b: Seq<u8>, vs: Seq<ValueV>, depth: int, ty: TypeV, k: int)
    requires
        0 <= depth,
        0 <= k < vs.len(),
        describes(b, vs, depth, ty),
    ensures
        belongs(b, vs[k], depth, ty),
    decreases 25 - depth,
{
    if depth <= 24 {
        let v = vs[k];
        let s = shape(b, v);
        let ts = alternatives(ty);
        let cs = sampled(b, v, depth);
        assert(occurs(b, vs, s));
        let i = choose|i: int| 0 <= i < ts.len() && type_shape(#[trigger] ts[i]) == Some(s);
        let t = ts[i];
        assert(describes_shape(b, vs, depth, t));
        match t {
            TypeV::Array(el) => {
                let all = as_values(below(b, vs, depth, s));
                assert forall|m: int| 0 <= m < cs.len() implies belongs(
                    b,
                    as_value(#[trigger] cs[m]),
                    depth + 1,
                    *el,
                ) by {
                    let p = lemma_in_below(b, vs, depth, s, k, m);
                    lemma_belongs(b, all, depth + 1, *el, p);
                }
            },
            TypeV::Dict(_, el) => {
                let all = as_values(below(b, vs, depth, s));
                assert forall|m: int| 0 <= m < cs.len() implies belongs(
                    b,
                    as_value(#[trigger] cs[m]),
                    depth + 1,
                    *el,
                ) by {
                    let p = lemma_in_below(b, vs, depth, s, k, m);
                    lemma_belongs(b, all, depth + 1, *el, p);
                }
            },
            TypeV::Object(fs) => {
                let all = below(b, vs, depth, s);
                assert forall|m: int| 0 <= m < cs.len() implies exists|j: int|
                    0 <= j < fs.len() && (#[trigger] fs[j]).name == (#[trigger] cs[m]).label by {
                    let p = lemma_in_below(b, vs, depth, s, k, m);
                    assert(all[p].label == cs[m].label);
                }
                assert forall|j: int|
                    0 <= j < fs.len() && !has_label(cs, (#[trigger] fs[j]).name) implies fs[j].present
                    < fs[j].total by {
                    lemma_lacking(b, vs, depth, fs[j].name);
                    assert(shape(b, vs[k]) == Shape::Record);
                }
                assert forall|m: int, j: int|
                    0 <= m < cs.len() && 0 <= j < fs.len() && (#[trigger] cs[m]).label == (
                    #[trigger] fs[j]).name implies belongs(
                    b,
                    as_value(cs[m]),
                    depth + 1,
                    fs[j].ty,
                ) by {
                    let p = lemma_in_below(b, vs, depth, s, k, m);
                    let q = lemma_in_labelled(all, fs[j].name, p);
                    lemma_belongs(b, labelled(all, fs[j].name), depth + 1, fs[j].ty, q);
                }
            },
            _ => {},
        }
        assert(alternatives(ty)[i] == t);
    }
}

/// Every value is of the type that is inferred of it, and so is whatever is looked at in it
/// of the type that stands in its place there.
pub proof fn law_value_is_of_its_type(b: Seq<u8>, v: ValueV)
    requires
        looked_at(b, v, 0) <= 300_000,
    ensures
        belongs(b, v, 0, inferred(b, v, false)),
{
    law_inferred_type_describes_the_value(b, v);
    lemma_belongs(b, seq![v], 0, inferred(b, v, false), 0);
}

/// Each of the documents that follow one another is of the element type that is inferred of
/// them.
pub proof fn law_lines_are_of_their_type(b: Seq<u8>, v: ValueV, k: int)
    requires
        ({
            let cs = front(children_from(b, level_of_lines(v.start, v.end)), 2000);
            0 <= k < cs.len() && looked_at_from(b, cs, 0, 1) <= 300_000
        }),
    ensures
        inferred(b, v, true) matches TypeV::Array(el) && belongs(
            b,
            as_value(children_from(b, level_of_lines(v.start, v.end))[k]),
            1,
            *el,
        ),
{
    law_inferred_type_describes_the_lines(b, v);
    let cs = front(children_from(b, level_of_lines(v.start, v.end)), 2000);
    lemma_belongs(b, as_values(cs), 1, *inferred(b, v, true)->Array_0, k);
}

/// A field is optional exactly where one of the records lacks it.
pub proof fn law_optional_fields(
    b: Seq<u8>,
    vs: Seq<ValueV>,
    depth: int,
    fs: Seq<FieldV>,
    i: int,
)
    requires
        describes_shape(b, vs, depth, TypeV::Object(fs)),
        0 <= i < fs.len(),
    ensures
        fs[i].present < fs[i].total <==> exists|k: int|
            0 <= k < vs.len() && shape(b, #[trigger] vs[k]) == Shape::Record && !has_label(
                sampled(b, vs[k], depth),
                fs[i].name,
            ),
{
    lemma_lacking(b, vs, depth, fs[i].name);
}

/// A lone scalar is of the type of its kind.
pub proof fn law_type_of_a_scalar(b: Seq<u8>, v: ValueV)
    ensures
        v.kind == Kind::Str ==> inferred(b, v, false) == TypeV::Str,
        v.kind == Kind::Number ==> inferred(b, v, false) == TypeV::Num,
        v.kind == Kind::Bool ==> inferred(b, v, false) == TypeV::Bool,
        v.kind == Kind::Null ==> inferred(b, v, false) == TypeV::Null,
{
    if v.kind != Kind::Array && v.kind != Kind::Object {
        let s = shape(b, v);
        let ty = inferred(b, v, false);
        let ts = alternatives(ty);
        assert(looked_at(b, v, 0) == 1) by {
            reveal_with_fuel(looked_at_from, 2);
        }
        law_inferred_type_describes_the_value(b, v);
        lemma_occurs_push(b, Seq::empty(), v, s);
        assert(Seq::<ValueV>::empty().push(v) =~= seq![v]);
        let i = choose|i: int| 0 <= i < ts.len() && type_shape(#[trigger] ts[i]) == Some(s);
        assert forall|j: int| 0 <= j < ts.len() implies type_shape(#[trigger] ts[j]) == Some(
            s,
        ) by {
            assert(describes_shape(b, seq![v], 0, ts[j]));
            let x = type_shape(ts[j])->0;
            let k = choose|k: int| 0 <= k < seq![v].len() && shape(b, #[trigger] seq![v][k]) == x;
            assert(x == s);
        }
        if ts.len() > 1 {
            assert(rank(type_shape(ts[0])->0) < rank(type_shape(ts[1])->0));
        }
        assert(ts[0] == ty);
    }
}

// ---------------------------------------------------------------------------
// Maps
// ---------------------------------------------------------------------------
/// How many of the children `p` holds of.
pub open spec fn number_of(cs: Seq<ChildV>, p: spec_fn(ChildV) -> bool) -> nat
    decreases cs.len(),
{
    if cs.len() == 0 {
        0
    } else {
        (if p(cs[0]) {
            1nat
        } else {
            0
        }) + number_of(cs.skip(1), p)
    }
}

proof fn lemma_number_of_last(cs: Seq<ChildV>, p: spec_fn(ChildV) -> bool)
    requires
        cs.len() > 0,
    ensures
        number_of(cs, p) == number_of(cs.drop_last(), p) + (if p(cs.last()) {
            1nat
        } else {
            0
        }),
    decreases cs.len(),
{
    if cs.len() > 1 {
        assert(cs.skip(1).drop_last() =~= cs.drop_last().skip(1));
        lemma_number_of_last(cs.skip(1), p);
    } else {
        assert(cs.skip(1) =~= Seq::empty());
        assert(cs.drop_last() =~= Seq::empty());
    }
}

proof fn lemma_how_many(cs: Seq<ChildV>, p: spec_fn(ChildV) -> bool, r: spec_fn(ChildV) -> bool)
    requires
        forall|c: ChildV| #[trigger] p(c) == r(c),
    ensures
        how_many(cs, p) == number_of(cs, r),
    decreases cs.len(),
{
    if cs.len() > 0 {
        lemma_how_many(cs.drop_last(), p, r);
        lemma_number_of_last(cs, r);
        assert(p(cs.last()) == r(cs.last()));
    }
}

/// The children of an object of which it is told whether it is a map: the first
/// forty-eight.
pub open spec fn probed(b: Seq<u8>, start: int, end: int) -> Seq<ChildV> {
    front(children_from(b, level_of(start, end, false)), 48)
}

/// Whether a child is an object that has that key, among its first thirty-two.
pub open spec fn object_with(b: Seq<u8>, name: Seq<char>) -> spec_fn(ChildV) -> bool {
    |c: ChildV|
        c.kind == Kind::Object && has_label(
            front(children_from(b, level_of(c.start, c.end, false)), 32),
            name,
        )
}

/// Whether the table says of each key how many of the objects have it: each key once, and
/// every key that one of them has.
pub open spec fn key_table(b: Seq<u8>, cs: Seq<ChildV>, t: Seq<(Seq<char>, int)>) -> bool {
    &&& forall|i: int|
        0 <= i < t.len() ==> (#[trigger] t[i]).1 == number_of(cs, object_with(b, t[i].0)) && t[i].1
            > 0
    &&& forall|i: int, j: int|
        0 <= i < j < t.len() ==> (#[trigger] t[i]).0 != (#[trigger] t[j]).0
    &&& forall|name: Seq<char>| #[trigger]
        number_of(cs, object_with(b, name)) > 0 ==> exists|i: int|
            0 <= i < t.len() && (#[trigger] t[i]).0 == name
}

pub open spec fn sum_of(t: Seq<(Seq<char>, int)>) -> int
    decreases t.len(),
{
    if t.len() == 0 {
        0
    } else {
        sum_of(t.drop_last()) + t.last().1
    }
}

pub open spec fn sum_of_squares(t: Seq<(Seq<char>, int)>) -> int
    decreases t.len(),
{
    if t.len() == 0 {
        0
    } else {
        sum_of_squares(t.drop_last()) + t.last().1 * t.last().1
    }
}

proof fn lemma_sums(t: Seq<(Seq<char>, int)>)
    ensures
        sum_of(t) == tally_sum(t),
        sum_of_squares(t) == tally_square_sum(t),
    decreases t.len(),
{
    if t.len() > 0 {
        lemma_sums(t.drop_last());
    }
}

/// The names of the list that `name` is one of.
spec fn in_list(names: Seq<Seq<char>>, name: Seq<char>) -> bool {
    exists|i: int| 0 <= i < names.len() && #[trigger] names[i] == name
}

proof fn lemma_distinct(names: Seq<Seq<char>>)
    ensures
        forall|i: int, j: int|
            0 <= i < j < distinct(names).len() ==> #[trigger] distinct(names)[i]
                != #[trigger] distinct(names)[j],
        forall|name: Seq<char>| #[trigger] in_list(distinct(names), name) == in_list(names, name),
    decreases names.len(),
{
    if names.len() > 0 {
        let most = names.drop_last();
        let d = distinct(most);
        let r = distinct(names);
        lemma_distinct(most);
        lemma_name_position(d, names.last(), 0);
        assert forall|name: Seq<char>| #[trigger] in_list(r, name) == in_list(names, name) by {
            if in_list(names, name) {
                let k = choose|k: int| 0 <= k < names.len() && #[trigger] names[k] == name;
                if k < most.len() {
                    assert(most[k] == name);
                    assert(in_list(most, name));
                    assert(in_list(d, name));
                    let m = choose|m: int| 0 <= m < d.len() && #[trigger] d[m] == name;
                    assert(r[m] == name);
                } else if name_position(d, names.last(), 0) is Some {
                    let m = name_position(d, names.last(), 0)->0;
                    assert(r[m] == name);
                } else {
                    assert(r[d.len() as int] == name);
                }
            }
            if in_list(r, name) {
                let k = choose|k: int| 0 <= k < r.len() && #[trigger] r[k] == name;
                if k < d.len() {
                    assert(d[k] == name);
                    assert(in_list(d, name));
                    assert(in_list(most, name));
                    let m = choose|m: int| 0 <= m < most.len() && #[trigger] most[m] == name;
                    assert(names[m] == name);
                } else {
                    assert(names[names.len() - 1] == name);
                }
            }
        }
    }
}

/// Whether the names of a table are distinct.
spec fn names_differ(t: Seq<(Seq<char>, int)>) -> bool {
    forall|i: int, j: int| 0 <= i < j < t.len() ==> (#[trigger] t[i]).0 != (#[trigger] t[j]).0
}

/// What a table says of a name: nothing where it does not have it.
spec fn table_at(t: Seq<(Seq<char>, int)>, name: Seq<char>) -> int {
    match name_position(tally_names(t), name, 0) {
        Some(i) => t[i].1,
        None => 0,
    }
}

proof fn lemma_table_at(t: Seq<(Seq<char>, int)>, i: int)
    requires
        names_differ(t),
        0 <= i < t.len(),
    ensures
        table_at(t, t[i].0) == t[i].1,
{
    let names = tally_names(t);
    lemma_name_position(names, t[i].0, 0);
    assert(names[i] == t[i].0);
    let p = name_position(names, t[i].0, 0)->0;
    if p < i {
        assert(t[p].0 == names[p]);
    }
}

proof fn lemma_bumped(t: Seq<(Seq<char>, int)>, name: Seq<char>)
    requires
        names_differ(t),
        forall|i: int| 0 <= i < t.len() ==> (#[trigger] t[i]).1 > 0,
    ensures
        names_differ(bumped(t, name)),
        forall|i: int| 0 <= i < bumped(t, name).len() ==> (#[trigger] bumped(t, name)[i]).1 > 0,
        forall|x: Seq<char>| #[trigger]
            table_at(bumped(t, name), x) == table_at(t, x) + (if x == name {
                1int
            } else {
                0
            }),
{
    let names = tally_names(t);
    let u = bumped(t, name);
    lemma_name_position(names, name, 0);
    match name_position(names, name, 0) {
        Some(p) => {
            assert(t[p].0 == names[p]);
            assert(names_differ(u)) by {
                assert forall|i: int, j: int| 0 <= i < j < u.len() implies (#[trigger] u[i]).0
                    != (#[trigger] u[j]).0 by {
                    assert(u[i].0 == t[i].0 && u[j].0 == t[j].0);
                }
            }
            assert(tally_names(u) =~= names);
            assert forall|x: Seq<char>| #[trigger]
                table_at(u, x) == table_at(t, x) + (if x == name {
                    1int
                } else {
                    0
                }) by {
                lemma_name_position(names, x, 0);
                if let Some(q) = name_position(names, x, 0) {
                    assert(t[q].0 == names[q]);
                    if x != name {
                        assert(q != p);
                    }
                }
            }
        },
        None => {
            assert(names_differ(u)) by {
                assert forall|i: int, j: int| 0 <= i < j < u.len() implies (#[trigger] u[i]).0
                    != (#[trigger] u[j]).0 by {
                    assert(names[i] == t[i].0);
                    if j < t.len() {
                        assert(u[j] == t[j]);
                    }
                }
            }
            assert forall|x: Seq<char>| #[trigger]
                table_at(u, x) == table_at(t, x) + (if x == name {
                    1int
                } else {
                    0
                }) by {
                lemma_name_position(names, x, 0);
                lemma_name_position(tally_names(u), x, 0);
                if let Some(q) = name_position(names, x, 0) {
                    assert(tally_names(u)[q] == names[q]);
                    let r = name_position(tally_names(u), x, 0)->0;
                    if r < q {
                        assert(names[r] == tally_names(u)[r]);
                    }
                } else if x == name {
                    assert(tally_names(u)[t.len() as int] == name);
                    let r = name_position(tally_names(u), x, 0)->0;
                    if r < t.len() {
                        assert(names[r] == tally_names(u)[r]);
                    }
                } else if let Some(r) = name_position(tally_names(u), x, 0) {
                    if r < t.len() {
                        assert(names[r] == tally_names(u)[r]);
                    }
                }
            }
        },
    }
}

proof fn lemma_bumped_all(t: Seq<(Seq<char>, int)>, names: Seq<Seq<char>>)
    requires
        names_differ(t),
        forall|i: int| 0 <= i < t.len() ==> (#[trigger] t[i]).1 > 0,
        forall|i: int, j: int|
            0 <= i < j < names.len() ==> #[trigger] names[i] != #[trigger] names[j],
    ensures
        names_differ(bumped_all(t, names)),
        forall|i: int|
            0 <= i < bumped_all(t, names).len() ==> (#[trigger] bumped_all(t, names)[i]).1 > 0,
        forall|x: Seq<char>| #[trigger]
            table_at(bumped_all(t, names), x) == table_at(t, x) + (if in_list(names, x) {
                1int
            } else {
                0
            }),
    decreases names.len(),
{
    if names.len() > 0 {
        let most = names.drop_last();
        assert forall|i: int, j: int| 0 <= i < j < most.len() implies #[trigger] most[i]
            != #[trigger] most[j] by {
            assert(most[i] == names[i] && most[j] == names[j]);
        }
        lemma_bumped_all(t, most);
        lemma_bumped(bumped_all(t, most), names.last());
        assert forall|x: Seq<char>| #[trigger]
            table_at(bumped_all(t, names), x) == table_at(t, x) + (if in_list(names, x) {
                1int
            } else {
                0
            }) by {
            if in_list(most, x) {
                let k = choose|k: int| 0 <= k < most.len() && #[trigger] most[k] == x;
                assert(names[k] == x);
                assert(names[k] != names[names.len() - 1]);
            } else if x == names.last() {
                assert(names[names.len() - 1] == x);
            } else if in_list(names, x) {
                let k = choose|k: int| 0 <= k < names.len() && #[trigger] names[k] == x;
                assert(most[k] == x);
            }
        }
    }
}

proof fn lemma_key_tally(b: Seq<u8>, cs: Seq<ChildV>)
    ensures
        names_differ(key_tally(b, cs)),
        forall|i: int| 0 <= i < key_tally(b, cs).len() ==> (#[trigger] key_tally(b, cs)[i]).1 > 0,
        forall|x: Seq<char>| #[trigger]
            table_at(key_tally(b, cs), x) == number_of(cs, object_with(b, x)),
    decreases cs.len(),
{
    if cs.len() > 0 {
        let most = cs.drop_last();
        let c = cs.last();
        let t = key_tally(b, most);
        let ds = front(children_from(b, level_of(c.start, c.end, false)), 32);
        let names = sample_keys(b, value_of(c));
        lemma_key_tally(b, most);
        assert(first_children(children_from(b, level_of(c.start, c.end, false)), 32) =~= ds);
        lemma_distinct(labels(ds));
        if c.kind is Object {
            lemma_bumped_all(t, names);
        }
        assert forall|x: Seq<char>| #[trigger]
            table_at(key_tally(b, cs), x) == number_of(cs, object_with(b, x)) by {
            lemma_number_of_last(cs, object_with(b, x));
            assert(table_at(t, x) == number_of(most, object_with(b, x)));
            assert(in_list(names, x) == in_list(labels(ds), x));
            assert(in_list(labels(ds), x) == has_label(ds, x)) by {
                if has_label(ds, x) {
                    let k = choose|k: int| 0 <= k < ds.len() && (#[trigger] ds[k]).label == x;
                    assert(labels(ds)[k] == x);
                }
                if in_list(labels(ds), x) {
                    let k = choose|k: int|
                        0 <= k < labels(ds).len() && #[trigger] labels(ds)[k] == x;
                    assert(ds[k].label == x);
                }
            }
        }
    } else {
        assert forall|x: Seq<char>| #[trigger]
            table_at(key_tally(b, cs), x) == number_of(cs, object_with(b, x)) by {
            lemma_name_position(tally_names(key_tally(b, cs)), x, 0);
        }
    }
}

proof fn lemma_key_table(b: Seq<u8>, cs: Seq<ChildV>)
    ensures
        key_table(b, cs, key_tally(b, cs)),
{
    let t = key_tally(b, cs);
    lemma_key_tally(b, cs);
    assert forall|i: int| 0 <= i < t.len() implies (#[trigger] t[i]).1 == number_of(
        cs,
        object_with(b, t[i].0),
    ) && t[i].1 > 0 by {
        lemma_table_at(t, i);
    }
    assert forall|name: Seq<char>| #[trigger]
        number_of(cs, object_with(b, name)) > 0 implies exists|i: int|
        0 <= i < t.len() && (#[trigger] t[i]).0 == name by {
        assert(table_at(t, name) > 0);
        lemma_name_position(tally_names(t), name, 0);
        let i = name_position(tally_names(t), name, 0)->0;
        assert(t[i].0 == name);
    }
}

/// A key that looks like the name of a field: a letter or an underscore, and then letters,
/// digits and underscores.
pub open spec fn field_name(k: Seq<char>) -> bool {
    k.len() > 0 && !('0' <= k[0] <= '9') && forall|i: int|
        0 <= i < k.len() ==> 'a' <= #[trigger] k[i] <= 'z' || 'A' <= k[i] <= 'Z' || '0' <= k[i]
            <= '9' || k[i] == '_'
}

proof fn lemma_field_name(k: Seq<char>)
    ensures
        field_name(k) == ident_key(k),
{
    if ident_key(k) {
        assert forall|i: int| 0 <= i < k.len() implies 'a' <= #[trigger] k[i] <= 'z' || 'A' <= k[i]
            <= 'Z' || '0' <= k[i] <= '9' || k[i] == '_' by {}
    }
    if field_name(k) {
        assert('a' <= k[0] <= 'z' || 'A' <= k[0] <= 'Z' || '0' <= k[0] <= '9' || k[0] == '_');
    }
}

/// When an object is read as a map keyed by data. Four in five of the values that are looked
/// at must be of one kind, where words count as one kind. Then it is a map where three in
/// five of the keys are no names of fields, or where at least three of the values, and four
/// in five, are objects whose keys are alike: summed over the keys, the number of objects
/// that have a key, weighed by itself, is on the average seven in ten of the objects.
pub proof fn law_which_objects_are_maps(b: Seq<u8>, start: int, end: int)
    ensures
        ({
            let cs = probed(b, start, end);
            let n = cs.len() as int;
            let objects = number_of(cs, |c: ChildV| c.kind == Kind::Object) as int;
            let one_kind = 100 * objects >= 80 * n || 100 * number_of(
                cs,
                |c: ChildV| c.kind == Kind::Array,
            ) >= 80 * n || 100 * number_of(cs, |c: ChildV| c.kind == Kind::Str) >= 80 * n || 100
                * number_of(cs, |c: ChildV| c.kind == Kind::Number) >= 80 * n || 100 * number_of(
                cs,
                |c: ChildV| c.kind == Kind::Bool || c.kind == Kind::Null,
            ) >= 80 * n;
            let data = 100 * number_of(cs, |c: ChildV| !field_name(c.label)) >= 60 * n;
            exists|t: Seq<(Seq<char>, int)>| #[trigger]
                key_table(b, cs, t) && {
                    let alike = objects >= 3 && 100 * objects >= 80 * n && sum_of(t) > 0 && 100
                        * sum_of_squares(t) >= 70 * (sum_of(t) * objects);
                    map_key(b, start, end) is Some <==> n > 0 && one_kind && (data || alike)
                }
        }),
        map_key(b, start, end) == Some(MapKey::Num) <==> map_key(b, start, end) is Some && number_of(
            probed(b, start, end),
            |c: ChildV| float_text(c.label),
        ) == probed(b, start, end).len(),
{
    let all = children_from(b, level_of(start, end, false));
    let cs = probed(b, start, end);
    assert(first_children(all, MAP_PROBE as int) =~= cs);
    let n = cs.len() as int;
    let t = key_tally(b, cs);
    lemma_key_table(b, cs);
    lemma_sums(t);
    lemma_how_many(cs, |c: ChildV| c.kind is Object, |c: ChildV| c.kind == Kind::Object);
    lemma_how_many(cs, |c: ChildV| c.kind is Array, |c: ChildV| c.kind == Kind::Array);
    lemma_how_many(cs, |c: ChildV| c.kind is Str, |c: ChildV| c.kind == Kind::Str);
    lemma_how_many(cs, |c: ChildV| c.kind is Number, |c: ChildV| c.kind == Kind::Number);
    lemma_how_many(
        cs,
        |c: ChildV| c.kind is Bool || c.kind is Null,
        |c: ChildV| c.kind == Kind::Bool || c.kind == Kind::Null,
    );
    assert forall|c: ChildV| !#[trigger] ident_key(c.label) == !field_name(c.label) by {
        lemma_field_name(c.label);
    }
    lemma_how_many(cs, |c: ChildV| !ident_key(c.label), |c: ChildV| !field_name(c.label));
    lemma_how_many(cs, |c: ChildV| float_text(c.label), |c: ChildV| float_text(c.label));
    let objects = number_of(cs, |c: ChildV| c.kind == Kind::Object) as int;
    let s = sum_of(t);
    assert(s * objects * 70 == 70 * (s * objects)) by (nonlinear_arith);
    assert(key_table(b, cs, t));
}

} // verus!
