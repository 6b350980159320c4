//! An inferred type as text: a foldable, TypeScript-like outline.

use crate::schema::{nested_within, Field, FieldV, MapKey, Type, TypeV};
use crate::text::{decimal, decimal_string, join_strings, joined, texts};
use vstd::prelude::*;

verus! {

/// One node of the rendered outline. A node with `children` is a foldable block,
/// an object body: its opening line (`user: {`), the child nodes, then
/// `close_text` (`}` plus any `[]`/`Record<>` suffix that trails the block).
/// Folded, the whole block collapses onto `folded_text` (`user: {…}  // 3 fields`).
/// A leaf carries the same text in both, and an empty `close_text`.
#[derive(Debug, PartialEq)]
pub struct Outline {
    pub open_text: String,
    pub folded_text: String,
    pub close_text: String,
    /// Nesting level, matching the two-space indent already baked into the texts.
    pub depth: usize,
    pub children: Vec<Outline>,
    /// Fold state, flipped by the overlay. Everything starts open.
    pub open: bool,
}

/// An outline as the contracts speak of it.
pub struct OutlineV {
    pub open_text: Seq<char>,
    pub folded_text: Seq<char>,
    pub close_text: Seq<char>,
    pub depth: int,
    pub children: Seq<OutlineV>,
    pub open: bool,
}

impl Outline {
    pub open spec fn model(&self) -> OutlineV
        decreases self,
    {
        OutlineV {
            open_text: self.open_text@,
            folded_text: self.folded_text@,
            close_text: self.close_text@,
            depth: self.depth as int,
            children: Seq::new(
                self.children@.len(),
                |i: int|
                    if 0 <= i < self.children@.len() {
                        self.children@[i].model()
                    } else {
                        arbitrary()
                    },
            ),
            open: self.open,
        }
    }

    fn leaf(text: String, depth: usize) -> (r: Self)
        ensures
            r.model() == leaf_outline(text@, depth as int),
    {
        let r = Outline {
            open_text: text.clone(),
            folded_text: text,
            close_text: String::new(),
            depth,
            children: Vec::new(),
            open: true,
        };
        assert(r.model().children =~= Seq::empty());
        assert(r.model().close_text =~= Seq::empty());
        r
    }

    pub fn foldable(&self) -> (r: bool)
        ensures
            r == (self.children@.len() > 0),
    {
        self.children.len() > 0
    }
}

pub open spec fn outline_models(nodes: Seq<Outline>) -> Seq<OutlineV> {
    Seq::new(nodes.len(), |i: int| nodes[i].model())
}

pub open spec fn leaf_outline(text: Seq<char>, depth: int) -> OutlineV {
    OutlineV {
        open_text: text,
        folded_text: text,
        close_text: Seq::empty(),
        depth,
        children: Seq::empty(),
        open: true,
    }
}

// ---------------------------------------------------------------------------
// From type to outline
// ---------------------------------------------------------------------------
/// The scalar keyword for a leaf type, or `None` for a composite.
pub open spec fn type_word(ty: TypeV) -> Option<Seq<char>> {
    match ty {
        TypeV::Any => Some("any"@),
        TypeV::Str => Some("string"@),
        TypeV::Num => Some("number"@),
        TypeV::Bool => Some("boolean"@),
        TypeV::Null => Some("null"@),
        _ => None,
    }
}

fn word(ty: &Type) -> (r: Option<&'static str>)
    ensures
        match type_word(ty.model()) {
            Some(w) => r matches Some(x) && x@ == w,
            None => r is None,
        },
{
    match ty {
        Type::Any => Some("any"),
        Type::Str => Some("string"),
        Type::Num => Some("number"),
        Type::Bool => Some("boolean"),
        Type::Null => Some("null"),
        _ => None,
    }
}

/// The indent of a nesting level.
pub open spec fn pad(indent: int) -> Seq<char> {
    Seq::new((2 * indent) as nat, |i: int| ' ')
}

fn make_pad(indent: usize) -> (r: String)
    ensures
        r@ == pad(indent as int),
{
    let mut s = String::new();
    let mut i: usize = 0;
    while i < indent
        invariant
            i <= indent,
            s@ == pad(i as int),
        decreases indent - i,
    {
        s.push(' ');
        s.push(' ');
        i += 1;
        assert(s@ =~= pad(i as int));
    }
    s
}

/// The words of the scalars among the types.
pub open spec fn scalar_words(vs: Seq<TypeV>) -> Seq<Seq<char>>
    decreases vs.len(),
{
    if vs.len() == 0 {
        Seq::empty()
    } else {
        match type_word(vs.last()) {
            Some(w) => scalar_words(vs.drop_last()).push(w),
            None => scalar_words(vs.drop_last()),
        }
    }
}

/// How many of the types are composite.
pub open spec fn composite_count(vs: Seq<TypeV>) -> int
    decreases vs.len(),
{
    if vs.len() == 0 {
        0
    } else {
        composite_count(vs.drop_last()) + (if type_word(vs.last()) is None {
            1int
        } else {
            0
        })
    }
}

/// The number of the first composite type, from `i` on.
pub open spec fn first_composite(vs: Seq<TypeV>, i: int) -> int
    decreases vs.len() - i,
{
    if i < vs.len() && type_word(vs[i]) is Some {
        first_composite(vs, i + 1)
    } else {
        i
    }
}

/// The fill comment of a field that some records lack.
pub open spec fn field_note(f: FieldV) -> Seq<char> {
    if f.present < f.total {
        "   // "@ + decimal((f.present * 100 / f.total) as nat) + "%"@
    } else {
        Seq::empty()
    }
}

/// What stands in front of a field's type.
pub open spec fn field_prefix(f: FieldV) -> Seq<char> {
    f.name + (if f.present < f.total {
        "?"@
    } else {
        ""@
    }) + ": "@
}

/// The number of fields, in words.
pub open spec fn field_count(n: int) -> Seq<char> {
    if n == 1 {
        "1 field"@
    } else {
        decimal(n as nat) + " fields"@
    }
}

/// What follows the composite type of a union: the scalars, and an ellipsis for
/// further composites.
pub open spec fn union_tail(vs: Seq<TypeV>) -> Seq<char> {
    (if scalar_words(vs).len() > 0 {
        " | "@ + joined(scalar_words(vs), " | "@)
    } else {
        ""@
    }) + (if composite_count(vs) > 1 {
        " | …"@
    } else {
        ""@
    })
}

/// The outline of a type between `prefix` and `suffix`. `note` stands at the end
/// of the first line.
pub open spec fn outline_of(
    ty: TypeV,
    indent: int,
    prefix: Seq<char>,
    suffix: Seq<char>,
    note: Seq<char>,
) -> OutlineV
    decreases ty,
{
    match ty {
        TypeV::Array(el) => outline_of(*el, indent, prefix, "[]"@ + suffix, note),
        TypeV::Dict(key, v) => outline_of(
            *v,
            indent,
            prefix + "Record<"@ + (if key is Str {
                "string"@
            } else {
                "number"@
            }) + ", "@,
            ">"@ + suffix,
            note,
        ),
        TypeV::Object(fs) => if fs.len() == 0 {
            leaf_outline(pad(indent) + prefix + "{}"@ + suffix + note, indent)
        } else {
            block_outline(
                Seq::new(
                    fs.len(),
                    |i: int|
                        if 0 <= i < fs.len() {
                            outline_of(
                                fs[i].ty,
                                indent + 1,
                                field_prefix(fs[i]),
                                ""@,
                                field_note(fs[i]),
                            )
                        } else {
                            arbitrary()
                        },
                ),
                indent,
                prefix,
                suffix,
                note,
            )
        },
        TypeV::Union(vs) => {
            let i = first_composite(vs, 0);
            if 0 <= i < vs.len() {
                outline_of(vs[i], indent, prefix, union_tail(vs) + suffix, note)
            } else {
                leaf_outline(
                    pad(indent) + prefix + joined(scalar_words(vs), " | "@) + suffix + note,
                    indent,
                )
            }
        },
        _ => leaf_outline(pad(indent) + prefix + type_word(ty)->0 + suffix + note, indent),
    }
}

/// A block with the given fields. Folded, the field count stands in for the
/// hidden body, behind the fill comment where there already is one.
pub open spec fn block_outline(
    children: Seq<OutlineV>,
    indent: int,
    prefix: Seq<char>,
    suffix: Seq<char>,
    note: Seq<char>,
) -> OutlineV {
    let count = field_count(children.len() as int);
    let folded_note = if note.len() == 0 {
        "   // "@ + count
    } else {
        note + " · "@ + count
    };
    OutlineV {
        open_text: pad(indent) + prefix + "{"@ + note,
        folded_text: pad(indent) + prefix + "{…}"@ + suffix + folded_note,
        close_text: pad(indent) + "}"@ + suffix,
        depth: indent,
        children,
        open: true,
    }
}

fn make_field_note(f: &Field) -> (r: String)
    ensures
        r@ == field_note(f.model()),
{
    if f.optional() {
        let pct: u64 = (f.present as u128 * 100 / f.total as u128) as u64;
        proof {
            let p = f.present as int;
            let t = f.total as int;
            assert(p * 100 / t <= 100) by (nonlinear_arith)
                requires
                    0 <= p < t,
            ;
        }
        let mut s = "   // ".to_owned();
        s.push_str(decimal_string(pct).as_str());
        s.push_str("%");
        s
    } else {
        let s = String::new();
        assert(s@ =~= Seq::empty());
        s
    }
}

fn make_field_prefix(f: &Field) -> (r: String)
    ensures
        r@ == field_prefix(f.model()),
{
    let mut s = f.name.clone();
    s.push_str(
        if f.optional() {
            "?"
        } else {
            ""
        },
    );
    s.push_str(": ");
    s
}

/// `pad`, `a`, `b`, `c` and `d` one after the other, behind the indent.
fn line(indent: usize, a: &str, b: &str, c: &str, d: &str) -> (r: String)
    ensures
        r@ == pad(indent as int) + a@ + b@ + c@ + d@,
{
    let mut s = make_pad(indent);
    s.push_str(a);
    s.push_str(b);
    s.push_str(c);
    s.push_str(d);
    s
}

fn make_block(
    children: Vec<Outline>,
    indent: usize,
    prefix: &str,
    suffix: &str,
    note: &str,
) -> (r: Outline)
    ensures
        r.model() == block_outline(
            outline_models(children@),
            indent as int,
            prefix@,
            suffix@,
            note@,
        ),
{
    let n: usize = children.len();
    let count = if n == 1 {
        "1 field".to_owned()
    } else {
        let mut s = decimal_string(n as u64);
        s.push_str(" fields");
        s
    };
    let folded_note = if note.unicode_len() == 0 {
        let mut s = "   // ".to_owned();
        s.push_str(count.as_str());
        s
    } else {
        let mut s = note.to_owned();
        s.push_str(" · ");
        s.push_str(count.as_str());
        s
    };
    let mut open_text = make_pad(indent);
    open_text.push_str(prefix);
    open_text.push_str("{");
    open_text.push_str(note);
    let mut close_text = make_pad(indent);
    close_text.push_str("}");
    close_text.push_str(suffix);
    let folded_text = line(indent, prefix, "{…}", suffix, folded_note.as_str());
    let ghost kids = outline_models(children@);
    let r = Outline { open_text, folded_text, close_text, depth: indent, children, open: true };
    assert(r.model().children =~= kids);
    r
}

/// The words of the scalars among the types, how many are composite, and the
/// number of the first composite one.
fn survey(vs: &Vec<Type>) -> (r: (Vec<String>, usize, usize))
    ensures
        ({
            let m = Type::Union(*vs).model()->Union_0;
            &&& texts(r.0@) == scalar_words(m)
            &&& r.1 == composite_count(m)
            &&& r.2 == first_composite(m, 0)
            &&& r.2 <= vs@.len()
            &&& r.1 > 0 <==> r.2 < vs@.len()
        }),
{
    let ghost m = Type::Union(*vs).model()->Union_0;
    let mut words: Vec<String> = Vec::new();
    let mut count: usize = 0;
    let mut first: usize = 0;
    let mut i: usize = 0;
    assert(texts(words@) =~= Seq::empty());
    assert(m.take(0) =~= Seq::empty());
    while i < vs.len()
        invariant
            m == Type::Union(*vs).model()->Union_0,
            i <= vs@.len(),
            texts(words@) == scalar_words(m.take(i as int)),
            count == composite_count(m.take(i as int)),
            count <= i,
            first <= i,
            count > 0 <==> first < i,
            count == 0 ==> first_composite(m, 0) == first_composite(m, i as int),
            count > 0 ==> first_composite(m, 0) == first,
        decreases vs@.len() - i,
    {
        proof {
            assert(m.take(i + 1).drop_last() =~= m.take(i as int));
            assert(m.take(i + 1).last() == m[i as int]);
            assert(m[i as int] == vs@[i as int].model());
        }
        match word(&vs[i]) {
            Some(w) => {
                let ghost before = texts(words@);
                words.push(w.to_owned());
                assert(texts(words@) =~= before.push(w@));
                if count == 0 {
                    first = i + 1;
                }
            },
            None => {
                if count == 0 {
                    first = i;
                }
                count += 1;
            },
        }
        i += 1;
    }
    assert(m.take(m.len() as int) =~= m);
    (words, count, first)
}

/// Build the type's outline. `note` is appended to the first line (used for a
/// field's `// %` fill comment).
fn write_type(ty: &Type, indent: usize, prefix: &str, suffix: &str, note: &str) -> (r: Outline)
    requires
        nested_within(ty.model(), usize::MAX - indent),
    ensures
        r.model() == outline_of(ty.model(), indent as int, prefix@, suffix@, note@),
    decreases ty,
{
    match ty {
        Type::Array(el) => {
            let mut sfx = "[]".to_owned();
            sfx.push_str(suffix);
            write_type(el, indent, prefix, sfx.as_str(), note)
        },
        Type::Dict(key, v) => {
            let mut pfx = prefix.to_owned();
            pfx.push_str("Record<");
            pfx.push_str(
                match key {
                    MapKey::Str => "string",
                    MapKey::Num => "number",
                },
            );
            pfx.push_str(", ");
            let mut sfx = ">".to_owned();
            sfx.push_str(suffix);
            write_type(v, indent, pfx.as_str(), sfx.as_str(), note)
        },
        Type::Object(fields) => {
            if fields.len() == 0 {
                return Outline::leaf(line(indent, prefix, "{}", suffix, note), indent);
            }
            let ghost fs = ty.model()->Object_0;
            let mut children: Vec<Outline> = Vec::new();
            let mut i: usize = 0;
            while i < fields.len()
                invariant
                    *ty == Type::Object(*fields),
                    fs == ty.model()->Object_0,
                    nested_within(ty.model(), usize::MAX - indent),
                    i <= fields@.len(),
                    children@.len() == i,
                    forall|k: int|
                        0 <= k < i ==> (#[trigger] children@[k]).model() == outline_of(
                            fs[k].ty,
                            indent + 1,
                            field_prefix(fs[k]),
                            ""@,
                            field_note(fs[k]),
                        ),
                decreases fields@.len() - i,
            {
                let f = &fields[i];
                assert(fs[i as int] == f.model());
                assert(nested_within(fs[i as int].ty, usize::MAX - indent - 1));
                let note = make_field_note(f);
                let pfx = make_field_prefix(f);
                children.push(write_type(&f.ty, indent + 1, pfx.as_str(), "", note.as_str()));
                i += 1;
            }
            proof {
                let want = outline_of(ty.model(), indent as int, prefix@, suffix@, note@).children;
                assert(outline_models(children@) =~= want);
            }
            make_block(children, indent, prefix, suffix, note)
        },
        Type::Union(vs) => {
            // Scalars inline (`a | b`), a nullable container as `{…} | null`. Falls
            // back to `| …` when several distinct composites collide.
            let ghost m = ty.model()->Union_0;
            let (words, count, first) = survey(vs);
            let all = join_strings(words.as_slice(), " | ");
            if count == 0 {
                return Outline::leaf(
                    line(indent, prefix, all.as_str(), suffix, note),
                    indent,
                );
            }
            let mut tail = if words.len() > 0 {
                let mut s = " | ".to_owned();
                s.push_str(all.as_str());
                s
            } else {
                "".to_owned()
            };
            tail.push_str(
                if count > 1 {
                    " | …"
                } else {
                    ""
                },
            );
            assert(tail@ == union_tail(m));
            tail.push_str(suffix);
            assert(m[first as int] == vs@[first as int].model());
            write_type(&vs[first], indent, prefix, tail.as_str(), note)
        },
        _ => {
            let w = match word(ty) {
                Some(w) => w,
                None => "",
            };
            Outline::leaf(line(indent, prefix, w, suffix, note), indent)
        },
    }
}

/// The type as a foldable outline for the overlay, every block open.
pub fn outline(ty: &Type) -> (out: Vec<Outline>)
    requires
        nested_within(ty.model(), usize::MAX as int),
    ensures
        outline_models(out@) == seq![outline_of(ty.model(), 0, ""@, ""@, ""@)],
{
    let mut out: Vec<Outline> = Vec::new();
    out.push(write_type(ty, 0, "", "", ""));
    assert(outline_models(out@) =~= seq![outline_of(ty.model(), 0, ""@, ""@, ""@)]);
    out
}

// ---------------------------------------------------------------------------
// Lines
// ---------------------------------------------------------------------------
/// The lines of an outline with everything open.
pub open spec fn lines_of(o: OutlineV) -> Seq<Seq<char>>
    decreases o, o.children.len() + 1,
{
    if o.children.len() > 0 {
        seq![o.open_text] + lines_below(o, 0) + seq![o.close_text]
    } else {
        seq![o.open_text]
    }
}

/// The lines of the children from number `i` on.
pub open spec fn lines_below(o: OutlineV, i: int) -> Seq<Seq<char>>
    decreases o, o.children.len() - i,
{
    if 0 <= i < o.children.len() {
        lines_of(o.children[i]) + lines_below(o, i + 1)
    } else {
        Seq::empty()
    }
}

fn push_lines(o: &Outline, out: &mut Vec<String>)
    ensures
        texts(final(out)@) == texts(old(out)@) + lines_of(o.model()),
    decreases o,
{
    let ghost before = texts(out@);
    let ghost m = o.model();
    out.push(o.open_text.clone());
    assert(texts(out@) =~= before + seq![m.open_text]);
    if o.foldable() {
        let ghost first = texts(out@);
        let mut i: usize = 0;
        assert(first + lines_below(m, 0) =~= texts(out@) + lines_below(m, 0));
        while i < o.children.len()
            invariant
                m == o.model(),
                i <= o.children@.len(),
                texts(out@) + lines_below(m, i as int) == first + lines_below(m, 0),
            decreases o.children@.len() - i,
        {
            let ghost so_far = texts(out@);
            push_lines(&o.children[i], out);
            proof {
                let kid = lines_of(m.children[i as int]);
                assert(m.children[i as int] == o.children@[i as int].model());
                assert(so_far + kid + lines_below(m, i + 1) =~= so_far + (kid + lines_below(
                    m,
                    i + 1,
                )));
            }
            i += 1;
        }
        assert(texts(out@) =~= first + lines_below(m, 0));
        let ghost so_far = texts(out@);
        out.push(o.close_text.clone());
        assert(texts(out@) =~= so_far + seq![m.close_text]);
        assert(texts(out@) =~= before + lines_of(m));
    }
}

/// The type as display lines, fully expanded regardless of fold state.
pub fn render(ty: &Type) -> (out: Vec<String>)
    requires
        nested_within(ty.model(), usize::MAX as int),
    ensures
        texts(out@) == lines_of(outline_of(ty.model(), 0, ""@, ""@, ""@)),
{
    let nodes = outline(ty);
    let mut out: Vec<String> = Vec::new();
    proof {
        let o = outline_of(ty.model(), 0, ""@, ""@, ""@);
        assert(outline_models(nodes@)[0] == o);
        assert(nodes@.len() == outline_models(nodes@).len());
        assert(texts(out@) + lines_of(o) =~= lines_of(o));
    }
    push_lines(&nodes[0], &mut out);
    out
}

/// The type as copyable source (what `y` yanks): always the whole type, so a
/// folded overlay still copies everything.
pub fn to_source(ty: &Type) -> (r: String)
    requires
        nested_within(ty.model(), usize::MAX as int),
    ensures
        r@ == joined(lines_of(outline_of(ty.model(), 0, ""@, ""@, ""@)), "\n"@),
{
    join_strings(render(ty).as_slice(), "\n")
}

// ---------------------------------------------------------------------------
// Rows
// ---------------------------------------------------------------------------
/// One visible line of an [`Outline`], as drawn by the overlay.
#[derive(Debug, Clone, PartialEq)]
pub struct Row {
    pub text: String,
    pub depth: usize,
    /// Index path into the outline tree. A block's closing line repeats its
    /// opening line's path, so folding works from either end of the block.
    pub path: Vec<usize>,
    /// True on the opening (or folded) line of a foldable block.
    pub foldable: bool,
    /// Whether that block is currently open.
    pub open: bool,
    /// True on a block's closing line.
    pub close: bool,
}

/// A line as the contracts speak of it.
pub struct LineV {
    pub text: Seq<char>,
    pub depth: int,
    pub path: Seq<usize>,
    pub foldable: bool,
    pub open: bool,
    pub close: bool,
}

impl View for Row {
    type V = LineV;

    open spec fn view(&self) -> LineV {
        LineV {
            text: self.text@,
            depth: self.depth as int,
            path: self.path@,
            foldable: self.foldable,
            open: self.open,
            close: self.close,
        }
    }
}

pub open spec fn line_views(rows: Seq<Row>) -> Seq<LineV> {
    Seq::new(rows.len(), |i: int| rows[i]@)
}

pub open spec fn opening_line(o: OutlineV, path: Seq<usize>) -> LineV {
    let foldable = o.children.len() > 0;
    LineV {
        text: if foldable && !o.open {
            o.folded_text
        } else {
            o.open_text
        },
        depth: o.depth,
        path,
        foldable,
        open: o.open,
        close: false,
    }
}

pub open spec fn closing_line(o: OutlineV, path: Seq<usize>) -> LineV {
    LineV { text: o.close_text, depth: o.depth, path, foldable: false, open: true, close: true }
}

/// The visible lines of an outline. A folded block is one line.
pub open spec fn visible(o: OutlineV, path: Seq<usize>) -> Seq<LineV>
    decreases o, o.children.len() + 1,
{
    if o.children.len() > 0 && o.open {
        seq![opening_line(o, path)] + visible_below(o, path, 0) + seq![closing_line(o, path)]
    } else {
        seq![opening_line(o, path)]
    }
}

/// The visible lines of the children from number `i` on.
pub open spec fn visible_below(o: OutlineV, path: Seq<usize>, i: int) -> Seq<LineV>
    decreases o, o.children.len() - i,
{
    if 0 <= i < o.children.len() {
        visible(o.children[i], path.push(i as usize)) + visible_below(o, path, i + 1)
    } else {
        Seq::empty()
    }
}

/// The visible lines of the outlines from number `i` on.
pub open spec fn visible_all(nodes: Seq<OutlineV>, i: int) -> Seq<LineV>
    decreases nodes.len() - i,
{
    if 0 <= i < nodes.len() {
        visible(nodes[i], seq![i as usize]) + visible_all(nodes, i + 1)
    } else {
        Seq::empty()
    }
}

fn walk(o: &Outline, path: &mut Vec<usize>, out: &mut Vec<Row>)
    ensures
        final(path)@ == old(path)@,
        line_views(final(out)@) == line_views(old(out)@) + visible(o.model(), old(path)@),
    decreases o,
{
    let ghost before = line_views(out@);
    let ghost m = o.model();
    let ghost path0 = path@;
    let foldable = o.foldable();
    out.push(
        Row {
            text: if foldable && !o.open {
                o.folded_text.clone()
            } else {
                o.open_text.clone()
            },
            depth: o.depth,
            path: path.clone(),
            foldable,
            open: o.open,
            close: false,
        },
    );
    assert(line_views(out@) =~= before + seq![opening_line(m, path0)]);
    if foldable && o.open {
        let ghost first = line_views(out@);
        let mut i: usize = 0;
        while i < o.children.len()
            invariant
                m == o.model(),
                path@ == path0,
                i <= o.children@.len(),
                line_views(out@) + visible_below(m, path0, i as int) == first + visible_below(
                    m,
                    path0,
                    0,
                ),
            decreases o.children@.len() - i,
        {
            let ghost so_far = line_views(out@);
            path.push(i);
            walk(&o.children[i], path, out);
            path.pop();
            proof {
                assert(path@ =~= path0);
                let kid = visible(m.children[i as int], path0.push(i));
                assert(m.children[i as int] == o.children@[i as int].model());
                assert(so_far + kid + visible_below(m, path0, i + 1) =~= so_far + (kid
                    + visible_below(m, path0, i + 1)));
            }
            i += 1;
        }
        assert(line_views(out@) =~= first + visible_below(m, path0, 0));
        let ghost so_far = line_views(out@);
        out.push(
            Row {
                text: o.close_text.clone(),
                depth: o.depth,
                path: path.clone(),
                foldable: false,
                open: true,
                close: true,
            },
        );
        assert(line_views(out@) =~= so_far + seq![closing_line(m, path0)]);
        assert(line_views(out@) =~= before + visible(m, path0));
    }
}

/// The outline's currently visible lines, top to bottom.
pub fn rows(nodes: &[Outline]) -> (out: Vec<Row>)
    ensures
        line_views(out@) == visible_all(outline_models(nodes@), 0),
{
    let ghost m = outline_models(nodes@);
    let mut out: Vec<Row> = Vec::new();
    let mut i: usize = 0;
    assert(line_views(out@) + visible_all(m, 0) =~= visible_all(m, 0));
    while i < nodes.len()
        invariant
            m == outline_models(nodes@),
            i <= nodes@.len(),
            line_views(out@) + visible_all(m, i as int) == visible_all(m, 0),
        decreases nodes@.len() - i,
    {
        let ghost so_far = line_views(out@);
        let mut path: Vec<usize> = Vec::new();
        path.push(i);
        assert(path@ =~= seq![i]);
        walk(&nodes[i], &mut path, &mut out);
        proof {
            let kid = visible(m[i as int], seq![i]);
            assert(so_far + kid + visible_all(m, i + 1) =~= so_far + (kid + visible_all(m, i + 1)));
        }
        i += 1;
    }
    assert(line_views(out@) =~= visible_all(m, 0));
    out
}

// ---------------------------------------------------------------------------
// Folding
// ---------------------------------------------------------------------------
/// Whether `path` leads to a node.
pub open spec fn leads(nodes: Seq<OutlineV>, path: Seq<usize>) -> bool
    decreases path.len(),
{
    path.len() > 0 && path[0] < nodes.len() && (path.len() == 1 || leads(
        nodes[path[0] as int].children,
        path.skip(1),
    ))
}

/// The node that `path` leads to.
pub open spec fn outline_at(nodes: Seq<OutlineV>, path: Seq<usize>) -> OutlineV
    decreases path.len(),
{
    if path.len() <= 1 {
        nodes[path[0] as int]
    } else {
        outline_at(nodes[path[0] as int].children, path.skip(1))
    }
}

/// The nodes with `o` in the place that `path` leads to.
pub open spec fn outline_grafted(
    nodes: Seq<OutlineV>,
    path: Seq<usize>,
    o: OutlineV,
) -> Seq<OutlineV>
    decreases path.len(),
{
    let i = path[0] as int;
    if path.len() <= 1 {
        nodes.update(i, o)
    } else {
        nodes.update(
            i,
            OutlineV {
                children: outline_grafted(nodes[i].children, path.skip(1), o),
                ..nodes[i]
            },
        )
    }
}

fn outline_mut<'a>(nodes: &'a mut Vec<Outline>, i: usize) -> (r: &'a mut Outline)
    requires
        i < old(nodes)@.len(),
    ensures
        r.model() == outline_models(old(nodes)@)[i as int],
        outline_models(final(nodes)@) =~= outline_models(old(nodes)@).update(
            i as int,
            final(r).model(),
        ),
{
    &mut nodes[i]
}

fn children_mut<'a>(o: &'a mut Outline) -> (r: &'a mut Vec<Outline>)
    ensures
        outline_models(r@) =~= old(o).model().children,
        final(o).model().children =~= outline_models(final(r)@),
        final(o).model() == (OutlineV { children: final(o).model().children, ..old(o).model() }),
{
    &mut o.children
}

/// The node a [`Row::path`] points at.
pub fn node_mut<'a>(nodes: &'a mut Vec<Outline>, path: &[usize]) -> (r: Option<&'a mut Outline>)
    ensures
        match r {
            Some(o) => {
                &&& leads(outline_models(old(nodes)@), path@)
                &&& o.model() == outline_at(outline_models(old(nodes)@), path@)
                &&& outline_models(final(nodes)@) == outline_grafted(
                    outline_models(old(nodes)@),
                    path@,
                    final(o).model(),
                )
            },
            None => {
                &&& !leads(outline_models(old(nodes)@), path@)
                &&& outline_models(final(nodes)@) == outline_models(old(nodes)@)
            },
        },
    decreases path@.len(),
{
    if path.len() == 0 || path[0] >= nodes.len() {
        return None;
    }
    let i: usize = path[0];
    if path.len() == 1 {
        Some(outline_mut(nodes, i))
    } else {
        let rest: &[usize] = vstd::slice::slice_subrange(path, 1, path.len());
        assert(rest@ =~= path@.skip(1));
        node_mut(children_mut(outline_mut(nodes, i)), rest)
    }
}

/// An outline with every block open or folded, but for the outermost.
pub open spec fn opened_to(o: OutlineV, open: bool) -> OutlineV
    decreases o,
{
    OutlineV {
        open: open || o.depth == 0,
        children: Seq::new(
            o.children.len(),
            |i: int|
                if 0 <= i < o.children.len() {
                    opened_to(o.children[i], open)
                } else {
                    arbitrary()
                },
        ),
        ..o
    }
}

pub open spec fn all_opened_to(nodes: Seq<OutlineV>, open: bool) -> Seq<OutlineV> {
    Seq::new(nodes.len(), |i: int| opened_to(nodes[i], open))
}

fn set_open(o: &mut Outline, open: bool)
    ensures
        final(o).model() == opened_to(old(o).model(), open),
    decreases old(o).model(),
{
    let ghost m = o.model();
    o.open = open || o.depth == 0;
    let n: usize = o.children.len();
    let mut i: usize = 0;
    while i < n
        invariant
            m == old(o).model(),
            i <= n,
            n == o.children@.len(),
            n == m.children.len(),
            o.open == (open || m.depth == 0),
            o.open_text@ == m.open_text,
            o.folded_text@ == m.folded_text,
            o.close_text@ == m.close_text,
            o.depth == m.depth,
            forall|k: int| 0 <= k < i ==> (#[trigger] o.children@[k]).model() == opened_to(
                m.children[k],
                open,
            ),
            forall|k: int| i <= k < n ==> (#[trigger] o.children@[k]).model() == m.children[k],
        decreases n - i,
    {
        set_open(&mut o.children[i], open);
        i += 1;
    }
    assert(o.model().children =~= opened_to(m, open).children);
}

/// Open or fold every block. Folding leaves the outermost block open: a lone
/// `{…}` would say nothing about the type.
pub fn set_all_open(nodes: &mut Vec<Outline>, open: bool)
    ensures
        outline_models(final(nodes)@) == all_opened_to(outline_models(old(nodes)@), open),
{
    let ghost m = outline_models(nodes@);
    let n: usize = nodes.len();
    let mut i: usize = 0;
    while i < n
        invariant
            m == outline_models(old(nodes)@),
            i <= n,
            n == nodes@.len(),
            n == m.len(),
            forall|k: int| 0 <= k < i ==> (#[trigger] nodes@[k]).model() == opened_to(m[k], open),
            forall|k: int| i <= k < n ==> (#[trigger] nodes@[k]).model() == m[k],
        decreases n - i,
    {
        set_open(&mut nodes[i], open);
        i += 1;
    }
    assert(outline_models(nodes@) =~= all_opened_to(m, open));
}

// ---------------------------------------------------------------------------
// Laws
// ---------------------------------------------------------------------------
/// Every block in an outline is open.
pub open spec fn all_open(o: OutlineV) -> bool
    decreases o,
{
    o.open && forall|i: int| 0 <= i < o.children.len() ==> all_open(#[trigger] o.children[i])
}

pub open spec fn line_texts(lines: Seq<LineV>) -> Seq<Seq<char>> {
    Seq::new(lines.len(), |i: int| lines[i].text)
}

proof fn lemma_line_texts_add(a: Seq<LineV>, b: Seq<LineV>)
    ensures
        line_texts(a + b) == line_texts(a) + line_texts(b),
{
    assert(line_texts(a + b) =~= line_texts(a) + line_texts(b));
}

/// With everything open, the overlay shows exactly the lines of the type.
pub proof fn law_open_outline_shows_all_lines(o: OutlineV, path: Seq<usize>)
    requires
        all_open(o),
    ensures
        line_texts(visible(o, path)) == lines_of(o),
    decreases o, o.children.len() + 1,
{
    if o.children.len() > 0 {
        lemma_open_children_show_all_lines(o, path, 0);
        let first = seq![opening_line(o, path)];
        let last = seq![closing_line(o, path)];
        lemma_line_texts_add(first, visible_below(o, path, 0));
        lemma_line_texts_add(first + visible_below(o, path, 0), last);
        assert(line_texts(first) =~= seq![o.open_text]);
        assert(line_texts(last) =~= seq![o.close_text]);
    } else {
        assert(line_texts(visible(o, path)) =~= lines_of(o));
    }
}

proof fn lemma_open_children_show_all_lines(o: OutlineV, path: Seq<usize>, i: int)
    requires
        all_open(o),
        0 <= i,
    ensures
        line_texts(visible_below(o, path, i)) == lines_below(o, i),
    decreases o, o.children.len() - i,
{
    if i < o.children.len() {
        law_open_outline_shows_all_lines(o.children[i], path.push(i as usize));
        lemma_open_children_show_all_lines(o, path, i + 1);
        lemma_line_texts_add(
            visible(o.children[i], path.push(i as usize)),
            visible_below(o, path, i + 1),
        );
    } else {
        assert(line_texts(visible_below(o, path, i)) =~= lines_below(o, i));
    }
}

/// A type's outline starts with everything open.
pub proof fn law_outline_starts_open(
    ty: TypeV,
    indent: int,
    prefix: Seq<char>,
    suffix: Seq<char>,
    note: Seq<char>,
)
    ensures
        all_open(outline_of(ty, indent, prefix, suffix, note)),
    decreases ty,
{
    let o = outline_of(ty, indent, prefix, suffix, note);
    match ty {
        TypeV::Array(el) => law_outline_starts_open(*el, indent, prefix, "[]"@ + suffix, note),
        TypeV::Dict(key, v) => law_outline_starts_open(
            *v,
            indent,
            prefix + "Record<"@ + (if key is Str {
                "string"@
            } else {
                "number"@
            }) + ", "@,
            ">"@ + suffix,
            note,
        ),
        TypeV::Object(fs) => {
            assert forall|i: int| 0 <= i < o.children.len() implies all_open(
                #[trigger] o.children[i],
            ) by {
                law_outline_starts_open(
                    fs[i].ty,
                    indent + 1,
                    field_prefix(fs[i]),
                    ""@,
                    field_note(fs[i]),
                );
            }
        },
        TypeV::Union(vs) => {
            let i = first_composite(vs, 0);
            if 0 <= i < vs.len() {
                law_outline_starts_open(vs[i], indent, prefix, union_tail(vs) + suffix, note);
            }
        },
        _ => {},
    }
}

/// Opening every block, after whatever folding, brings every line back: the
/// lines do not depend on what is folded, and all of them are shown.
pub proof fn law_expand_all_restores_all_lines(o: OutlineV)
    ensures
        all_open(opened_to(o, true)),
        lines_of(opened_to(o, true)) == lines_of(o),
    decreases o, o.children.len() + 1,
{
    let p = opened_to(o, true);
    assert forall|i: int| 0 <= i < p.children.len() implies all_open(
        #[trigger] p.children[i],
    ) by {
        law_expand_all_restores_all_lines(o.children[i]);
    }
    lemma_same_lines_below(o, 0);
}

proof fn lemma_same_lines_below(o: OutlineV, i: int)
    requires
        0 <= i,
    ensures
        lines_below(opened_to(o, true), i) == lines_below(o, i),
    decreases o, o.children.len() - i,
{
    if i < o.children.len() {
        law_expand_all_restores_all_lines(o.children[i]);
        lemma_same_lines_below(o, i + 1);
    }
}

/// A folded block is a single line that keeps the block's prefix and suffix.
pub proof fn law_folded_block_is_one_line(o: OutlineV, path: Seq<usize>)
    requires
        !o.open,
        o.children.len() > 0,
    ensures
        visible(o, path).len() == 1,
        visible(o, path)[0].text == o.folded_text,
        visible(o, path)[0].path == path,
        visible(o, path)[0].foldable,
        !visible(o, path)[0].open,
{
}

/// The closing line of an open block carries the path of its opening line.
pub proof fn law_closing_line_closes_its_block(o: OutlineV, path: Seq<usize>)
    requires
        o.open,
        o.children.len() > 0,
    ensures
        visible(o, path).last().close,
        visible(o, path).last().path == visible(o, path)[0].path,
        visible(o, path).last().text == o.close_text,
{
}

/// Whether the outline is that of a whole type, with its fields one level in.
pub open spec fn outermost(o: OutlineV) -> bool {
    o.depth == 0 && forall|k: int|
        0 <= k < o.children.len() ==> (#[trigger] o.children[k]).depth == 1
}

/// An outline is as deep in as it was asked for, and its fields one level more.
proof fn lemma_outline_depth(
    ty: TypeV,
    indent: int,
    prefix: Seq<char>,
    suffix: Seq<char>,
    note: Seq<char>,
)
    ensures
        outline_of(ty, indent, prefix, suffix, note).depth == indent,
        forall|k: int|
            0 <= k < outline_of(ty, indent, prefix, suffix, note).children.len() ==> (
            #[trigger] outline_of(ty, indent, prefix, suffix, note).children[k]).depth == indent
                + 1,
    decreases ty,
{
    let o = outline_of(ty, indent, prefix, suffix, note);
    match ty {
        TypeV::Array(el) => lemma_outline_depth(*el, indent, prefix, "[]"@ + suffix, note),
        TypeV::Dict(key, v) => lemma_outline_depth(
            *v,
            indent,
            prefix + "Record<"@ + (if key is Str {
                "string"@
            } else {
                "number"@
            }) + ", "@,
            ">"@ + suffix,
            note,
        ),
        TypeV::Object(fs) => {
            assert forall|k: int| 0 <= k < o.children.len() implies (
            #[trigger] o.children[k]).depth == indent + 1 by {
                lemma_outline_depth(
                    fs[k].ty,
                    indent + 1,
                    field_prefix(fs[k]),
                    ""@,
                    field_note(fs[k]),
                );
            }
        },
        TypeV::Union(vs) => {
            let i = first_composite(vs, 0);
            if 0 <= i < vs.len() {
                lemma_outline_depth(vs[i], indent, prefix, union_tail(vs) + suffix, note);
            }
        },
        _ => {},
    }
}

/// Folding everything leaves the first level and nothing below it: the opening line of the
/// type, one line for each of its fields, and its closing line.
pub proof fn law_folding_all_leaves_the_first_level(o: OutlineV, path: Seq<usize>)
    requires
        outermost(o),
    ensures
        ({
            let f = opened_to(o, false);
            let lines = visible(f, path);
            &&& o.children.len() == 0 ==> lines == seq![opening_line(f, path)]
            &&& o.children.len() > 0 ==> {
                &&& lines.len() == o.children.len() + 2
                &&& lines[0] == opening_line(f, path)
                &&& forall|k: int|
                    0 <= k < o.children.len() ==> #[trigger] lines[k + 1] == opening_line(
                        f.children[k],
                        path.push(k as usize),
                    ) && lines[k + 1].depth == 1
                &&& lines.last() == closing_line(f, path)
            }
        }),
{
    let f = opened_to(o, false);
    if o.children.len() > 0 {
        lemma_folded_fields(o, path, 0);
        let below = visible_below(f, path, 0);
        let lines = visible(f, path);
        assert forall|k: int| 0 <= k < o.children.len() implies #[trigger] lines[k + 1]
            == opening_line(f.children[k], path.push(k as usize)) && lines[k + 1].depth == 1 by {
            assert(lines[k + 1] == below[k]);
        }
    }
}

proof fn lemma_folded_fields(o: OutlineV, path: Seq<usize>, i: int)
    requires
        outermost(o),
        0 <= i <= o.children.len(),
    ensures
        ({
            let f = opened_to(o, false);
            let lines = visible_below(f, path, i);
            &&& lines.len() == o.children.len() - i
            &&& forall|k: int|
                0 <= k < lines.len() ==> #[trigger] lines[k] == opening_line(
                    f.children[i + k],
                    path.push((i + k) as usize),
                ) && lines[k].depth == 1
        }),
    decreases o.children.len() - i,
{
    let f = opened_to(o, false);
    if i < o.children.len() {
        lemma_folded_fields(o, path, i + 1);
        assert(f.children[i] == opened_to(o.children[i], false));
        let rest = visible_below(f, path, i + 1);
        let lines = visible_below(f, path, i);
        assert(visible(f.children[i], path.push(i as usize)) =~= seq![
            opening_line(f.children[i], path.push(i as usize)),
        ]);
        assert forall|k: int| 0 <= k < lines.len() implies #[trigger] lines[k] == opening_line(
            f.children[i + k],
            path.push((i + k) as usize),
        ) && lines[k].depth == 1 by {
            if k > 0 {
                assert(lines[k] == rest[k - 1]);
            }
        }
    }
}

/// The outline of a type has its fields one level in.
pub proof fn law_type_outline_is_outermost(ty: TypeV)
    ensures
        outermost(outline_of(ty, 0, ""@, ""@, ""@)),
{
    lemma_outline_depth(ty, 0, ""@, ""@, ""@);
}

// ---------------------------------------------------------------------------
// How types are written
// ---------------------------------------------------------------------------
/// The texts with a bar between them.
pub open spec fn barred(ts: Seq<Seq<char>>) -> Seq<char>
    decreases ts.len(),
{
    if ts.len() == 0 {
        Seq::empty()
    } else if ts.len() == 1 {
        ts[0]
    } else {
        barred(ts.drop_last()) + seq![' ', '|', ' '] + ts.last()
    }
}

/// The word for a scalar type.
pub open spec fn scalar_word(ty: TypeV) -> Option<Seq<char>> {
    match ty {
        TypeV::Any => Some(seq!['a', 'n', 'y']),
        TypeV::Str => Some(seq!['s', 't', 'r', 'i', 'n', 'g']),
        TypeV::Num => Some(seq!['n', 'u', 'm', 'b', 'e', 'r']),
        TypeV::Bool => Some(seq!['b', 'o', 'o', 'l', 'e', 'a', 'n']),
        TypeV::Null => Some(seq!['n', 'u', 'l', 'l']),
        _ => None,
    }
}

/// What a type is on one line, where it has no fields: a word for a scalar, the words of a
/// union of scalars with bars between them, the element type and brackets for an array, and
/// `Record` with its two types for a map.
pub open spec fn on_one_line(ty: TypeV) -> Option<Seq<char>>
    decreases ty,
{
    match ty {
        TypeV::Array(el) => match on_one_line(*el) {
            Some(t) => Some(t + seq!['[', ']']),
            None => None,
        },
        TypeV::Dict(key, el) => match on_one_line(*el) {
            Some(t) => Some(
                seq!['R', 'e', 'c', 'o', 'r', 'd', '<'] + (if key == MapKey::Str {
                    seq!['s', 't', 'r', 'i', 'n', 'g']
                } else {
                    seq!['n', 'u', 'm', 'b', 'e', 'r']
                }) + seq![',', ' '] + t + seq!['>'],
            ),
            None => None,
        },
        TypeV::Object(fs) => if fs.len() == 0 {
            Some(seq!['{', '}'])
        } else {
            None
        },
        TypeV::Union(vs) => if vs.len() > 0 && forall|i: int|
            0 <= i < vs.len() ==> scalar_word(#[trigger] vs[i]) is Some {
            Some(barred(Seq::new(vs.len(), |i: int| scalar_word(vs[i])->0)))
        } else {
            None
        },
        _ => scalar_word(ty),
    }
}

proof fn lemma_scalar_word(ty: TypeV)
    ensures
        type_word(ty) == scalar_word(ty),
{
    reveal_strlit("any");
    reveal_strlit("string");
    reveal_strlit("number");
    reveal_strlit("boolean");
    reveal_strlit("null");
    assert("any"@ =~= seq!['a', 'n', 'y']);
    assert("string"@ =~= seq!['s', 't', 'r', 'i', 'n', 'g']);
    assert("number"@ =~= seq!['n', 'u', 'm', 'b', 'e', 'r']);
    assert("boolean"@ =~= seq!['b', 'o', 'o', 'l', 'e', 'a', 'n']);
    assert("null"@ =~= seq!['n', 'u', 'l', 'l']);
}

proof fn lemma_barred(ts: Seq<Seq<char>>)
    ensures
        joined(ts, " | "@) == barred(ts),
    decreases ts.len(),
{
    reveal_strlit(" | ");
    assert(" | "@ =~= seq![' ', '|', ' ']);
    if ts.len() > 1 {
        lemma_barred(ts.drop_last());
    }
}

proof fn lemma_scalar_words(vs: Seq<TypeV>)
    requires
        forall|i: int| 0 <= i < vs.len() ==> scalar_word(#[trigger] vs[i]) is Some,
    ensures
        scalar_words(vs) == Seq::new(vs.len(), |i: int| scalar_word(vs[i])->0),
    decreases vs.len(),
{
    let all = Seq::new(vs.len(), |i: int| scalar_word(vs[i])->0);
    if vs.len() > 0 {
        let most = vs.drop_last();
        assert forall|i: int| 0 <= i < most.len() implies scalar_word(
            #[trigger] most[i],
        ) is Some by {
            assert(most[i] == vs[i]);
        }
        lemma_scalar_words(most);
        lemma_scalar_word(vs.last());
        assert(scalar_word(vs[vs.len() - 1]) is Some);
        assert(scalar_words(vs) =~= all);
    } else {
        assert(scalar_words(vs) =~= all);
    }
}

proof fn lemma_no_composite(vs: Seq<TypeV>, i: int)
    requires
        0 <= i <= vs.len(),
        forall|k: int| 0 <= k < vs.len() ==> scalar_word(#[trigger] vs[k]) is Some,
    ensures
        first_composite(vs, i) == vs.len(),
    decreases vs.len() - i,
{
    if i < vs.len() {
        lemma_scalar_word(vs[i]);
        assert(scalar_word(vs[i]) is Some);
        lemma_no_composite(vs, i + 1);
    }
}

/// A type without fields is one line, with what stands before it, behind it and at the end
/// of the line around it.
pub proof fn law_types_on_one_line(
    ty: TypeV,
    indent: int,
    prefix: Seq<char>,
    suffix: Seq<char>,
    note: Seq<char>,
)
    requires
        on_one_line(ty) is Some,
    ensures
        outline_of(ty, indent, prefix, suffix, note) == leaf_outline(
            pad(indent) + prefix + on_one_line(ty)->0 + suffix + note,
            indent,
        ),
    decreases ty,
{
    reveal_strlit("[]");
    reveal_strlit("Record<");
    reveal_strlit("string");
    reveal_strlit("number");
    reveal_strlit(", ");
    reveal_strlit(">");
    reveal_strlit("{}");
    assert("[]"@ =~= seq!['[', ']']);
    assert("Record<"@ =~= seq!['R', 'e', 'c', 'o', 'r', 'd', '<']);
    assert("string"@ =~= seq!['s', 't', 'r', 'i', 'n', 'g']);
    assert("number"@ =~= seq!['n', 'u', 'm', 'b', 'e', 'r']);
    assert(", "@ =~= seq![',', ' ']);
    assert(">"@ =~= seq!['>']);
    assert("{}"@ =~= seq!['{', '}']);
    let line = pad(indent) + prefix + on_one_line(ty)->0 + suffix + note;
    match ty {
        TypeV::Array(el) => {
            law_types_on_one_line(*el, indent, prefix, "[]"@ + suffix, note);
            assert(pad(indent) + prefix + on_one_line(*el)->0 + ("[]"@ + suffix) + note =~= line);
        },
        TypeV::Dict(key, el) => {
            let k = if key is Str {
                "string"@
            } else {
                "number"@
            };
            let before = prefix + "Record<"@ + k + ", "@;
            law_types_on_one_line(*el, indent, before, ">"@ + suffix, note);
            assert(pad(indent) + before + on_one_line(*el)->0 + (">"@ + suffix) + note =~= line);
        },
        TypeV::Union(vs) => {
            lemma_no_composite(vs, 0);
            lemma_scalar_words(vs);
            lemma_barred(scalar_words(vs));
        },
        TypeV::Object(fs) => {},
        _ => {
            lemma_scalar_word(ty);
        },
    }
}

/// An object is a block: an opening brace, one block or line for each field, in their order
/// and one level deeper, and a closing brace. A field is its name, a question mark where some
/// records lack it, a colon and its type, and the share of the records that have it where
/// some lack it.
pub proof fn law_objects_are_blocks(
    fs: Seq<FieldV>,
    indent: int,
    prefix: Seq<char>,
    suffix: Seq<char>,
    note: Seq<char>,
    i: int,
)
    requires
        0 <= i < fs.len(),
    ensures
        ({
            let o = outline_of(TypeV::Object(fs), indent, prefix, suffix, note);
            let f = fs[i];
            &&& o.open_text == pad(indent) + prefix + seq!['{'] + note
            &&& o.close_text == pad(indent) + seq!['}'] + suffix
            &&& o.children.len() == fs.len()
            &&& o.open && o.depth == indent
            &&& f.present >= f.total ==> o.children[i] == outline_of(
                f.ty,
                indent + 1,
                f.name + seq![':', ' '],
                Seq::empty(),
                Seq::empty(),
            )
            &&& f.present < f.total ==> o.children[i] == outline_of(
                f.ty,
                indent + 1,
                f.name + seq!['?', ':', ' '],
                Seq::empty(),
                seq![' ', ' ', ' ', '/', '/', ' '] + decimal((f.present * 100 / f.total) as nat)
                    + seq!['%'],
            )
        }),
        pad(indent).len() == (if indent > 0 {
            2 * indent
        } else {
            pad(indent).len() as int
        }),
        forall|k: int| 0 <= k < pad(indent).len() ==> #[trigger] pad(indent)[k] == ' ',
{
    reveal_strlit("{");
    reveal_strlit("}");
    reveal_strlit("?");
    reveal_strlit("");
    reveal_strlit(": ");
    reveal_strlit("   // ");
    reveal_strlit("%");
    assert("{"@ =~= seq!['{']);
    assert("}"@ =~= seq!['}']);
    assert("?"@ =~= seq!['?']);
    assert(""@ =~= Seq::empty());
    assert(": "@ =~= seq![':', ' ']);
    assert("   // "@ =~= seq![' ', ' ', ' ', '/', '/', ' ']);
    assert("%"@ =~= seq!['%']);
    let f = fs[i];
    if f.present < f.total {
        assert(field_prefix(f) =~= f.name + seq!['?', ':', ' ']);
    } else {
        assert(field_prefix(f) =~= f.name + seq![':', ' ']);
    }
}

/// A folded block says how many fields it hides, behind what already stands at the end of its
/// line.
pub proof fn law_folded_blocks_say_how_much_they_hide(
    fs: Seq<FieldV>,
    indent: int,
    prefix: Seq<char>,
    suffix: Seq<char>,
    note: Seq<char>,
)
    requires
        fs.len() > 0,
    ensures
        ({
            let o = outline_of(TypeV::Object(fs), indent, prefix, suffix, note);
            let line = pad(indent) + prefix + seq!['{', '…', '}'] + suffix;
            let before = if note.len() == 0 {
                seq![' ', ' ', ' ', '/', '/', ' ']
            } else {
                note + seq![' ', '·', ' ']
            };
            let many = if fs.len() == 1 {
                "1 field"@
            } else {
                decimal(fs.len()) + " fields"@
            };
            o.folded_text == line + (before + many)
        }),
{
    reveal_strlit("{…}");
    reveal_strlit("   // ");
    reveal_strlit(" · ");
    assert("{…}"@ =~= seq!['{', '…', '}']);
    assert("   // "@ =~= seq![' ', ' ', ' ', '/', '/', ' ']);
    assert(" · "@ =~= seq![' ', '·', ' ']);
}

/// A union of scalars and one composite type is that type, with the words of the scalars
/// behind it.
pub proof fn law_a_union_shows_its_composite(
    vs: Seq<TypeV>,
    k: int,
    indent: int,
    prefix: Seq<char>,
    suffix: Seq<char>,
    note: Seq<char>,
)
    requires
        0 <= k < vs.len(),
        scalar_word(vs[k]) is None,
        forall|i: int| 0 <= i < vs.len() && i != k ==> scalar_word(#[trigger] vs[i]) is Some,
    ensures
        ({
            let others = vs.remove(k);
            let words = Seq::new(others.len(), |i: int| scalar_word(others[i])->0);
            let tail = if vs.len() > 1 {
                seq![' ', '|', ' '] + barred(words)
            } else {
                Seq::empty()
            };
            outline_of(TypeV::Union(vs), indent, prefix, suffix, note) == outline_of(
                vs[k],
                indent,
                prefix,
                tail + suffix,
                note,
            )
        }),
{
    reveal_strlit(" | ");
    reveal_strlit("");
    assert(" | "@ =~= seq![' ', '|', ' ']);
    let others = vs.remove(k);
    let words = Seq::new(others.len(), |i: int| scalar_word(others[i])->0);
    lemma_first_composite(vs, k, 0);
    lemma_one_composite(vs, k);
    assert forall|i: int| 0 <= i < others.len() implies scalar_word(#[trigger] others[i]) is Some by {
        if i < k {
            assert(others[i] == vs[i]);
        } else {
            assert(others[i] == vs[i + 1]);
        }
    }
    lemma_scalar_words(others);
    lemma_barred(words);
    let tail = if vs.len() > 1 {
        seq![' ', '|', ' '] + barred(words)
    } else {
        Seq::empty()
    };
    assert(union_tail(vs) =~= tail);
}

proof fn lemma_first_composite(vs: Seq<TypeV>, k: int, i: int)
    requires
        0 <= i <= k < vs.len(),
        scalar_word(vs[k]) is None,
        forall|j: int| 0 <= j < k ==> scalar_word(#[trigger] vs[j]) is Some,
    ensures
        first_composite(vs, i) == k,
    decreases k - i,
{
    lemma_scalar_word(vs[i]);
    if i < k {
        lemma_first_composite(vs, k, i + 1);
    }
}

proof fn lemma_one_composite(vs: Seq<TypeV>, k: int)
    requires
        0 <= k < vs.len(),
        scalar_word(vs[k]) is None,
        forall|i: int| 0 <= i < vs.len() && i != k ==> scalar_word(#[trigger] vs[i]) is Some,
    ensures
        composite_count(vs) == 1,
        scalar_words(vs) == scalar_words(vs.remove(k)),
    decreases vs.len(),
{
    let most = vs.drop_last();
    lemma_scalar_word(vs.last());
    if k == vs.len() - 1 {
        assert(vs.remove(k) =~= most);
        lemma_no_composites(most);
    } else {
        assert forall|i: int| 0 <= i < most.len() && i != k implies scalar_word(
            #[trigger] most[i],
        ) is Some by {
            assert(most[i] == vs[i]);
        }
        lemma_one_composite(most, k);
        assert(vs.remove(k).drop_last() =~= most.remove(k));
        assert(vs.remove(k).last() == vs.last());
    }
}

proof fn lemma_no_composites(vs: Seq<TypeV>)
    requires
        forall|i: int| 0 <= i < vs.len() ==> scalar_word(#[trigger] vs[i]) is Some,
    ensures
        composite_count(vs) == 0,
    decreases vs.len(),
{
    if vs.len() > 0 {
        lemma_scalar_word(vs.last());
        lemma_no_composites(vs.drop_last());
    }
}

} // verus!
