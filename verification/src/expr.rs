//! Type expressions as values: the primitive kinds, the shapes built on
//! them, how each is written, and that what is written is read back.

use crate::grammar::{
    is_name_char, is_piece, is_primitive, lemma_has_at_chars, lemma_name_end,
    lemma_primitive_first, lemma_word_end, range_is, range_is_primitive, span_at, Shape, Span,
};
use crate::text::{chars_of, has_at, is_space_char, is_word, is_word_char};
use crate::validate::{
    lemma_union_resolves_through_piece, resolution, stands_as_alternative, Malformed, Registry,
};
use vstd::prelude::*;
use vstd::string::*;

verus! {

/// The seven primitive kinds.
#[derive(Clone, Copy, Debug, PartialEq, Eq, Structural)]
pub enum Primitive {
    Null,
    String,
    Integer,
    Float,
    Boolean,
    Snowflake,
    Timestamp,
}

/// A type expression that is no union.
#[derive(Clone, Debug, PartialEq, Eq)]
pub enum Leaf {
    /// A primitive kind.
    Primitive(Primitive),
    /// A bare name, meant to be declared.
    Named(String),
    /// `enum[name; base]`.
    Enum { name: String, base: Primitive },
    /// `array[element]`.
    Array { element: String },
}

/// A type expression: one without alternatives, or the union of some.
#[derive(Clone, Debug, PartialEq, Eq)]
pub enum TypeExpr {
    Leaf(Leaf),
    Union(Vec<Leaf>),
}

/// What a [`Leaf`] holds.
pub enum LeafModel {
    Primitive(Primitive),
    Named(Seq<char>),
    Enum { name: Seq<char>, base: Primitive },
    Array { element: Seq<char> },
}

/// What a [`TypeExpr`] holds.
pub enum TypeExprModel {
    Leaf(LeafModel),
    Union(Seq<LeafModel>),
}

impl View for Leaf {
    type V = LeafModel;

    open spec fn view(&self) -> LeafModel {
        match self {
            Leaf::Primitive(k) => LeafModel::Primitive(*k),
            Leaf::Named(n) => LeafModel::Named(n@),
            Leaf::Enum { name, base } => LeafModel::Enum { name: name@, base: *base },
            Leaf::Array { element } => LeafModel::Array { element: element@ },
        }
    }
}

impl View for TypeExpr {
    type V = TypeExprModel;

    open spec fn view(&self) -> TypeExprModel {
        match self {
            TypeExpr::Leaf(l) => TypeExprModel::Leaf(l@),
            TypeExpr::Union(alts) => TypeExprModel::Union(alts@.map_values(|l: Leaf| l@)),
        }
    }
}

/// The literal of the primitive kind `k`.
pub open spec fn primitive_text(k: Primitive) -> Seq<char> {
    match k {
        Primitive::Null => "null"@,
        Primitive::String => "string"@,
        Primitive::Integer => "integer"@,
        Primitive::Float => "float"@,
        Primitive::Boolean => "boolean"@,
        Primitive::Snowflake => "snowflake"@,
        Primitive::Timestamp => "timestamp"@,
    }
}

/// How the leaf `l` is written.
pub open spec fn leaf_text(l: LeafModel) -> Seq<char> {
    match l {
        LeafModel::Primitive(k) => primitive_text(k),
        LeafModel::Named(n) => n,
        LeafModel::Enum { name, base } => "enum["@ + name + "; "@ + primitive_text(base) + "]"@,
        LeafModel::Array { element } => "array["@ + element + "]"@,
    }
}

/// The alternatives `alts` as they are written, with a comma and a space
/// between one and the next.
pub open spec fn joined(alts: Seq<LeafModel>) -> Seq<char>
    decreases alts.len(),
{
    if alts.len() == 0 {
        Seq::empty()
    } else if alts.len() == 1 {
        leaf_text(alts[0])
    } else {
        joined(alts.drop_last()) + ", "@ + leaf_text(alts.last())
    }
}

/// How the type expression `e` is written.
pub open spec fn expr_text(e: TypeExprModel) -> Seq<char> {
    match e {
        TypeExprModel::Leaf(l) => leaf_text(l),
        TypeExprModel::Union(alts) => "union["@ + joined(alts) + "]"@,
    }
}

/// Whether `k` may be the base of an enum.
pub open spec fn is_base(k: Primitive) -> bool {
    k == Primitive::String || k == Primitive::Integer || k == Primitive::Float || k
        == Primitive::Boolean
}

/// Whether the leaf `l` is one that the grammar reads: the name of an enum
/// is a run of name characters, not empty, and its base is `string`,
/// `integer`, `float` or `boolean`; the element of an array is a run of
/// word characters, not empty.
pub open spec fn leaf_wf(l: LeafModel) -> bool {
    match l {
        LeafModel::Primitive(_) => true,
        LeafModel::Named(_) => true,
        LeafModel::Enum { name, base } => {
            &&& name.len() > 0
            &&& forall|i: int| 0 <= i < name.len() ==> is_name_char(#[trigger] name[i])
            &&& is_base(base)
        },
        LeafModel::Array { element } => {
            &&& element.len() > 0
            &&& forall|i: int| 0 <= i < element.len() ==> is_word(#[trigger] element[i])
        },
    }
}

/// Whether the leaf `l` resolves against `reg` by itself: a primitive
/// always, a name and an enum where the name is declared, an array where the
/// element is declared or primitive.
pub open spec fn leaf_resolves(reg: Set<Seq<char>>, l: LeafModel) -> bool {
    match l {
        LeafModel::Primitive(_) => true,
        LeafModel::Named(n) => reg.contains(n),
        LeafModel::Enum { name, base } => reg.contains(name),
        LeafModel::Array { element } => reg.contains(element) || is_primitive(element),
    }
}

/// Whether the type expression `e` resolves against `reg`: a leaf by
/// itself, a union through one of its alternatives that is no bare name.
pub open spec fn expr_resolves(reg: Set<Seq<char>>, e: TypeExprModel) -> bool {
    match e {
        TypeExprModel::Leaf(l) => leaf_resolves(reg, l),
        TypeExprModel::Union(alts) => exists|i: int|
            0 <= i < alts.len() && !((#[trigger] alts[i]) is Named) && leaf_resolves(reg, alts[i]),
    }
}

/// The span that the grammar finds in the text of the leaf `l`: the whole
/// text, with the name, the element or the literal as its capture.
pub open spec fn leaf_span(l: LeafModel) -> Span {
    let end = leaf_text(l).len() as int;
    match l {
        LeafModel::Enum { name, base } => Span {
            shape: Shape::Enum,
            lo: 5,
            hi: 5 + name.len() as int,
            end,
        },
        LeafModel::Array { element } => Span {
            shape: Shape::Array,
            lo: 6,
            hi: 6 + element.len() as int,
            end,
        },
        _ => Span { shape: Shape::Primitive, lo: 0, hi: end, end },
    }
}

/// What is written for a leaf that is no bare name is read back: its text
/// is one piece, of its shape, and the capture is the name, the element or
/// the literal that was written.
pub proof fn lemma_leaf_is_read_back(l: LeafModel)
    requires
        leaf_wf(l),
        !(l is Named),
    ensures
        span_at(leaf_text(l), 0) == Some(leaf_span(l)),
        is_piece(leaf_text(l)),
        leaf_text(l).subrange(leaf_span(l).lo, leaf_span(l).hi) == match l {
            LeafModel::Enum { name, base } => name,
            LeafModel::Array { element } => element,
            _ => leaf_text(l),
        },
{
    reveal_strlit("enum[");
    reveal_strlit("array[");
    reveal_strlit("; ");
    reveal_strlit("]");
    reveal_strlit("string]");
    reveal_strlit("integer]");
    reveal_strlit("float]");
    reveal_strlit("boolean]");
    reveal_strlit("null");
    reveal_strlit("string");
    reveal_strlit("integer");
    reveal_strlit("float");
    reveal_strlit("boolean");
    reveal_strlit("snowflake");
    reveal_strlit("timestamp");
    let t = leaf_text(l);
    match l {
        LeafModel::Enum { name, base } => {
            let hi: int = 5 + name.len() as int;
            assert(t.subrange(0, 5) =~= "enum["@);
            assert forall|k: int| 5 <= k < hi implies is_name_char(#[trigger] t[k]) by {
                assert(t[k] == name[k - 5]);
            }
            assert(t[hi] == ';');
            lemma_name_end(t, 5, hi);
            assert(t.subrange(hi, hi + 2) =~= "; "@);
            assert(t.subrange(5, hi) =~= name);
            match base {
                Primitive::String => {
                    assert(t.subrange(hi + 2, hi + 2 + 7) =~= "string]"@);
                },
                Primitive::Integer => {
                    assert(t.subrange(hi + 2, hi + 2 + 8) =~= "integer]"@);
                    assert(!has_at(t, hi + 2, "string]"@)) by {
                        if has_at(t, hi + 2, "string]"@) {
                            lemma_has_at_chars(t, hi + 2, "string]"@);
                            assert(t[hi + 2 + 0] == 's');
                        }
                    }
                },
                Primitive::Float => {
                    assert(t.subrange(hi + 2, hi + 2 + 6) =~= "float]"@);
                    assert(!has_at(t, hi + 2, "string]"@)) by {
                        if has_at(t, hi + 2, "string]"@) {
                            lemma_has_at_chars(t, hi + 2, "string]"@);
                            assert(t[hi + 2 + 0] == 's');
                        }
                    }
                    assert(!has_at(t, hi + 2, "integer]"@)) by {
                        if has_at(t, hi + 2, "integer]"@) {
                            lemma_has_at_chars(t, hi + 2, "integer]"@);
                            assert(t[hi + 2 + 0] == 'i');
                        }
                    }
                },
                _ => {
                    assert(t.subrange(hi + 2, hi + 2 + 8) =~= "boolean]"@);
                    assert(!has_at(t, hi + 2, "string]"@)) by {
                        if has_at(t, hi + 2, "string]"@) {
                            lemma_has_at_chars(t, hi + 2, "string]"@);
                            assert(t[hi + 2 + 0] == 's');
                        }
                    }
                    assert(!has_at(t, hi + 2, "integer]"@)) by {
                        if has_at(t, hi + 2, "integer]"@) {
                            lemma_has_at_chars(t, hi + 2, "integer]"@);
                            assert(t[hi + 2 + 0] == 'i');
                        }
                    }
                    assert(!has_at(t, hi + 2, "float]"@)) by {
                        if has_at(t, hi + 2, "float]"@) {
                            lemma_has_at_chars(t, hi + 2, "float]"@);
                            assert(t[hi + 2 + 0] == 'f');
                        }
                    }
                },
            }
        },
        LeafModel::Array { element } => {
            let hi: int = 6 + element.len() as int;
            assert(t.subrange(0, 6) =~= "array["@);
            assert(!has_at(t, 0, "enum["@)) by {
                if has_at(t, 0, "enum["@) {
                    lemma_has_at_chars(t, 0, "enum["@);
                    assert(t[0int + 0] == 'e');
                }
            }
            assert forall|k: int| 6 <= k < hi implies is_word(#[trigger] t[k]) by {
                assert(t[k] == element[k - 6]);
            }
            assert(t[hi] == ']');
            lemma_word_end(t, 6, hi);
            assert(t.subrange(hi, hi + 1) =~= "]"@);
            assert(t.subrange(6, hi) =~= element);
        },
        LeafModel::Primitive(k) => {
            assert(t.subrange(0, t.len() as int) =~= t);
            assert(!has_at(t, 0, "enum["@)) by {
                if has_at(t, 0, "enum["@) {
                    lemma_has_at_chars(t, 0, "enum["@);
                    assert(t[0int + 0] == 'e');
                    assert(t[0int + 1] == 'n');
                    assert(t[0int + 2] == 'u');
                    assert(t[0int + 3] == 'm');
                }
            }
            assert(!has_at(t, 0, "array["@)) by {
                if has_at(t, 0, "array["@) {
                    lemma_has_at_chars(t, 0, "array["@);
                    assert(t[0int + 0] == 'a');
                }
            }
            lemma_primitive_first(t, 0);
        },
        LeafModel::Named(_) => {},
    }
}

/// Whether the type expression `e` is one that the grammar reads: each of
/// its leaves is.
pub open spec fn expr_wf(e: TypeExprModel) -> bool {
    match e {
        TypeExprModel::Leaf(l) => leaf_wf(l),
        TypeExprModel::Union(alts) => forall|i: int|
            0 <= i < alts.len() ==> leaf_wf(#[trigger] alts[i]),
    }
}

/// Where the alternative `i` of a union stands in its text.
pub proof fn lemma_alternative_stands(alts: Seq<LeafModel>, i: int) -> (p: int)
    requires
        0 <= i < alts.len(),
    ensures
        stands_as_alternative(expr_text(TypeExprModel::Union(alts)), p, leaf_text(alts[i])),
        p + leaf_text(alts[i]).len() <= 6 + joined(alts).len(),
    decreases alts.len(),
{
    reveal_strlit("union[");
    reveal_strlit(", ");
    let t = expr_text(TypeExprModel::Union(alts));
    let x = leaf_text(alts[i]);
    assert(t.subrange(0, 6) =~= "union["@);
    if alts.len() == 1 {
        assert(t.subrange(6, 6 + x.len() as int) =~= x);
        6
    } else {
        let front = alts.drop_last();
        let head = expr_text(TypeExprModel::Union(front));
        if i < alts.len() - 1 {
            let p = lemma_alternative_stands(front, i);
            assert(front[i] == alts[i]);
            lemma_has_at_chars(head, p, x);
            assert(t.subrange(p, p + x.len()) =~= x) by {
                assert forall|j: int| 0 <= j < x.len() implies t[p + j] == x[j] by {
                    assert(t[p + j] == head[p + j]);
                }
            }
            if p != 6 {
                assert(t[p - 2] == head[p - 2]);
                assert(t[p - 1] == head[p - 1]);
            }
            p
        } else {
            let p: int = 6 + joined(front).len() as int + 2;
            assert(t.subrange(p, p + x.len() as int) =~= x);
            assert(t[p - 2] == ',');
            assert(t[p - 1] == ' ');
            p
        }
    }
}

/// A type expression that the grammar reads and that resolves is written
/// as a text that resolves.
///
/// The other direction does not hold of every expression: in the text of a
/// union a piece is found wherever it stands, inside a bare name too.
pub proof fn lemma_written_resolves(reg: Set<Seq<char>>, e: TypeExprModel)
    requires
        expr_wf(e),
        expr_resolves(reg, e),
    ensures
        resolution(reg, expr_text(e)) == Ok::<bool, Malformed>(true),
{
    let t = expr_text(e);
    match e {
        TypeExprModel::Leaf(l) => {
            if !(reg.contains(t) || is_primitive(t)) {
                lemma_leaf_is_read_back(l);
                reveal_strlit("enum[");
                reveal_strlit("enum");
                reveal_strlit("array[");
                reveal_strlit("array");
                match l {
                    LeafModel::Enum { name, base } => {
                        assert(t.subrange(0, 4) =~= "enum"@);
                    },
                    LeafModel::Array { element } => {
                        assert(t.subrange(0, 5) =~= "array"@);
                        assert(!has_at(t, 0, "enum"@)) by {
                            if has_at(t, 0, "enum"@) {
                                lemma_has_at_chars(t, 0, "enum"@);
                                assert(t[0int + 0] == 'e');
                            }
                        }
                    },
                    _ => {},
                }
            }
        },
        TypeExprModel::Union(alts) => {
            let i = choose|i: int|
                0 <= i < alts.len() && !((#[trigger] alts[i]) is Named) && leaf_resolves(
                    reg,
                    alts[i],
                );
            let p = lemma_alternative_stands(alts, i);
            lemma_leaf_is_read_back(alts[i]);
            lemma_union_resolves_through_piece(reg, t, p, leaf_text(alts[i]));
        },
    }
}

impl Primitive {
    /// The literal of the kind.
    pub fn text(self) -> (r: &'static str)
        ensures
            r@ == primitive_text(self),
    {
        match self {
            Primitive::Null => "null",
            Primitive::String => "string",
            Primitive::Integer => "integer",
            Primitive::Float => "float",
            Primitive::Boolean => "boolean",
            Primitive::Snowflake => "snowflake",
            Primitive::Timestamp => "timestamp",
        }
    }

    /// The kind whose literal `text` is, if it is one.
    pub fn of(text: &str) -> (r: Option<Primitive>)
        ensures
            match r {
                Some(k) => text@ == primitive_text(k),
                None => !is_primitive(text@),
            },
    {
        let cs = chars_of(text);
        let n = cs.len();
        assert(cs@.subrange(0, n as int) =~= cs@);
        if range_is(&cs, 0, n, "null") {
            Some(Primitive::Null)
        } else if range_is(&cs, 0, n, "string") {
            Some(Primitive::String)
        } else if range_is(&cs, 0, n, "integer") {
            Some(Primitive::Integer)
        } else if range_is(&cs, 0, n, "float") {
            Some(Primitive::Float)
        } else if range_is(&cs, 0, n, "boolean") {
            Some(Primitive::Boolean)
        } else if range_is(&cs, 0, n, "snowflake") {
            Some(Primitive::Snowflake)
        } else if range_is(&cs, 0, n, "timestamp") {
            Some(Primitive::Timestamp)
        } else {
            None
        }
    }

    /// Whether the kind may be the base of an enum.
    pub fn is_base(self) -> (r: bool)
        ensures
            r == is_base(self),
    {
        match self {
            Primitive::String | Primitive::Integer | Primitive::Float | Primitive::Boolean => true,
            _ => false,
        }
    }
}

/// Whether `s` is a run of name characters, not empty.
fn is_enum_name(s: &str) -> (r: bool)
    ensures
        r == (s@.len() > 0 && forall|i: int| 0 <= i < s@.len() ==> is_name_char(#[trigger] s@[i])),
{
    let cs = chars_of(s);
    let mut k: usize = 0;
    while k < cs.len()
        invariant
            k <= cs.len(),
            cs@ == s@,
            forall|i: int| 0 <= i < k ==> is_name_char(#[trigger] cs@[i]),
        decreases cs.len() - k,
    {
        if is_space_char(cs[k]) || cs[k] == ';' {
            assert(!is_name_char(s@[k as int]));
            return false;
        }
        k += 1;
    }
    cs.len() > 0
}

/// Whether `s` is a run of word characters, not empty.
fn is_word_run(s: &str) -> (r: bool)
    ensures
        r == (s@.len() > 0 && forall|i: int| 0 <= i < s@.len() ==> is_word(#[trigger] s@[i])),
{
    let cs = chars_of(s);
    let mut k: usize = 0;
    while k < cs.len()
        invariant
            k <= cs.len(),
            cs@ == s@,
            forall|i: int| 0 <= i < k ==> is_word(#[trigger] cs@[i]),
        decreases cs.len() - k,
    {
        if !is_word_char(cs[k]) {
            assert(!is_word(s@[k as int]));
            return false;
        }
        k += 1;
    }
    cs.len() > 0
}

impl Leaf {
    /// How the leaf is written.
    pub fn text(&self) -> (r: String)
        ensures
            r@ == leaf_text(self@),
    {
        match self {
            Leaf::Primitive(k) => k.text().to_owned(),
            Leaf::Named(n) => n.clone(),
            Leaf::Enum { name, base } => {
                let mut out = "enum[".to_owned();
                out.append(name.as_str());
                out.append("; ");
                out.append(base.text());
                out.append("]");
                out
            },
            Leaf::Array { element } => {
                let mut out = "array[".to_owned();
                out.append(element.as_str());
                out.append("]");
                out
            },
        }
    }

    /// Whether the leaf is one that the grammar reads.
    pub fn is_well_formed(&self) -> (r: bool)
        ensures
            r == leaf_wf(self@),
    {
        match self {
            Leaf::Enum { name, base } => is_enum_name(name.as_str()) && base.is_base(),
            Leaf::Array { element } => is_word_run(element.as_str()),
            _ => true,
        }
    }

    /// Whether the leaf resolves against `defined` by itself.
    pub fn resolves(&self, defined: &Registry) -> (r: bool)
        ensures
            r == leaf_resolves(defined@, self@),
    {
        match self {
            Leaf::Primitive(_) => true,
            Leaf::Named(n) => defined.contains(n.as_str()),
            Leaf::Enum { name, base } => defined.contains(name.as_str()),
            Leaf::Array { element } => {
                let cs = chars_of(element.as_str());
                assert(cs@.subrange(0, cs@.len() as int) =~= cs@);
                defined.contains(element.as_str()) || range_is_primitive(&cs, 0, cs.len())
            },
        }
    }
}

impl TypeExpr {
    /// How the type expression is written.
    pub fn text(&self) -> (r: String)
        ensures
            r@ == expr_text(self@),
    {
        match self {
            TypeExpr::Leaf(l) => l.text(),
            TypeExpr::Union(alts) => {
                let ghost models = alts@.map_values(|l: Leaf| l@);
                let mut out = "union[".to_owned();
                let mut k: usize = 0;
                assert(models.take(0) =~= Seq::<LeafModel>::empty());
                assert(out@ =~= "union["@ + joined(models.take(0)));
                while k < alts.len()
                    invariant
                        k <= alts.len(),
                        models == alts@.map_values(|l: Leaf| l@),
                        out@ == "union["@ + joined(models.take(k as int)),
                    decreases alts.len() - k,
                {
                    assert(models.take(k + 1).drop_last() =~= models.take(k as int));
                    let ghost before = joined(models.take(k as int));
                    let piece = alts[k].text();
                    if k > 0 {
                        out.append(", ");
                        out.append(piece.as_str());
                        assert(out@ =~= "union["@ + (before + ", "@ + piece@));
                    } else {
                        out.append(piece.as_str());
                        assert(before =~= Seq::<char>::empty());
                        assert(out@ =~= "union["@ + piece@);
                    }
                    k += 1;
                }
                assert(models.take(alts.len() as int) =~= models);
                out.append("]");
                out
            },
        }
    }

    /// Whether the type expression is one that the grammar reads.
    #[verifier::loop_isolation(false)]
    pub fn is_well_formed(&self) -> (r: bool)
        ensures
            r == expr_wf(self@),
    {
        match self {
            TypeExpr::Leaf(l) => l.is_well_formed(),
            TypeExpr::Union(alts) => {
                let ghost models = self@->Union_0;
                let mut k: usize = 0;
                while k < alts.len()
                    invariant
                        k <= alts.len(),
                        forall|i: int| 0 <= i < k ==> leaf_wf(#[trigger] models[i]),
                    decreases alts.len() - k,
                {
                    if !alts[k].is_well_formed() {
                        assert(!leaf_wf(models[k as int]));
                        return false;
                    }
                    k += 1;
                }
                true
            },
        }
    }

    /// Whether the type expression resolves against `defined`.
    #[verifier::loop_isolation(false)]
    pub fn resolves(&self, defined: &Registry) -> (r: bool)
        ensures
            r == expr_resolves(defined@, self@),
    {
        match self {
            TypeExpr::Leaf(l) => l.resolves(defined),
            TypeExpr::Union(alts) => {
                let ghost models = self@->Union_0;
                let mut k: usize = 0;
                while k < alts.len()
                    invariant
                        k <= alts.len(),
                        forall|i: int|
                            0 <= i < k ==> (#[trigger] models[i]) is Named || !leaf_resolves(
                                defined@,
                                models[i],
                            ),
                    decreases alts.len() - k,
                {
                    let named = match &alts[k] {
                        Leaf::Named(_) => true,
                        _ => false,
                    };
                    if !named && alts[k].resolves(defined) {
                        assert(!(models[k as int] is Named) && leaf_resolves(
                            defined@,
                            models[k as int],
                        ));
                        return true;
                    }
                    k += 1;
                }
                false
            },
        }
    }
}

} // verus!
