//! The registry of declared type names, and the rule by which a type
//! expression resolves against it.

use crate::grammar::{
    all_matches, first_match, first_span, is_piece, is_primitive, lemma_first_span_bounds,
    lemma_has_at_chars, lemma_piece_inside, lemma_piece_stops_at_comma, lemma_primitive_first,
    lemma_search_finds, lemma_span_at_bounds, lemma_spans_from_bounds, moved, range_is_primitive,
    span_at, spans_from, spans_of, Capture, Shape, Span,
};
use crate::text::{chars_of, has_at, starts_at};
use vstd::hash_set::StringHashSet;
use vstd::prelude::*;
use vstd::string::*;

verus! {

/// The set of names that count as declared.
pub struct Registry {
    names: StringHashSet,
}

impl View for Registry {
    type V = Set<Seq<char>>;

    closed spec fn view(&self) -> Set<Seq<char>> {
        self.names@
    }
}

impl Registry {
    /// The registry without a name.
    pub fn new() -> (r: Registry)
        ensures
            r@ == Set::<Seq<char>>::empty(),
    {
        Registry { names: StringHashSet::new() }
    }

    /// Adds `name`; says whether it was new.
    pub fn insert(&mut self, name: String) -> (added: bool)
        ensures
            final(self)@ == old(self)@.insert(name@),
            added == !old(self)@.contains(name@),
    {
        self.names.insert(name)
    }

    /// Whether `name` is declared.
    pub fn contains(&self, name: &str) -> (r: bool)
        ensures
            r == self@.contains(name@),
    {
        self.names.contains(name)
    }
}

/// A type expression that announces a bracketed shape and does not hold it.
#[derive(Clone, Copy, Debug, PartialEq, Eq, Structural)]
pub enum Malformed {
    /// The text begins with `enum`, and the first piece found in it is not
    /// an `enum[name; base]`, or there is none.
    Enum,
    /// The text begins with `array`, and the first piece found in it is not
    /// an `array[element]`, or there is none.
    Array,
}

/// What a type expression announces itself to be.
#[derive(Clone, Copy, Debug, PartialEq, Eq, Structural)]
pub enum TypeClass {
    /// One of the seven primitive literals.
    Primitive,
    /// A text that begins with `enum`.
    Enum,
    /// A text that begins with `array`.
    Array,
    /// A text that begins with `union`.
    Union,
    /// Anything else: a bare name.
    Other,
}

/// The class of the type expression `t`.
pub open spec fn class_of(t: Seq<char>) -> TypeClass {
    if is_primitive(t) {
        TypeClass::Primitive
    } else if has_at(t, 0, "enum"@) {
        TypeClass::Enum
    } else if has_at(t, 0, "array"@) {
        TypeClass::Array
    } else if has_at(t, 0, "union"@) {
        TypeClass::Union
    } else {
        TypeClass::Other
    }
}

/// Whether the piece `m` of `t` resolves against `reg`: an enum by its name,
/// an array by its element, which may also be primitive, and a primitive
/// literal always.
pub open spec fn span_resolves(reg: Set<Seq<char>>, t: Seq<char>, m: Span) -> bool {
    let word = t.subrange(m.lo, m.hi);
    match m.shape {
        Shape::Enum => reg.contains(word),
        Shape::Array => reg.contains(word) || is_primitive(word),
        Shape::Primitive => true,
    }
}

/// Whether one of the pieces of `t` resolves against `reg`.
pub open spec fn some_span_resolves(reg: Set<Seq<char>>, t: Seq<char>) -> bool {
    exists|k: int|
        0 <= k < spans_from(t, 0).len() && span_resolves(reg, t, #[trigger] spans_from(t, 0)[k])
}

/// Whether the type expression `t` resolves against `reg`, or how it is
/// malformed.
///
/// A declared name and a primitive literal resolve. A text that begins with
/// `enum` or `array` goes by the first piece found in it, which must have that
/// shape. A text that begins with `union` resolves as soon as one of its
/// pieces does. Any other text does not resolve.
pub open spec fn resolution(reg: Set<Seq<char>>, t: Seq<char>) -> Result<bool, Malformed> {
    if reg.contains(t) || is_primitive(t) {
        Ok(true)
    } else {
        match class_of(t) {
            TypeClass::Enum => match first_span(t, 0) {
                Some(m) => if m.shape == Shape::Enum {
                    Ok(span_resolves(reg, t, m))
                } else {
                    Err(Malformed::Enum)
                },
                None => Err(Malformed::Enum),
            },
            TypeClass::Array => match first_span(t, 0) {
                Some(m) => if m.shape == Shape::Array {
                    Ok(span_resolves(reg, t, m))
                } else {
                    Err(Malformed::Array)
                },
                None => Err(Malformed::Array),
            },
            TypeClass::Union => Ok(some_span_resolves(reg, t)),
            _ => Ok(false),
        }
    }
}

/// The class of the type expression `typ`.
pub fn classify(typ: &str) -> (r: TypeClass)
    ensures
        r == class_of(typ@),
{
    let cs = chars_of(typ);
    classify_chars(&cs)
}

fn classify_chars(cs: &Vec<char>) -> (r: TypeClass)
    ensures
        r == class_of(cs@),
{
    assert(cs@.subrange(0, cs@.len() as int) =~= cs@);
    if range_is_primitive(cs, 0, cs.len()) {
        TypeClass::Primitive
    } else if starts_at(cs, 0, "enum") {
        TypeClass::Enum
    } else if starts_at(cs, 0, "array") {
        TypeClass::Array
    } else if starts_at(cs, 0, "union") {
        TypeClass::Union
    } else {
        TypeClass::Other
    }
}

/// Decides [`span_resolves`] for a piece of `typ`, whose characters are `cs`.
fn capture_resolves(defined: &Registry, typ: &str, cs: &Vec<char>, m: Capture) -> (r: bool)
    requires
        cs@ == typ@,
        m.lo <= m.hi <= cs.len(),
    ensures
        r == span_resolves(defined@, typ@, m@),
{
    match m.shape {
        Shape::Enum => defined.contains(typ.substring_char(m.lo, m.hi)),
        Shape::Array => defined.contains(typ.substring_char(m.lo, m.hi)) || range_is_primitive(
            cs,
            m.lo,
            m.hi,
        ),
        Shape::Primitive => true,
    }
}

/// Decides [`some_span_resolves`] for `typ`, whose characters are `cs`.
fn some_capture_resolves(defined: &Registry, typ: &str, cs: &Vec<char>) -> (r: bool)
    requires
        cs@ == typ@,
    ensures
        r == some_span_resolves(defined@, typ@),
{
    let found = all_matches(cs);
    proof {
        lemma_spans_from_bounds(cs@, 0);
    }
    let ghost spans = spans_from(cs@, 0);
    assert(spans_of(found@).len() == found@.len());
    let mut k: usize = 0;
    while k < found.len()
        invariant
            k <= found.len(),
            cs@ == typ@,
            spans == spans_from(cs@, 0),
            spans_of(found@) == spans,
            forall|j: int|
                0 <= j < spans.len() ==> {
                    let m = #[trigger] spans[j];
                    0 <= m.lo <= m.hi <= m.end <= cs@.len()
                },
            forall|j: int| 0 <= j < k ==> !span_resolves(defined@, typ@, #[trigger] spans[j]),
        decreases found.len() - k,
    {
        let m = found[k];
        assert(spans[k as int] == m@);
        if capture_resolves(defined, typ, cs, m) {
            assert(span_resolves(defined@, typ@, spans_from(typ@, 0)[k as int]));
            return true;
        }
        k += 1;
    }
    false
}

/// Whether the type expression `typ` resolves against `defined`.
///
/// Fails on a text that begins with `enum` or `array` and does not hold that
/// shape where the first piece is found.
pub fn validate_type(defined: &Registry, typ: &str) -> (r: Result<bool, Malformed>)
    ensures
        r == resolution(defined@, typ@),
{
    let cs = chars_of(typ);
    assert(cs@.subrange(0, cs@.len() as int) =~= cs@);
    if defined.contains(typ) || range_is_primitive(&cs, 0, cs.len()) {
        return Ok(true);
    }
    match classify_chars(&cs) {
        TypeClass::Enum => {
            proof {
                lemma_first_span_bounds(cs@, 0);
            }
            match first_match(&cs, 0) {
                Some(m) => if m.shape == Shape::Enum {
                    Ok(capture_resolves(defined, typ, &cs, m))
                } else {
                    Err(Malformed::Enum)
                },
                None => Err(Malformed::Enum),
            }
        },
        TypeClass::Array => {
            proof {
                lemma_first_span_bounds(cs@, 0);
            }
            match first_match(&cs, 0) {
                Some(m) => if m.shape == Shape::Array {
                    Ok(capture_resolves(defined, typ, &cs, m))
                } else {
                    Err(Malformed::Array)
                },
                None => Err(Malformed::Array),
            }
        },
        TypeClass::Union => Ok(some_capture_resolves(defined, typ, &cs)),
        _ => Ok(false),
    }
}

/// A primitive literal resolves against every registry.
pub proof fn lemma_primitive_resolves(reg: Set<Seq<char>>, p: Seq<char>)
    requires
        is_primitive(p),
    ensures
        resolution(reg, p) == Ok::<bool, Malformed>(true),
{
}

/// A declared name resolves.
pub proof fn lemma_declared_resolves(reg: Set<Seq<char>>, name: Seq<char>)
    requires
        reg.contains(name),
    ensures
        resolution(reg, name) == Ok::<bool, Malformed>(true),
{
}

/// Whether the text `x` is a piece as a whole whose capture resolves
/// against `reg`: a primitive literal, an `array[element]` with a declared
/// or primitive element, or an `enum[name; base]` with a declared name.
pub open spec fn piece_resolves(reg: Set<Seq<char>>, x: Seq<char>) -> bool {
    is_piece(x) && span_resolves(reg, x, span_at(x, 0)->0)
}

/// The union of the two alternatives `a` and `b`, as it is written.
pub open spec fn union_of(a: Seq<char>, b: Seq<char>) -> Seq<char> {
    "union["@ + a + ", "@ + b + "]"@
}

/// Whether `x` stands in `t` as an alternative of a union: right behind
/// the word `union[` at the head of `t`, or behind a comma and a space.
pub open spec fn stands_as_alternative(t: Seq<char>, p: int, x: Seq<char>) -> bool {
    &&& has_at(t, 0, "union["@)
    &&& has_at(t, p, x)
    &&& p == 6 || (p >= 8 && t[p - 2] == ',' && t[p - 1] == ' ')
}

/// A text that begins with `union[` resolves as soon as one of its
/// alternatives is a piece that resolves, whatever stands around it.
pub proof fn lemma_union_resolves_through_piece(
    reg: Set<Seq<char>>,
    t: Seq<char>,
    p: int,
    x: Seq<char>,
)
    requires
        stands_as_alternative(t, p, x),
        piece_resolves(reg, x),
    ensures
        resolution(reg, t) == Ok::<bool, Malformed>(true),
{
    reveal_strlit("union[");
    reveal_strlit("union");
    reveal_strlit("enum");
    reveal_strlit("array");
    lemma_has_at_chars(t, 0, "union["@);
    assert(t[0int + 0] == 'u');
    assert(t.subrange(0, 5) =~= "union["@.subrange(0, 5));
    assert("union["@.subrange(0, 5) =~= "union"@);
    assert(!has_at(t, 0, "enum"@)) by {
        if has_at(t, 0, "enum"@) {
            lemma_has_at_chars(t, 0, "enum"@);
            assert(t[0int + 0] == 'e');
        }
    }
    assert(!has_at(t, 0, "array"@)) by {
        if has_at(t, 0, "array"@) {
            lemma_has_at_chars(t, 0, "array"@);
            assert(t[0int + 0] == 'a');
        }
    }
    if !(reg.contains(t) || is_primitive(t)) {
        lemma_piece_inside(t, p, x);
        lemma_span_at_bounds(x, 0);
        let m = span_at(x, 0)->0;
        let found = moved(m, p);
        assert(t.subrange(found.lo, found.hi) =~= x.subrange(m.lo, m.hi)) by {
            lemma_has_at_chars(t, p, x);
        }
        assert(span_resolves(reg, t, found));
        assert forall|q: int| 0 <= q < p implies (#[trigger] span_at(t, q) matches Some(n)
            ==> n.end <= p) by {
            if q < 6 {
                lemma_head_holds_no_piece(t, q);
            } else {
                lemma_piece_stops_at_comma(t, q, p);
            }
        }
        lemma_search_finds(t, 0, p);
        let k = choose|k: int| 0 <= k < spans_from(t, 0).len() && spans_from(t, 0)[k] == found;
        assert(span_resolves(reg, t, spans_from(t, 0)[k]));
    }
}

/// A union of two alternatives resolves as soon as one of them is a piece
/// that resolves, whatever the other is.
///
/// A bare declared name is no piece, so a union does not resolve through it.
pub proof fn lemma_union_resolves_through_one(reg: Set<Seq<char>>, a: Seq<char>, b: Seq<char>)
    requires
        piece_resolves(reg, a) || piece_resolves(reg, b),
    ensures
        resolution(reg, union_of(a, b)) == Ok::<bool, Malformed>(true),
{
    reveal_strlit("union[");
    reveal_strlit(", ");
    reveal_strlit("]");
    let t = union_of(a, b);
    assert(t.subrange(0, 6) =~= "union["@);
    if piece_resolves(reg, a) {
        assert(t.subrange(6, 6 + a.len() as int) =~= a);
        lemma_union_resolves_through_piece(reg, t, 6, a);
    } else {
        let p: int = 8 + a.len() as int;
        assert(t.subrange(p, p + b.len() as int) =~= b);
        assert(t[p - 2] == ',');
        assert(t[p - 1] == ' ');
        lemma_union_resolves_through_piece(reg, t, p, b);
    }
}

/// No piece begins inside the word `union[` at the head of a text.
proof fn lemma_head_holds_no_piece(t: Seq<char>, q: int)
    requires
        has_at(t, 0, "union["@),
        0 <= q < 6,
    ensures
        span_at(t, q) is None,
{
    reveal_strlit("union[");
    reveal_strlit("enum[");
    reveal_strlit("array[");
    lemma_has_at_chars(t, 0, "union["@);
    assert(t[0int + 0] == 'u');
    assert(t[0int + 1] == 'n');
    assert(t[0int + 2] == 'i');
    assert(t[0int + 3] == 'o');
    assert(t[0int + 4] == 'n');
    assert(t[0int + 5] == '[');
    lemma_primitive_first(t, q);
    if has_at(t, q, "enum["@) {
        lemma_has_at_chars(t, q, "enum["@);
        assert(t[q + 0] == 'e');
    }
    if has_at(t, q, "array["@) {
        lemma_has_at_chars(t, q, "array["@);
        assert(t[q + 0] == 'a');
    }
}

} // verus!
