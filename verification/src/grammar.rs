//! The grammar of type expressions: the primitive literals and the three
//! bracketed shapes `enum[name; base]`, `array[element]` and
//! `union[alt, alt, ...]`, recognised anywhere inside a text.

use crate::text::{has_at, is_space, is_space_char, is_word, is_word_char, starts_at};
use vstd::prelude::*;

verus! {

/// The shape of one recognised piece of a type expression.
#[derive(Clone, Copy, Debug, PartialEq, Eq, Structural)]
pub enum Shape {
    /// `enum[name; base]`; the capture is `name`.
    Enum,
    /// `array[element]`; the capture is `element`.
    Array,
    /// One of the seven primitive literals; the capture is the literal.
    Primitive,
}

/// A recognised piece of a text: its shape, the captured characters
/// `lo..hi`, and the position `end` just behind the whole piece.
pub struct Span {
    pub shape: Shape,
    pub lo: int,
    pub hi: int,
    pub end: int,
}

/// A [`Span`] in machine integers.
#[derive(Clone, Copy, Debug, PartialEq, Eq, Structural)]
pub struct Capture {
    pub shape: Shape,
    pub lo: usize,
    pub hi: usize,
    pub end: usize,
}

impl View for Capture {
    type V = Span;

    open spec fn view(&self) -> Span {
        Span { shape: self.shape, lo: self.lo as int, hi: self.hi as int, end: self.end as int }
    }
}

/// Whether `t` is one of the seven primitive literals.
pub open spec fn is_primitive(t: Seq<char>) -> bool {
    ||| t == "null"@
    ||| t == "string"@
    ||| t == "integer"@
    ||| t == "float"@
    ||| t == "boolean"@
    ||| t == "snowflake"@
    ||| t == "timestamp"@
}

/// The length of the primitive literal that stands in `t` at `at`, if one does.
pub open spec fn primitive_len(t: Seq<char>, at: int) -> Option<int> {
    if has_at(t, at, "null"@) {
        Some(4)
    } else if has_at(t, at, "string"@) {
        Some(6)
    } else if has_at(t, at, "integer"@) {
        Some(7)
    } else if has_at(t, at, "float"@) {
        Some(5)
    } else if has_at(t, at, "boolean"@) {
        Some(7)
    } else if has_at(t, at, "snowflake"@) {
        Some(9)
    } else if has_at(t, at, "timestamp"@) {
        Some(9)
    } else {
        None
    }
}

/// The length of the enum base that stands in `t` at `at` with the closing
/// bracket right behind it, if one does.
pub open spec fn base_len(t: Seq<char>, at: int) -> Option<int> {
    if has_at(t, at, "string]"@) {
        Some(6)
    } else if has_at(t, at, "integer]"@) {
        Some(7)
    } else if has_at(t, at, "float]"@) {
        Some(5)
    } else if has_at(t, at, "boolean]"@) {
        Some(7)
    } else {
        None
    }
}

/// Whether `c` may stand in an enum's name: anything but white space and `;`.
pub open spec fn is_name_char(c: char) -> bool {
    !is_space(c) && c != ';'
}

/// The end of the longest run of enum-name characters of `t` from `from`.
pub open spec fn name_end(t: Seq<char>, from: int) -> int
    decreases t.len() - from,
{
    if 0 <= from < t.len() && is_name_char(t[from]) {
        name_end(t, from + 1)
    } else {
        from
    }
}

/// The end of the longest run of word characters of `t` from `from`.
pub open spec fn word_end(t: Seq<char>, from: int) -> int
    decreases t.len() - from,
{
    if 0 <= from < t.len() && is_word(t[from]) {
        word_end(t, from + 1)
    } else {
        from
    }
}

/// The piece `enum[name; base]` that begins at `at`, if one does: `name` is a
/// non-empty run of name characters, `base` one of `string`, `integer`,
/// `float` and `boolean`.
pub open spec fn enum_at(t: Seq<char>, at: int) -> Option<Span> {
    let hi = name_end(t, at + 5);
    if has_at(t, at, "enum["@) && at + 5 < hi && has_at(t, hi, "; "@) {
        match base_len(t, hi + 2) {
            Some(n) => Some(Span { shape: Shape::Enum, lo: at + 5, hi, end: hi + 2 + n + 1 }),
            None => None,
        }
    } else {
        None
    }
}

/// The piece `array[element]` that begins at `at`, if one does: `element` is
/// a non-empty run of word characters.
pub open spec fn array_at(t: Seq<char>, at: int) -> Option<Span> {
    let hi = word_end(t, at + 6);
    if has_at(t, at, "array["@) && at + 6 < hi && has_at(t, hi, "]"@) {
        Some(Span { shape: Shape::Array, lo: at + 6, hi, end: hi + 1 })
    } else {
        None
    }
}

/// The primitive literal that begins at `at`, if one does.
pub open spec fn primitive_at(t: Seq<char>, at: int) -> Option<Span> {
    match primitive_len(t, at) {
        Some(n) => Some(Span { shape: Shape::Primitive, lo: at, hi: at + n, end: at + n }),
        None => None,
    }
}

/// The piece of `t` that begins at `at`, if one does.
pub open spec fn span_at(t: Seq<char>, at: int) -> Option<Span> {
    if enum_at(t, at) is Some {
        enum_at(t, at)
    } else if array_at(t, at) is Some {
        array_at(t, at)
    } else {
        primitive_at(t, at)
    }
}

/// The first piece of `t` that begins at `from` or later, if there is one.
pub open spec fn first_span(t: Seq<char>, from: int) -> Option<Span>
    decreases t.len() - from,
{
    if from < 0 || from >= t.len() {
        None
    } else if span_at(t, from) is Some {
        span_at(t, from)
    } else {
        first_span(t, from + 1)
    }
}

/// The position from which the search in `t` goes on behind the piece `m`
/// that was found at `at`: the end of `m`, which lies behind `at` and inside
/// `t` (see [`lemma_span_at_bounds`]).
pub open spec fn resume(t: Seq<char>, m: Span, at: int) -> int {
    if at < m.end <= t.len() {
        m.end
    } else {
        at + 1
    }
}

/// The pieces of `t` from `from` on, found one after the other: each search
/// begins where the piece before it ended, so no two of them overlap.
pub open spec fn spans_from(t: Seq<char>, from: int) -> Seq<Span>
    decreases t.len() - from,
{
    if from < 0 || from >= t.len() {
        Seq::empty()
    } else {
        match span_at(t, from) {
            Some(m) => seq![m] + spans_from(t, resume(t, m, from)),
            None => spans_from(t, from + 1),
        }
    }
}

/// The spans that a sequence of captures stands for.
pub open spec fn spans_of(v: Seq<Capture>) -> Seq<Span> {
    v.map_values(|c: Capture| c@)
}

/// Whether the capture `r` stands for the span `s`, or both are absent.
pub open spec fn same_span(r: Option<Capture>, s: Option<Span>) -> bool {
    match r {
        Some(c) => s == Some(c@),
        None => s is None,
    }
}

/// Every piece of `t` from `at` on lies inside `t`, captures a part of
/// itself and ends behind `at`.
pub proof fn lemma_span_at_bounds(t: Seq<char>, at: int)
    requires
        0 <= at,
    ensures
        span_at(t, at) matches Some(m) ==> at <= m.lo <= m.hi <= m.end <= t.len() && at < m.end,
{
    reveal_strlit("null");
    reveal_strlit("string");
    reveal_strlit("integer");
    reveal_strlit("float");
    reveal_strlit("boolean");
    reveal_strlit("snowflake");
    reveal_strlit("timestamp");
    reveal_strlit("string]");
    reveal_strlit("integer]");
    reveal_strlit("float]");
    reveal_strlit("boolean]");
    reveal_strlit("]");
    reveal_strlit("; ");
}

/// The first piece of `t` from `from` on lies inside `t` and captures a part
/// of itself.
pub proof fn lemma_first_span_bounds(t: Seq<char>, from: int)
    requires
        0 <= from,
    ensures
        first_span(t, from) matches Some(m) ==> from <= m.lo <= m.hi <= m.end <= t.len(),
    decreases t.len() - from,
{
    if from < t.len() {
        lemma_span_at_bounds(t, from);
        if span_at(t, from) is None {
            lemma_first_span_bounds(t, from + 1);
        }
    }
}

/// Each of the pieces of `t` from `from` on lies inside `t` and captures a
/// part of itself.
pub proof fn lemma_spans_from_bounds(t: Seq<char>, from: int)
    requires
        0 <= from,
    ensures
        forall|k: int|
            0 <= k < spans_from(t, from).len() ==> {
                let m = #[trigger] spans_from(t, from)[k];
                from <= m.lo <= m.hi <= m.end <= t.len()
            },
    decreases t.len() - from,
{
    if from < t.len() {
        lemma_span_at_bounds(t, from);
        match span_at(t, from) {
            Some(m) => {
                lemma_spans_from_bounds(t, m.end);
            },
            None => {
                lemma_spans_from_bounds(t, from + 1);
            },
        }
    }
}

/// The first piece from `from` on is the first of the pieces found one
/// after the other.
pub proof fn lemma_first_span_is_first(t: Seq<char>, from: int)
    requires
        0 <= from,
    ensures
        first_span(t, from) == if spans_from(t, from).len() > 0 {
            Some(spans_from(t, from)[0])
        } else {
            None
        },
    decreases t.len() - from,
{
    if from < t.len() && span_at(t, from) is None {
        lemma_first_span_is_first(t, from + 1);
    }
}

/// Where `lit` stands in `t` at `at`, the characters of `t` from `at` on are
/// those of `lit`.
pub(crate) proof fn lemma_has_at_chars(t: Seq<char>, at: int, lit: Seq<char>)
    requires
        has_at(t, at, lit),
    ensures
        forall|j: int| 0 <= j < lit.len() ==> #[trigger] t[at + j] == lit[j],
{
    assert forall|j: int| 0 <= j < lit.len() implies #[trigger] t[at + j] == lit[j] by {
        assert(t.subrange(at, at + lit.len())[j] == t[at + j]);
    }
}

/// Where `x` stands in `t` at `p`, what stands in `x` at `i` stands in `t`
/// at `p + i`, and what stands in `t` at `p + i` inside `x` stands in `x`.
pub(crate) proof fn lemma_has_at_inside(t: Seq<char>, p: int, x: Seq<char>, i: int, lit: Seq<char>)
    requires
        has_at(t, p, x),
        0 <= i,
        i + lit.len() <= x.len(),
    ensures
        has_at(x, i, lit) == has_at(t, p + i, lit),
{
    assert(x.subrange(i, i + lit.len()) =~= t.subrange(p + i, p + i + lit.len())) by {
        lemma_has_at_chars(t, p, x);
    }
}

/// A run of name characters from `from` that stops at `to` is the longest.
pub(crate) proof fn lemma_name_end(t: Seq<char>, from: int, to: int)
    requires
        0 <= from <= to <= t.len(),
        forall|k: int| from <= k < to ==> is_name_char(#[trigger] t[k]),
        to < t.len() ==> !is_name_char(t[to]),
    ensures
        name_end(t, from) == to,
    decreases to - from,
{
    if from < to {
        lemma_name_end(t, from + 1, to);
    }
}

/// The longest run of name characters from `from` holds nothing else, and
/// stops at the end of `t` or before another character.
pub(crate) proof fn lemma_name_run(t: Seq<char>, from: int)
    requires
        0 <= from <= t.len(),
    ensures
        from <= name_end(t, from) <= t.len(),
        forall|k: int| from <= k < name_end(t, from) ==> is_name_char(#[trigger] t[k]),
        name_end(t, from) < t.len() ==> !is_name_char(t[name_end(t, from)]),
    decreases t.len() - from,
{
    if from < t.len() && is_name_char(t[from]) {
        lemma_name_run(t, from + 1);
    }
}

/// A run of word characters from `from` that stops at `to` is the longest.
pub(crate) proof fn lemma_word_end(t: Seq<char>, from: int, to: int)
    requires
        0 <= from <= to <= t.len(),
        forall|k: int| from <= k < to ==> is_word(#[trigger] t[k]),
        to < t.len() ==> !is_word(t[to]),
    ensures
        word_end(t, from) == to,
    decreases to - from,
{
    if from < to {
        lemma_word_end(t, from + 1, to);
    }
}

/// The longest run of word characters from `from` holds nothing else, and
/// stops at the end of `t` or before another character.
pub(crate) proof fn lemma_word_run(t: Seq<char>, from: int)
    requires
        0 <= from <= t.len(),
    ensures
        from <= word_end(t, from) <= t.len(),
        forall|k: int| from <= k < word_end(t, from) ==> is_word(#[trigger] t[k]),
        word_end(t, from) < t.len() ==> !is_word(t[word_end(t, from)]),
    decreases t.len() - from,
{
    if from < t.len() && is_word(t[from]) {
        lemma_word_run(t, from + 1);
    }
}

/// The span `m` moved `by` places to the right.
pub open spec fn moved(m: Span, by: int) -> Span {
    Span { shape: m.shape, lo: m.lo + by, hi: m.hi + by, end: m.end + by }
}

/// Whether `x` is a piece as a whole: a primitive literal, an
/// `array[element]` or an `enum[name; base]`, and nothing behind it.
pub open spec fn is_piece(x: Seq<char>) -> bool {
    span_at(x, 0) matches Some(m) && m.end == x.len()
}

/// A text that is a piece as a whole is a piece wherever it stands in
/// another text, with the same capture.
pub proof fn lemma_piece_inside(t: Seq<char>, p: int, x: Seq<char>)
    requires
        has_at(t, p, x),
        is_piece(x),
    ensures
        span_at(t, p) == Some(moved(span_at(x, 0)->0, p)),
{
    let m = span_at(x, 0)->0;
    lemma_span_at_bounds(x, 0);
    lemma_has_at_chars(t, p, x);
    reveal_strlit("enum[");
    reveal_strlit("array[");
    reveal_strlit("; ");
    reveal_strlit("]");
    reveal_strlit("string]");
    reveal_strlit("integer]");
    reveal_strlit("float]");
    reveal_strlit("boolean]");
    reveal_strlit("null");
    reveal_strlit("string");
    reveal_strlit("integer");
    reveal_strlit("float");
    reveal_strlit("boolean");
    reveal_strlit("snowflake");
    reveal_strlit("timestamp");
    if enum_at(x, 0) is Some {
        let hi = name_end(x, 5);
        lemma_name_run(x, 5);
        lemma_has_at_chars(x, hi, "; "@);
        assert(x[hi + 0] == ';');
        assert forall|k: int| p + 5 <= k < p + hi implies is_name_char(#[trigger] t[k]) by {
            assert(t[p + (k - p)] == x[k - p]);
        }
        assert(t[p + hi] == x[hi]);
        lemma_name_end(t, p + 5, p + hi);
        lemma_has_at_inside(t, p, x, 0, "enum["@);
        lemma_has_at_inside(t, p, x, hi, "; "@);
        if hi + 2 + 7 <= x.len() {
            lemma_has_at_inside(t, p, x, hi + 2, "string]"@);
        }
        if hi + 2 + 8 <= x.len() {
            lemma_has_at_inside(t, p, x, hi + 2, "integer]"@);
            lemma_has_at_inside(t, p, x, hi + 2, "boolean]"@);
        }
        if hi + 2 + 6 <= x.len() {
            lemma_has_at_inside(t, p, x, hi + 2, "float]"@);
        }
        assert(base_len(t, p + hi + 2) == base_len(x, hi + 2)) by {
            lemma_base_differ(t, p + hi + 2);
        }
    } else if array_at(x, 0) is Some {
        let hi = word_end(x, 6);
        lemma_word_run(x, 6);
        lemma_has_at_chars(x, hi, "]"@);
        assert(x[hi + 0] == ']');
        lemma_has_at_chars(x, 0, "array["@);
        assert(x[0int + 0] == 'a');
        assert(t[p + 0] == x[0]);
        assert(enum_at(t, p) is None) by {
            if has_at(t, p, "enum["@) {
                lemma_has_at_chars(t, p, "enum["@);
                assert(t[p + 0] == 'e');
            }
        }
        assert forall|k: int| p + 6 <= k < p + hi implies is_word(#[trigger] t[k]) by {
            assert(t[p + (k - p)] == x[k - p]);
        }
        assert(t[p + hi] == x[hi]);
        lemma_word_end(t, p + 6, p + hi);
        lemma_has_at_inside(t, p, x, 0, "array["@);
        lemma_has_at_inside(t, p, x, hi, "]"@);
    } else {
        let n = primitive_len(x, 0)->0;
        assert(n == x.len());
        lemma_primitive_first(x, 0);
        lemma_primitive_first(t, p);
        assert(t[p + 0] == x[0]);
        assert(t[p + 1] == x[1]);
        assert(enum_at(t, p) is None) by {
            if has_at(t, p, "enum["@) {
                lemma_has_at_chars(t, p, "enum["@);
                assert(t[p + 0] == 'e');
            }
        }
        assert(array_at(t, p) is None) by {
            if has_at(t, p, "array["@) {
                lemma_has_at_chars(t, p, "array["@);
                assert(t[p + 0] == 'a');
            }
        }
        if n == 4 {
            lemma_has_at_inside(t, p, x, 0, "null"@);
        } else if n == 5 {
            lemma_has_at_inside(t, p, x, 0, "float"@);
        } else if n == 6 {
            lemma_has_at_inside(t, p, x, 0, "string"@);
        } else if n == 7 {
            lemma_has_at_inside(t, p, x, 0, "integer"@);
            lemma_has_at_inside(t, p, x, 0, "boolean"@);
        } else {
            lemma_has_at_inside(t, p, x, 0, "snowflake"@);
            lemma_has_at_inside(t, p, x, 0, "timestamp"@);
        }
    }
}

/// Whether `s` holds no space.
pub open spec fn spaceless(s: Seq<char>) -> bool {
    forall|j: int| 0 <= j < s.len() ==> #[trigger] s[j] != ' '
}

/// None of the words of the grammar holds a space, but for the one that
/// parts an enum's name from its base.
pub(crate) proof fn lemma_words_spaceless()
    ensures
        spaceless("enum["@),
        spaceless("array["@),
        spaceless("]"@),
        spaceless("string]"@),
        spaceless("integer]"@),
        spaceless("float]"@),
        spaceless("boolean]"@),
        spaceless("null"@),
        spaceless("string"@),
        spaceless("integer"@),
        spaceless("float"@),
        spaceless("boolean"@),
        spaceless("snowflake"@),
        spaceless("timestamp"@),
{
    reveal_strlit("enum[");
    reveal_strlit("array[");
    reveal_strlit("]");
    reveal_strlit("string]");
    reveal_strlit("integer]");
    reveal_strlit("float]");
    reveal_strlit("boolean]");
    reveal_strlit("null");
    reveal_strlit("string");
    reveal_strlit("integer");
    reveal_strlit("float");
    reveal_strlit("boolean");
    reveal_strlit("snowflake");
    reveal_strlit("timestamp");
}

/// Where a word without a space stands in `t` at `at`, `t` has no space
/// there.
pub(crate) proof fn lemma_spaceless_at(t: Seq<char>, at: int, lit: Seq<char>)
    requires
        has_at(t, at, lit),
        spaceless(lit),
    ensures
        forall|k: int| at <= k < at + lit.len() ==> #[trigger] t[k] != ' ',
{
    lemma_has_at_chars(t, at, lit);
    assert forall|k: int| at <= k < at + lit.len() implies #[trigger] t[k] != ' ' by {
        assert(t[at + (k - at)] == lit[k - at]);
    }
}

/// A piece does not begin with a space, and a space inside it stands behind
/// a semicolon.
pub proof fn lemma_piece_spaces(t: Seq<char>, q: int)
    requires
        0 <= q,
    ensures
        span_at(t, q) matches Some(m) ==> t[q] != ' ' && forall|k: int|
            q < k < m.end && #[trigger] t[k] == ' ' ==> t[k - 1] == ';',
{
    lemma_words_spaceless();
    lemma_span_at_bounds(t, q);
    reveal_strlit("enum[");
    reveal_strlit("array[");
    reveal_strlit("; ");
    reveal_strlit("]");
    reveal_strlit("string]");
    reveal_strlit("integer]");
    reveal_strlit("float]");
    reveal_strlit("boolean]");
    reveal_strlit("null");
    reveal_strlit("string");
    reveal_strlit("integer");
    reveal_strlit("float");
    reveal_strlit("boolean");
    reveal_strlit("snowflake");
    reveal_strlit("timestamp");
    if enum_at(t, q) is Some {
        let hi = name_end(t, q + 5);
        lemma_name_run(t, q + 5);
        lemma_spaceless_at(t, q, "enum["@);
        lemma_has_at_chars(t, hi, "; "@);
        assert(t[hi + 0] == ';');
        if has_at(t, hi + 2, "string]"@) {
            lemma_spaceless_at(t, hi + 2, "string]"@);
        } else if has_at(t, hi + 2, "integer]"@) {
            lemma_spaceless_at(t, hi + 2, "integer]"@);
        } else if has_at(t, hi + 2, "float]"@) {
            lemma_spaceless_at(t, hi + 2, "float]"@);
        } else {
            lemma_spaceless_at(t, hi + 2, "boolean]"@);
        }
    } else if array_at(t, q) is Some {
        let hi = word_end(t, q + 6);
        lemma_word_run(t, q + 6);
        lemma_spaceless_at(t, q, "array["@);
        lemma_spaceless_at(t, hi, "]"@);
    } else if primitive_at(t, q) is Some {
        if has_at(t, q, "null"@) {
            lemma_spaceless_at(t, q, "null"@);
        } else if has_at(t, q, "string"@) {
            lemma_spaceless_at(t, q, "string"@);
        } else if has_at(t, q, "integer"@) {
            lemma_spaceless_at(t, q, "integer"@);
        } else if has_at(t, q, "float"@) {
            lemma_spaceless_at(t, q, "float"@);
        } else if has_at(t, q, "boolean"@) {
            lemma_spaceless_at(t, q, "boolean"@);
        } else if has_at(t, q, "snowflake"@) {
            lemma_spaceless_at(t, q, "snowflake"@);
        } else {
            lemma_spaceless_at(t, q, "timestamp"@);
        }
    }
}

/// A piece that begins before a comma and a space does not reach behind
/// them.
pub proof fn lemma_piece_stops_at_comma(t: Seq<char>, q: int, p: int)
    requires
        0 <= q < p <= t.len(),
        2 <= p,
        t[p - 2] == ',',
        t[p - 1] == ' ',
    ensures
        span_at(t, q) matches Some(m) ==> m.end <= p,
{
    lemma_piece_spaces(t, q);
    if span_at(t, q) is Some {
        let m = span_at(t, q)->0;
        if m.end > p {
            if q < p - 1 {
                assert(t[p - 1] == ' ');
            }
        }
    }
}

/// The search from `from` finds the piece at `p` if no piece that begins
/// between them reaches behind `p`.
pub proof fn lemma_search_finds(t: Seq<char>, from: int, p: int)
    requires
        0 <= from <= p,
        span_at(t, p) is Some,
        forall|q: int| from <= q < p ==> (#[trigger] span_at(t, q) matches Some(m) ==> m.end <= p),
    ensures
        spans_from(t, from).contains(span_at(t, p)->0),
    decreases p - from,
{
    lemma_span_at_bounds(t, p);
    lemma_span_at_bounds(t, from);
    let found = span_at(t, p)->0;
    if from == p {
        assert(spans_from(t, from)[0] == found);
    } else {
        match span_at(t, from) {
            Some(m) => {
                lemma_search_finds(t, m.end, p);
                let rest = spans_from(t, m.end);
                let k = choose|k: int| 0 <= k < rest.len() && rest[k] == found;
                assert(spans_from(t, from)[k + 1] == found);
            },
            None => {
                lemma_search_finds(t, from + 1, p);
            },
        }
    }
}

/// The first two characters of a primitive literal that stands in `t` at
/// `at` tell which one it is.
pub(crate) proof fn lemma_primitive_first(t: Seq<char>, at: int)
    ensures
        has_at(t, at, "null"@) ==> t[at] == 'n' && t[at + 1] == 'u',
        has_at(t, at, "string"@) ==> t[at] == 's' && t[at + 1] == 't',
        has_at(t, at, "integer"@) ==> t[at] == 'i' && t[at + 1] == 'n',
        has_at(t, at, "float"@) ==> t[at] == 'f' && t[at + 1] == 'l',
        has_at(t, at, "boolean"@) ==> t[at] == 'b' && t[at + 1] == 'o',
        has_at(t, at, "snowflake"@) ==> t[at] == 's' && t[at + 1] == 'n',
        has_at(t, at, "timestamp"@) ==> t[at] == 't' && t[at + 1] == 'i',
{
    reveal_strlit("null");
    reveal_strlit("string");
    reveal_strlit("integer");
    reveal_strlit("float");
    reveal_strlit("boolean");
    reveal_strlit("snowflake");
    reveal_strlit("timestamp");
    if has_at(t, at, "null"@) {
        lemma_has_at_chars(t, at, "null"@);
        assert(t[at + 0] == 'n');
    }
    if has_at(t, at, "string"@) {
        lemma_has_at_chars(t, at, "string"@);
        assert(t[at + 0] == 's');
    }
    if has_at(t, at, "integer"@) {
        lemma_has_at_chars(t, at, "integer"@);
        assert(t[at + 0] == 'i');
    }
    if has_at(t, at, "float"@) {
        lemma_has_at_chars(t, at, "float"@);
        assert(t[at + 0] == 'f');
    }
    if has_at(t, at, "boolean"@) {
        lemma_has_at_chars(t, at, "boolean"@);
        assert(t[at + 0] == 'b');
    }
    if has_at(t, at, "snowflake"@) {
        lemma_has_at_chars(t, at, "snowflake"@);
        assert(t[at + 0] == 's');
    }
    if has_at(t, at, "timestamp"@) {
        lemma_has_at_chars(t, at, "timestamp"@);
        assert(t[at + 0] == 't');
    }
}

/// The first character of an enum base that stands in `t` at `at` tells
/// which one it is.
pub(crate) proof fn lemma_base_differ(t: Seq<char>, at: int)
    ensures
        has_at(t, at, "string]"@) ==> t[at] == 's',
        has_at(t, at, "integer]"@) ==> t[at] == 'i',
        has_at(t, at, "float]"@) ==> t[at] == 'f',
        has_at(t, at, "boolean]"@) ==> t[at] == 'b',
{
    reveal_strlit("string]");
    reveal_strlit("integer]");
    reveal_strlit("float]");
    reveal_strlit("boolean]");
    if has_at(t, at, "string]"@) {
        lemma_has_at_chars(t, at, "string]"@);
        assert(t[at + 0] == 's');
    }
    if has_at(t, at, "integer]"@) {
        lemma_has_at_chars(t, at, "integer]"@);
        assert(t[at + 0] == 'i');
    }
    if has_at(t, at, "float]"@) {
        lemma_has_at_chars(t, at, "float]"@);
        assert(t[at + 0] == 'f');
    }
    if has_at(t, at, "boolean]"@) {
        lemma_has_at_chars(t, at, "boolean]"@);
        assert(t[at + 0] == 'b');
    }
}

/// Whether the characters `lo..hi` of `cs` are those of `lit`.
pub fn range_is(cs: &Vec<char>, lo: usize, hi: usize, lit: &str) -> (r: bool)
    requires
        lo <= hi <= cs.len(),
    ensures
        r == (cs@.subrange(lo as int, hi as int) == lit@),
{
    hi - lo == lit.unicode_len() && starts_at(cs, lo, lit)
}

/// Whether the characters `lo..hi` of `cs` are one of the primitive literals.
pub fn range_is_primitive(cs: &Vec<char>, lo: usize, hi: usize) -> (r: bool)
    requires
        lo <= hi <= cs.len(),
    ensures
        r == is_primitive(cs@.subrange(lo as int, hi as int)),
{
    range_is(cs, lo, hi, "null") || range_is(cs, lo, hi, "string") || range_is(
        cs,
        lo,
        hi,
        "integer",
    ) || range_is(cs, lo, hi, "float") || range_is(cs, lo, hi, "boolean") || range_is(
        cs,
        lo,
        hi,
        "snowflake",
    ) || range_is(cs, lo, hi, "timestamp")
}

/// Finds [`name_end`].
fn scan_name(cs: &Vec<char>, from: usize) -> (r: usize)
    requires
        from <= cs.len(),
    ensures
        r == name_end(cs@, from as int),
        from <= r <= cs.len(),
{
    let mut k: usize = from;
    while k < cs.len() && !is_space_char(cs[k]) && cs[k] != ';'
        invariant
            from <= k <= cs.len(),
            name_end(cs@, from as int) == name_end(cs@, k as int),
        decreases cs.len() - k,
    {
        k += 1;
    }
    k
}

/// Finds [`word_end`].
fn scan_word(cs: &Vec<char>, from: usize) -> (r: usize)
    requires
        from <= cs.len(),
    ensures
        r == word_end(cs@, from as int),
        from <= r <= cs.len(),
{
    let mut k: usize = from;
    while k < cs.len() && is_word_char(cs[k])
        invariant
            from <= k <= cs.len(),
            word_end(cs@, from as int) == word_end(cs@, k as int),
        decreases cs.len() - k,
    {
        k += 1;
    }
    k
}

/// Finds [`base_len`].
fn find_base(cs: &Vec<char>, at: usize) -> (r: Option<usize>)
    ensures
        match r {
            Some(n) => base_len(cs@, at as int) == Some(n as int) && at + n < usize::MAX,
            None => base_len(cs@, at as int) is None,
        },
{
    proof {
        reveal_strlit("string]");
        reveal_strlit("integer]");
        reveal_strlit("float]");
        reveal_strlit("boolean]");
    }
    if starts_at(cs, at, "string]") {
        Some(6)
    } else if starts_at(cs, at, "integer]") {
        Some(7)
    } else if starts_at(cs, at, "float]") {
        Some(5)
    } else if starts_at(cs, at, "boolean]") {
        Some(7)
    } else {
        None
    }
}

/// Finds [`primitive_len`].
fn find_primitive_len(cs: &Vec<char>, at: usize) -> (r: Option<usize>)
    ensures
        match r {
            Some(n) => primitive_len(cs@, at as int) == Some(n as int) && at + n <= usize::MAX,
            None => primitive_len(cs@, at as int) is None,
        },
{
    proof {
        reveal_strlit("null");
        reveal_strlit("string");
        reveal_strlit("integer");
        reveal_strlit("float");
        reveal_strlit("boolean");
        reveal_strlit("snowflake");
        reveal_strlit("timestamp");
    }
    if starts_at(cs, at, "null") {
        Some(4)
    } else if starts_at(cs, at, "string") {
        Some(6)
    } else if starts_at(cs, at, "integer") {
        Some(7)
    } else if starts_at(cs, at, "float") {
        Some(5)
    } else if starts_at(cs, at, "boolean") {
        Some(7)
    } else if starts_at(cs, at, "snowflake") {
        Some(9)
    } else if starts_at(cs, at, "timestamp") {
        Some(9)
    } else {
        None
    }
}

/// Finds [`enum_at`].
fn find_enum(cs: &Vec<char>, at: usize) -> (r: Option<Capture>)
    ensures
        same_span(r, enum_at(cs@, at as int)),
{
    proof {
        reveal_strlit("enum[");
        reveal_strlit("; ");
        reveal_strlit("string]");
        reveal_strlit("integer]");
        reveal_strlit("float]");
        reveal_strlit("boolean]");
    }
    if !starts_at(cs, at, "enum[") {
        return None;
    }
    assert("enum["@.len() == 5);
    let lo: usize = at + 5;
    let hi: usize = scan_name(cs, lo);
    if hi == lo || !starts_at(cs, hi, "; ") {
        return None;
    }
    match find_base(cs, hi + 2) {
        Some(n) => Some(Capture { shape: Shape::Enum, lo, hi, end: hi + 2 + n + 1 }),
        None => None,
    }
}

/// Finds [`array_at`].
fn find_array(cs: &Vec<char>, at: usize) -> (r: Option<Capture>)
    ensures
        same_span(r, array_at(cs@, at as int)),
{
    proof {
        reveal_strlit("array[");
        reveal_strlit("]");
    }
    if !starts_at(cs, at, "array[") {
        return None;
    }
    assert("array["@.len() == 6);
    let lo: usize = at + 6;
    let hi: usize = scan_word(cs, lo);
    if hi == lo || !starts_at(cs, hi, "]") {
        return None;
    }
    Some(Capture { shape: Shape::Array, lo, hi, end: hi + 1 })
}

/// Finds [`primitive_at`].
fn find_primitive(cs: &Vec<char>, at: usize) -> (r: Option<Capture>)
    ensures
        same_span(r, primitive_at(cs@, at as int)),
{
    proof {
        reveal_strlit("null");
        reveal_strlit("string");
        reveal_strlit("integer");
        reveal_strlit("float");
        reveal_strlit("boolean");
        reveal_strlit("snowflake");
        reveal_strlit("timestamp");
    }
    match find_primitive_len(cs, at) {
        Some(n) => Some(Capture { shape: Shape::Primitive, lo: at, hi: at + n, end: at + n }),
        None => None,
    }
}

/// The piece of `cs` that begins at `at`, if one does.
pub fn match_at(cs: &Vec<char>, at: usize) -> (r: Option<Capture>)
    ensures
        same_span(r, span_at(cs@, at as int)),
{
    let e = find_enum(cs, at);
    if e.is_some() {
        return e;
    }
    let a = find_array(cs, at);
    if a.is_some() {
        return a;
    }
    find_primitive(cs, at)
}

/// The first piece of `cs` that begins at `from` or later, if there is one.
pub fn first_match(cs: &Vec<char>, from: usize) -> (r: Option<Capture>)
    ensures
        same_span(r, first_span(cs@, from as int)),
{
    let mut at: usize = from;
    while at < cs.len()
        invariant
            from <= at,
            first_span(cs@, from as int) == first_span(cs@, at as int),
        decreases cs.len() - at,
    {
        let m = match_at(cs, at);
        if m.is_some() {
            return m;
        }
        at += 1;
    }
    None
}

/// All pieces of `cs`, found one after the other from the start.
pub fn all_matches(cs: &Vec<char>) -> (r: Vec<Capture>)
    ensures
        spans_of(r@) == spans_from(cs@, 0),
{
    let mut found: Vec<Capture> = Vec::new();
    let mut at: usize = 0;
    while at < cs.len()
        invariant
            spans_from(cs@, 0) == spans_of(found@) + spans_from(cs@, at as int),
        decreases cs.len() - at,
    {
        match match_at(cs, at) {
            Some(m) => {
                proof {
                    lemma_span_at_bounds(cs@, at as int);
                    assert(spans_of(found@.push(m)) =~= spans_of(found@) + seq![m@]);
                    assert(spans_of(found@) + (seq![m@] + spans_from(cs@, m.end as int))
                        =~= spans_of(found@.push(m)) + spans_from(cs@, m.end as int));
                }
                found.push(m);
                at = m.end;
            },
            None => {
                at += 1;
            },
        }
    }
    assert(spans_of(found@) + spans_from(cs@, at as int) =~= spans_of(found@));
    found
}

} // verus!
