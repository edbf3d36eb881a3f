//! Field declarations: the shorthand line `<name> [?]<type>`, the field it
//! declares, and the table of declared fields in the order of their names.

use crate::text::{
    chars_of, is_space, is_space_char, lemma_lex_lt_asymmetric, lemma_lex_lt_transitive, lemma_lex_total,
    lex_lt, rank, skip_spaces, spaces_end, text_is, texts_view, trim, trimmed, Rank,
};
use vstd::prelude::*;
use vstd::string::*;

verus! {

/// A declared field: its type expression as it was written, and its two
/// flags.
#[derive(Clone, Debug, PartialEq, Eq)]
pub struct Field {
    pub typ: String,
    pub required: bool,
    pub nullable: bool,
}

/// What a [`Field`] holds.
pub struct FieldText {
    pub typ: Seq<char>,
    pub required: bool,
    pub nullable: bool,
}

impl View for Field {
    type V = FieldText;

    open spec fn view(&self) -> FieldText {
        FieldText { typ: self.typ@, required: self.required, nullable: self.nullable }
    }
}

/// A field under its name.
#[derive(Clone, Debug, PartialEq, Eq)]
pub struct Declaration {
    pub name: String,
    pub field: Field,
}

/// What a [`Declaration`] holds.
pub struct DeclarationText {
    pub name: Seq<char>,
    pub field: FieldText,
}

impl View for Declaration {
    type V = DeclarationText;

    open spec fn view(&self) -> DeclarationText {
        DeclarationText { name: self.name@, field: self.field@ }
    }
}

/// A line that is no declaration.
#[derive(Clone, Copy, Debug, PartialEq, Eq, Structural)]
pub struct NoDeclaration;

/// Whether `c` may stand in a name: a lowercase letter or the underscore.
pub open spec fn is_name_letter(c: char) -> bool {
    'a' <= c <= 'z' || c == '_'
}

/// Whether `c` may stand in the type of a declaration: a letter, a digit,
/// white space, a square bracket or a comma.
pub open spec fn is_type_char(c: char) -> bool {
    ||| 'a' <= c <= 'z'
    ||| 'A' <= c <= 'Z'
    ||| '0' <= c <= '9'
    ||| is_space(c)
    ||| c == '['
    ||| c == ']'
    ||| c == ','
}

/// The end of the longest run of name letters of `t` from `from`.
pub open spec fn letters_end(t: Seq<char>, from: int) -> int
    decreases t.len() - from,
{
    if 0 <= from < t.len() && is_name_letter(t[from]) {
        letters_end(t, from + 1)
    } else {
        from
    }
}

/// Whether `t` holds nothing but type characters from `from` on.
pub open spec fn all_type_chars(t: Seq<char>, from: int) -> bool {
    forall|i: int| from <= i < t.len() ==> is_type_char(#[trigger] t[i])
}

/// Whether `t` has a question mark at `at`.
pub open spec fn mark_at(t: Seq<char>, at: int) -> bool {
    0 <= at < t.len() && t[at] == '?'
}

/// The position behind an optional question mark at `at`.
pub open spec fn past_mark(t: Seq<char>, at: int) -> int {
    if mark_at(t, at) {
        at + 1
    } else {
        at
    }
}

/// Where the name of the line ends: behind its longest run of name letters.
pub open spec fn name_stop(line: Seq<char>) -> int {
    letters_end(line, 0)
}

/// Where the rest of the line begins: behind the name, an optional question
/// mark, and the white space that follows.
pub open spec fn rest_start(line: Seq<char>) -> int {
    spaces_end(line, past_mark(line, name_stop(line)))
}

/// Whether `line` is a declaration: a name, which may be empty; an optional
/// question mark; white space, at least one character of it; an optional
/// question mark; and type characters to the end of the line.
pub open spec fn is_declaration(line: Seq<char>) -> bool {
    &&& past_mark(line, name_stop(line)) < rest_start(line)
    &&& all_type_chars(line, past_mark(line, rest_start(line)))
}

/// The declaration that `line` holds, if it is one. The name is the run of
/// name letters. The field is nullable where a question mark stands right
/// before the type, and that mark is no part of the type. It is required
/// where anything follows the white space behind the name.
pub open spec fn declaration_of(line: Seq<char>) -> Option<DeclarationText> {
    if is_declaration(line) {
        Some(
            DeclarationText {
                name: line.take(name_stop(line)),
                field: FieldText {
                    typ: line.skip(past_mark(line, rest_start(line))),
                    required: rest_start(line) < line.len(),
                    nullable: mark_at(line, rest_start(line)),
                },
            },
        )
    } else {
        None
    }
}

/// A run of name letters from `from` that stops at `to` is the longest.
proof fn lemma_letters_end(t: Seq<char>, from: int, to: int)
    requires
        0 <= from <= to <= t.len(),
        forall|k: int| from <= k < to ==> is_name_letter(#[trigger] t[k]),
        to < t.len() ==> !is_name_letter(t[to]),
    ensures
        letters_end(t, from) == to,
    decreases to - from,
{
    if from < to {
        lemma_letters_end(t, from + 1, to);
    }
}

/// A run of white space from `from` that stops at `to` is the longest.
proof fn lemma_spaces_end(t: Seq<char>, from: int, to: int)
    requires
        0 <= from <= to <= t.len(),
        forall|k: int| from <= k < to ==> is_space(#[trigger] t[k]),
        to < t.len() ==> !is_space(t[to]),
    ensures
        spaces_end(t, from) == to,
    decreases to - from,
{
    if from < to {
        lemma_spaces_end(t, from + 1, to);
    }
}

/// Whether `name` holds nothing but name letters.
pub open spec fn is_name(name: Seq<char>) -> bool {
    forall|k: int| 0 <= k < name.len() ==> is_name_letter(#[trigger] name[k])
}

/// Whether `gap` is white space, at least one character of it.
pub open spec fn is_gap(gap: Seq<char>) -> bool {
    gap.len() > 0 && forall|k: int| 0 <= k < gap.len() ==> is_space(#[trigger] gap[k])
}

/// Whether `typ` is a type as a line may hold it: type characters, the first
/// of which, if there is one, is no white space.
pub open spec fn is_written_type(typ: Seq<char>) -> bool {
    all_type_chars(typ, 0) && (typ.len() > 0 ==> !is_space(typ[0]))
}

/// A line made of a name, white space and a type that is not empty declares
/// a field of that name and type that is required and not nullable.
pub proof fn lemma_plain_line(name: Seq<char>, gap: Seq<char>, typ: Seq<char>)
    requires
        is_name(name),
        is_gap(gap),
        is_written_type(typ),
        typ.len() > 0,
    ensures
        declaration_of(name + gap + typ) == Some(
            DeclarationText { name, field: FieldText { typ, required: true, nullable: false } },
        ),
{
    let line = name + gap + typ;
    let n = name.len() as int;
    let w = n + gap.len();
    assert(is_type_char(typ[0]));
    assert(line[w] == typ[0]);
    assert(line[n] == gap[0]);
    assert forall|k: int| 0 <= k < n implies is_name_letter(#[trigger] line[k]) by {
        assert(line[k] == name[k]);
    }
    lemma_letters_end(line, 0, n);
    assert forall|k: int| n <= k < w implies is_space(#[trigger] line[k]) by {
        assert(line[k] == gap[k - n]);
    }
    lemma_spaces_end(line, n, w);
    assert forall|i: int| w <= i < line.len() implies is_type_char(#[trigger] line[i]) by {
        assert(line[i] == typ[i - w]);
    }
    assert(line.take(n) =~= name);
    assert(line.skip(w) =~= typ);
}

/// A line made of a name, white space, a question mark and a type declares a
/// field of that name and type that is required and nullable; the mark is no
/// part of the type.
pub proof fn lemma_nullable_line(name: Seq<char>, gap: Seq<char>, typ: Seq<char>)
    requires
        is_name(name),
        is_gap(gap),
        all_type_chars(typ, 0),
    ensures
        declaration_of(name + gap + seq!['?'] + typ) == Some(
            DeclarationText { name, field: FieldText { typ, required: true, nullable: true } },
        ),
{
    let line = name + gap + seq!['?'] + typ;
    let n = name.len() as int;
    let w = n + gap.len();
    assert(line[w] == '?');
    assert(line[n] == gap[0]);
    assert forall|k: int| 0 <= k < n implies is_name_letter(#[trigger] line[k]) by {
        assert(line[k] == name[k]);
    }
    lemma_letters_end(line, 0, n);
    assert forall|k: int| n <= k < w implies is_space(#[trigger] line[k]) by {
        assert(line[k] == gap[k - n]);
    }
    lemma_spaces_end(line, n, w);
    assert forall|i: int| w + 1 <= i < line.len() implies is_type_char(#[trigger] line[i]) by {
        assert(line[i] == typ[i - w - 1]);
    }
    assert(line.take(n) =~= name);
    assert(line.skip(w + 1) =~= typ);
}

/// Finds [`letters_end`].
fn skip_letters(cs: &Vec<char>, from: usize) -> (r: usize)
    requires
        from <= cs.len(),
    ensures
        r == letters_end(cs@, from as int),
        from <= r <= cs.len(),
{
    let mut k: usize = from;
    while k < cs.len() && (('a' <= cs[k] && cs[k] <= 'z') || cs[k] == '_')
        invariant
            from <= k <= cs.len(),
            letters_end(cs@, from as int) == letters_end(cs@, k as int),
        decreases cs.len() - k,
    {
        k += 1;
    }
    k
}

/// Decides [`is_type_char`].
fn is_type_character(c: char) -> (r: bool)
    ensures
        r == is_type_char(c),
{
    ('a' <= c && c <= 'z') || ('A' <= c && c <= 'Z') || ('0' <= c && c <= '9') || is_space_char(c)
        || c == '[' || c == ']' || c == ','
}

/// Decides [`all_type_chars`].
fn only_type_chars(cs: &Vec<char>, from: usize) -> (r: bool)
    requires
        from <= cs.len(),
    ensures
        r == all_type_chars(cs@, from as int),
{
    let mut k: usize = from;
    while k < cs.len()
        invariant
            from <= k <= cs.len(),
            forall|i: int| from <= i < k ==> is_type_char(#[trigger] cs@[i]),
        decreases cs.len() - k,
    {
        if !is_type_character(cs[k]) {
            return false;
        }
        k += 1;
    }
    true
}

/// Finds [`past_mark`].
fn skip_mark(cs: &Vec<char>, at: usize) -> (r: usize)
    requires
        at <= cs.len(),
    ensures
        r == past_mark(cs@, at as int),
        at <= r <= cs.len(),
{
    if at < cs.len() && cs[at] == '?' {
        at + 1
    } else {
        at
    }
}

/// Parses one line of shorthand.
///
/// Succeeds exactly on the lines that are declarations, with the name, the
/// type as written and the two flags of [`declaration_of`].
pub fn parse_line(line: &str) -> (r: Result<Declaration, NoDeclaration>)
    ensures
        match r {
            Ok(d) => declaration_of(line@) == Some(d@),
            Err(_) => declaration_of(line@) is None,
        },
{
    let cs = chars_of(line);
    let name_end = skip_letters(&cs, 0);
    let marked = skip_mark(&cs, name_end);
    let rest = skip_spaces(&cs, marked);
    if rest == marked {
        return Err(NoDeclaration);
    }
    let start = skip_mark(&cs, rest);
    if !only_type_chars(&cs, start) {
        return Err(NoDeclaration);
    }
    let name = line.substring_char(0, name_end).to_owned();
    let typ = line.substring_char(start, cs.len()).to_owned();
    assert(line@.subrange(0, name_end as int) =~= line@.take(name_end as int));
    assert(line@.subrange(start as int, cs@.len() as int) =~= line@.skip(start as int));
    Ok(Declaration { name, field: Field { typ, required: rest < cs.len(), nullable: start > rest } })
}

/// Whether the names of `s` stand in strictly increasing order.
pub open spec fn names_increase(s: Seq<DeclarationText>) -> bool {
    forall|i: int, j: int| 0 <= i < j < s.len() ==> lex_lt(#[trigger] s[i].name, #[trigger] s[j].name)
}

/// The declarations `s`, held in the order of their names, with `d` put
/// among them: in the place of the declaration of the same name where there
/// is one, else before the first whose name does not stand before its own.
pub open spec fn put(s: Seq<DeclarationText>, d: DeclarationText) -> Seq<DeclarationText>
    decreases s.len(),
{
    if s.len() == 0 {
        seq![d]
    } else if lex_lt(s[0].name, d.name) {
        seq![s[0]] + put(s.drop_first(), d)
    } else if s[0].name == d.name {
        seq![d] + s.drop_first()
    } else {
        seq![d] + s
    }
}

/// Where `p` is the first place of `s` whose name does not stand before that
/// of `d`, [`put`] replaces the declaration at `p` if it has the name of
/// `d`, and else inserts `d` at `p`.
proof fn lemma_put_at(s: Seq<DeclarationText>, d: DeclarationText, p: int)
    requires
        0 <= p <= s.len(),
        forall|i: int| 0 <= i < p ==> lex_lt(#[trigger] s[i].name, d.name),
        p < s.len() ==> !lex_lt(s[p].name, d.name),
    ensures
        put(s, d) == if p < s.len() && s[p].name == d.name {
            s.update(p, d)
        } else {
            s.insert(p, d)
        },
    decreases p,
{
    if p == 0 {
        if s.len() == 0 {
            assert(s.insert(0, d) =~= seq![d]);
        } else if s[0].name == d.name {
            assert(s.update(0, d) =~= seq![d] + s.drop_first());
        } else {
            assert(s.insert(0, d) =~= seq![d] + s);
        }
    } else {
        let rest = s.drop_first();
        assert forall|i: int| 0 <= i < p - 1 implies lex_lt(#[trigger] rest[i].name, d.name) by {
            assert(rest[i] == s[i + 1]);
        }
        lemma_put_at(rest, d, p - 1);
        if p < s.len() && s[p].name == d.name {
            assert(seq![s[0]] + rest.update(p - 1, d) =~= s.update(p, d));
        } else {
            assert(seq![s[0]] + rest.insert(p - 1, d) =~= s.insert(p, d));
        }
    }
}

/// [`put`] keeps the names in strictly increasing order.
pub proof fn lemma_put_keeps_order(s: Seq<DeclarationText>, d: DeclarationText)
    requires
        names_increase(s),
    ensures
        names_increase(put(s, d)),
    decreases s.len(),
{
    if s.len() == 0 {
    } else if lex_lt(s[0].name, d.name) {
        let rest = s.drop_first();
        assert(names_increase(rest)) by {
            assert forall|i: int, j: int| 0 <= i < j < rest.len() implies lex_lt(
                #[trigger] rest[i].name,
                #[trigger] rest[j].name,
            ) by {
                assert(rest[i] == s[i + 1] && rest[j] == s[j + 1]);
            }
        }
        lemma_put_keeps_order(rest, d);
        lemma_put_first(rest, d);
        let tail = put(rest, d);
        let all = seq![s[0]] + tail;
        assert forall|i: int, j: int| 0 <= i < j < all.len() implies lex_lt(
            #[trigger] all[i].name,
            #[trigger] all[j].name,
        ) by {
            if i == 0 {
                assert(all[j] == tail[j - 1]);
                if tail[j - 1] != d {
                    let k = choose|k: int| 0 <= k < rest.len() && rest[k] == tail[j - 1];
                    assert(rest[k] == s[k + 1]);
                }
            } else {
                assert(all[i] == tail[i - 1] && all[j] == tail[j - 1]);
            }
        }
    } else if s[0].name == d.name {
        let all = seq![d] + s.drop_first();
        assert forall|i: int, j: int| 0 <= i < j < all.len() implies lex_lt(
            #[trigger] all[i].name,
            #[trigger] all[j].name,
        ) by {
            assert(all[j] == s[j]);
            assert(all[i].name == s[i].name);
        }
    } else {
        lemma_lex_total(s[0].name, d.name);
        let all = seq![d] + s;
        assert forall|i: int, j: int| 0 <= i < j < all.len() implies lex_lt(
            #[trigger] all[i].name,
            #[trigger] all[j].name,
        ) by {
            assert(all[j] == s[j - 1]);
            if i == 0 {
                if j > 1 {
                    lemma_lex_lt_transitive(d.name, s[0].name, s[j - 1].name);
                }
            } else {
                assert(all[i] == s[i - 1]);
            }
        }
    }
}

/// Every declaration of [`put`] is `d` or one of `s`.
proof fn lemma_put_first(s: Seq<DeclarationText>, d: DeclarationText)
    ensures
        forall|j: int|
            0 <= j < put(s, d).len() ==> #[trigger] put(s, d)[j] == d || exists|k: int|
                0 <= k < s.len() && s[k] == put(s, d)[j],
    decreases s.len(),
{
    if s.len() == 0 {
    } else if lex_lt(s[0].name, d.name) {
        let rest = s.drop_first();
        lemma_put_first(rest, d);
        let tail = put(rest, d);
        assert forall|j: int| 0 <= j < put(s, d).len() implies #[trigger] put(s, d)[j] == d
            || exists|k: int| 0 <= k < s.len() && s[k] == put(s, d)[j] by {
            if j == 0 {
                assert(s[0] == put(s, d)[j]);
            } else {
                assert(put(s, d)[j] == tail[j - 1]);
                if tail[j - 1] != d {
                    let k = choose|k: int| 0 <= k < rest.len() && rest[k] == tail[j - 1];
                    assert(s[k + 1] == put(s, d)[j]);
                }
            }
        }
    } else if s[0].name == d.name {
        assert forall|j: int| 0 <= j < put(s, d).len() implies #[trigger] put(s, d)[j] == d
            || exists|k: int| 0 <= k < s.len() && s[k] == put(s, d)[j] by {
            if j > 0 {
                assert(s[j] == put(s, d)[j]);
            }
        }
    } else {
        assert forall|j: int| 0 <= j < put(s, d).len() implies #[trigger] put(s, d)[j] == d
            || exists|k: int| 0 <= k < s.len() && s[k] == put(s, d)[j] by {
            if j > 0 {
                assert(s[j - 1] == put(s, d)[j]);
            }
        }
    }
}

/// The field that `s` holds under `name`, if it holds one.
pub open spec fn field_of(s: Seq<DeclarationText>, name: Seq<char>) -> Option<FieldText>
    decreases s.len(),
{
    if s.len() == 0 {
        None
    } else if s[0].name == name {
        Some(s[0].field)
    } else {
        field_of(s.drop_first(), name)
    }
}

/// After [`put`] the name of `d` holds the field of `d`, whatever it held
/// before, and every other name holds what it held.
pub proof fn lemma_put_overwrites(s: Seq<DeclarationText>, d: DeclarationText, name: Seq<char>)
    ensures
        field_of(put(s, d), name) == if name == d.name {
            Some(d.field)
        } else {
            field_of(s, name)
        },
    decreases s.len(),
{
    if s.len() == 0 {
        assert(put(s, d).drop_first() =~= s);
    } else if lex_lt(s[0].name, d.name) {
        lemma_lex_lt_asymmetric(s[0].name, d.name);
        lemma_put_overwrites(s.drop_first(), d, name);
        assert(put(s, d).drop_first() =~= put(s.drop_first(), d));
    } else if s[0].name == d.name {
        assert(put(s, d).drop_first() =~= s.drop_first());
    } else {
        assert(put(s, d).drop_first() =~= s);
    }
}

/// The declared fields, one under each name, in the order of the names.
#[derive(Clone, Debug, PartialEq, Eq)]
pub struct FieldTable {
    entries: Vec<Declaration>,
}

impl View for FieldTable {
    type V = Seq<DeclarationText>;

    closed spec fn view(&self) -> Seq<DeclarationText> {
        self.entries@.map_values(|d: Declaration| d@)
    }
}

impl FieldTable {
    /// Whether the table is well formed: its names stand in strictly
    /// increasing order, so no name occurs twice.
    pub open spec fn wf(&self) -> bool {
        names_increase(self@)
    }

    /// The table without a declaration.
    pub fn new() -> (r: FieldTable)
        ensures
            r@ == Seq::<DeclarationText>::empty(),
            r.wf(),
    {
        let r = FieldTable { entries: Vec::new() };
        assert(r@ =~= Seq::<DeclarationText>::empty());
        r
    }

    /// The declarations in the order of their names.
    pub fn entries(&self) -> (r: &Vec<Declaration>)
        ensures
            r@.map_values(|d: Declaration| d@) == self@,
    {
        &self.entries
    }

    /// The field under `name`, if the table holds one.
    pub fn get(&self, name: &str) -> (r: Option<&Field>)
        ensures
            match r {
                Some(f) => field_of(self@, name@) == Some(f@),
                None => field_of(self@, name@) is None,
            },
    {
        let ghost s = self@;
        let mut k: usize = 0;
        assert(s.skip(0) =~= s);
        while k < self.entries.len()
            invariant
                k <= self.entries.len(),
                s == self@,
                field_of(s, name@) == field_of(s.skip(k as int), name@),
            decreases self.entries.len() - k,
        {
            assert(s.skip(k as int).drop_first() =~= s.skip(k + 1));
            if text_is(&self.entries[k].name, name) {
                return Some(&self.entries[k].field);
            }
            k += 1;
        }
        None
    }

    /// Puts `d` into the table; a declaration of the same name gives way.
    pub fn insert(&mut self, d: Declaration)
        requires
            old(self).wf(),
        ensures
            final(self)@ == put(old(self)@, d@),
            final(self).wf(),
    {
        proof {
            lemma_put_keeps_order(self@, d@);
        }
        let ghost s = self@;
        let name = chars_of(d.name.as_str());
        let mut p: usize = 0;
        let mut same: bool = false;
        while p < self.entries.len()
            invariant_except_break
                !same,
            invariant
                p <= self.entries.len(),
                s == self@,
                name@ == d.name@,
                forall|i: int| 0 <= i < p ==> lex_lt(#[trigger] s[i].name, d.name@),
            ensures
                p <= self.entries.len(),
                s == self@,
                forall|i: int| 0 <= i < p ==> lex_lt(#[trigger] s[i].name, d.name@),
                p < s.len() ==> !lex_lt(s[p as int].name, d.name@),
                same == (p < s.len() && s[p as int].name == d.name@),
            decreases self.entries.len() - p,
        {
            let other = chars_of(self.entries[p].name.as_str());
            assert(other@ == s[p as int].name);
            match rank(&other, &name) {
                Rank::Before => {
                    p += 1;
                },
                Rank::Same => {
                    proof {
                        if lex_lt(other@, name@) {
                            lemma_lex_lt_asymmetric(other@, name@);
                        }
                    }
                    same = true;
                    break ;
                },
                Rank::After => {
                    proof {
                        lemma_lex_lt_asymmetric(name@, other@);
                    }
                    break ;
                },
            }
        }
        proof {
            lemma_put_at(s, d@, p as int);
        }
        if same {
            assert(self.entries@.update(p as int, d).map_values(|d: Declaration| d@) =~= s.update(
                p as int,
                d@,
            ));
            self.entries.set(p, d);
        } else {
            assert(self.entries@.insert(p as int, d).map_values(|d: Declaration| d@) =~= s.insert(
                p as int,
                d@,
            ));
            self.entries.insert(p, d);
        }
    }
}

/// A line of an input that is no declaration, by its index.
#[derive(Clone, Copy, Debug, PartialEq, Eq, Structural)]
pub struct LineError {
    pub line: usize,
}

/// The table that the lines `lines` declare, if each of them, without the
/// white space at its ends, is a declaration: the declarations are put into
/// the table one after the other, so of two with one name the later stays.
pub open spec fn table_of(lines: Seq<Seq<char>>) -> Option<Seq<DeclarationText>>
    decreases lines.len(),
{
    if lines.len() == 0 {
        Some(Seq::empty())
    } else {
        match (table_of(lines.drop_last()), declaration_of(trimmed(lines.last()))) {
            (Some(t), Some(d)) => Some(put(t, d)),
            _ => None,
        }
    }
}

/// Where one of the first `k` lines is no declaration, the lines as a whole
/// declare no table.
proof fn lemma_table_of_stops(lines: Seq<Seq<char>>, k: int)
    requires
        0 <= k <= lines.len(),
        table_of(lines.take(k)) is None,
    ensures
        table_of(lines) is None,
    decreases lines.len() - k,
{
    if k < lines.len() {
        assert(lines.take(k + 1).drop_last() =~= lines.take(k));
        lemma_table_of_stops(lines, k + 1);
    } else {
        assert(lines.take(k) =~= lines);
    }
}

/// Parses the lines of an input into the table of the fields they declare.
///
/// Fails at the first line that is no declaration.
pub fn parse_fields(lines: &Vec<String>) -> (r: Result<FieldTable, LineError>)
    ensures
        match r {
            Ok(t) => table_of(texts_view(lines@)) == Some(t@) && t.wf(),
            Err(e) => {
                &&& e.line < lines.len()
                &&& declaration_of(trimmed(lines[e.line as int]@)) is None
                &&& forall|j: int|
                    0 <= j < e.line ==> declaration_of(trimmed(#[trigger] lines[j]@)) is Some
                &&& table_of(texts_view(lines@)) is None
            },
        },
{
    let ghost texts = texts_view(lines@);
    let mut table = FieldTable::new();
    let mut i: usize = 0;
    while i < lines.len()
        invariant
            i <= lines.len(),
            texts == texts_view(lines@),
            table_of(texts.take(i as int)) == Some(table@),
            table.wf(),
            forall|j: int| 0 <= j < i ==> declaration_of(trimmed(#[trigger] lines[j]@)) is Some,
        decreases lines.len() - i,
    {
        assert(texts.take(i + 1).drop_last() =~= texts.take(i as int));
        assert(texts[i as int] == lines[i as int]@);
        match parse_line(trim(lines[i].as_str())) {
            Ok(d) => {
                table.insert(d);
            },
            Err(_) => {
                proof {
                    lemma_table_of_stops(texts, i + 1);
                }
                return Err(LineError { line: i });
            },
        }
        i += 1;
    }
    assert(texts.take(lines.len() as int) =~= texts);
    Ok(table)
}

} // verus!
