//! The text of a field and of a table of fields.

use crate::field::{
    all_type_chars, declaration_of, is_gap, is_name, lemma_nullable_line, parse_fields, table_of,
    Declaration, DeclarationText, Field, FieldTable, FieldText, LineError,
};
use crate::text::{chars_of, has_at, starts_at, texts_view, trimmed};
use vstd::prelude::*;
use vstd::string::*;

verus! {

/// Whether the type expression `t` is written as a union.
pub open spec fn is_union(t: Seq<char>) -> bool {
    has_at(t, 0, "union["@)
}

/// The type of `f` as it is shown. That of a field that is not nullable is
/// shown as written. That of a nullable field is shown as a union with
/// `null`: a type that is written as a union gets `null` as one more
/// alternative in the place of its last character, the closing bracket; any
/// other type becomes the first alternative of a new union.
pub open spec fn shown_type(f: FieldText) -> Seq<char> {
    if !f.nullable {
        f.typ
    } else if is_union(f.typ) {
        f.typ.drop_last() + ", null]"@
    } else {
        "union["@ + f.typ + ", null]"@
    }
}

/// A nullable field whose type is written as a union is shown with `null`
/// as one more alternative, once: the text before the last character of the
/// type stays as it is, and `, null]` follows it. Where the type ends in its
/// closing bracket, what is shown is again written as a union and ends in
/// that bracket, so nothing is wrapped around the union.
pub proof fn lemma_union_gets_one_null(typ: Seq<char>, required: bool)
    requires
        is_union(typ),
    ensures
        ({
            let shown = shown_type(FieldText { typ, required, nullable: true });
            &&& shown == typ.drop_last() + ", null]"@
            &&& shown.len() == typ.len() + 6
            &&& shown.take(typ.len() - 1) == typ.drop_last()
            &&& typ.last() == ']' ==> is_union(shown) && shown == typ.drop_last() + ", null"@
                + seq![typ.last()]
        }),
{
    reveal_strlit("union[");
    reveal_strlit(", null]");
    reveal_strlit(", null");
    let shown = shown_type(FieldText { typ, required, nullable: true });
    assert(shown.take(typ.len() - 1) =~= typ.drop_last());
    if typ.last() == ']' {
        assert(typ.len() > 6) by {
            assert(typ.subrange(0, 6)[5] == '[');
        }
        assert(shown.subrange(0, 6) =~= typ.subrange(0, 6));
        assert(shown =~= typ.drop_last() + ", null"@ + seq![typ.last()]);
    }
}

/// A nullable field whose type is not written as a union is shown as the
/// union of that type and `null`.
pub proof fn lemma_plain_type_is_wrapped(typ: Seq<char>, required: bool)
    requires
        !is_union(typ),
    ensures
        ({
            let shown = shown_type(FieldText { typ, required, nullable: true });
            &&& shown == "union["@ + typ + ", null]"@
            &&& is_union(shown)
        }),
{
    reveal_strlit("union[");
    let shown = shown_type(FieldText { typ, required, nullable: true });
    assert(shown.subrange(0, 6) =~= "union["@);
}

/// A line made of a name, white space, a question mark and a type declares
/// a nullable field, which is shown as a union with `null`: the type itself
/// with `null` as one more alternative where it is written as a union, else
/// the union of the type and `null`.
pub proof fn lemma_nullable_line_is_shown_as_union(
    name: Seq<char>,
    gap: Seq<char>,
    typ: Seq<char>,
)
    requires
        is_name(name),
        is_gap(gap),
        all_type_chars(typ, 0),
    ensures
        declaration_of(name + gap + seq!['?'] + typ) matches Some(d) && d.field.nullable
            && shown_type(d.field) == if is_union(typ) {
            typ.drop_last() + ", null]"@
        } else {
            "union["@ + typ + ", null]"@
        },
{
    lemma_nullable_line(name, gap, typ);
}

/// `true` or `false`.
pub open spec fn bool_text(b: bool) -> Seq<char> {
    if b {
        "true"@
    } else {
        "false"@
    }
}

/// The block of `f`: its shown type and its two flags, one to a line behind
/// a tab, between braces.
pub open spec fn field_text(f: FieldText) -> Seq<char> {
    "{\n\t\"type\": \""@ + shown_type(f) + "\",\n\t\"required\": "@ + bool_text(f.required)
        + ",\n\t\"nullable\": "@ + bool_text(f.nullable) + "\n}"@
}

/// `s` with four spaces behind each of its line feeds.
pub open spec fn indented(s: Seq<char>) -> Seq<char>
    decreases s.len(),
{
    if s.len() == 0 {
        Seq::empty()
    } else if s.last() == '\n' {
        indented(s.drop_last()) + "\n    "@
    } else {
        indented(s.drop_last()).push(s.last())
    }
}

/// The entry of `d` in a table: four spaces, the name between double quotes,
/// a colon, and the block of the field with each of its lines but the first
/// four spaces further in.
pub open spec fn entry_text(d: DeclarationText) -> Seq<char> {
    "    \""@ + d.name + "\": {\n    \t\"type\": \""@ + indented(shown_type(d.field))
        + "\",\n    \t\"required\": "@ + bool_text(d.field.required) + ",\n    \t\"nullable\": "@
        + bool_text(d.field.nullable) + "\n    }"@
}

/// Whether `s` holds no line feed.
pub open spec fn one_line(s: Seq<char>) -> bool {
    forall|j: int| 0 <= j < s.len() ==> #[trigger] s[j] != '\n'
}

/// Indenting leaves a text without a line feed as it is.
proof fn lemma_indented_one_line(s: Seq<char>)
    requires
        one_line(s),
    ensures
        indented(s) == s,
    decreases s.len(),
{
    if s.len() > 0 {
        assert(s.last() == s[s.len() - 1]);
        assert forall|j: int| 0 <= j < s.drop_last().len() implies #[trigger] s.drop_last()[j]
            != '\n' by {
            assert(s.drop_last()[j] == s[j]);
        }
        lemma_indented_one_line(s.drop_last());
        assert(s.drop_last().push(s.last()) =~= s);
    }
}

/// Indenting goes part by part.
proof fn lemma_indented_parts(a: Seq<char>, b: Seq<char>)
    ensures
        indented(a + b) == indented(a) + indented(b),
    decreases b.len(),
{
    if b.len() == 0 {
        assert(a + b =~= a);
        assert(indented(a) + indented(b) =~= indented(a));
    } else {
        assert((a + b).drop_last() =~= a + b.drop_last());
        assert((a + b).last() == b.last());
        lemma_indented_parts(a, b.drop_last());
        if b.last() == '\n' {
            assert((indented(a) + indented(b.drop_last())) + "\n    "@ =~= indented(a) + (indented(
                b.drop_last(),
            ) + "\n    "@));
        } else {
            assert((indented(a) + indented(b.drop_last())).push(b.last()) =~= indented(a)
                + indented(b.drop_last()).push(b.last()));
        }
    }
}

/// Indenting a line feed before a text without one puts the four spaces
/// between them.
proof fn lemma_indented_line(before: Seq<char>, after: Seq<char>)
    requires
        one_line(before),
        one_line(after),
    ensures
        indented(before + seq!['\n'] + after) == before + "\n    "@ + after,
{
    reveal_strlit("\n    ");
    lemma_indented_parts(before + seq!['\n'], after);
    lemma_indented_parts(before, seq!['\n']);
    lemma_indented_one_line(before);
    lemma_indented_one_line(after);
    assert(seq!['\n'].drop_last() =~= Seq::<char>::empty());
    assert(indented(seq!['\n']) =~= "\n    "@) by {
        reveal_with_fuel(indented, 2);
    }
}

/// The entry of a declaration in a table is its name before its block, all
/// of it four spaces in: four spaces stand before the entry and behind
/// every line feed of the block.
pub proof fn lemma_entry_is_indented_block(d: DeclarationText)
    ensures
        entry_text(d) == "    \""@ + d.name + "\": "@ + indented(field_text(d.field)),
{
    reveal_strlit("    \"");
    reveal_strlit("\": ");
    reveal_strlit("\n    ");
    reveal_strlit("{\n\t\"type\": \"");
    reveal_strlit("\",\n\t\"required\": ");
    reveal_strlit(",\n\t\"nullable\": ");
    reveal_strlit("\n}");
    reveal_strlit("\": {\n    \t\"type\": \"");
    reveal_strlit("\",\n    \t\"required\": ");
    reveal_strlit(",\n    \t\"nullable\": ");
    reveal_strlit("\n    }");
    reveal_strlit("true");
    reveal_strlit("false");
    reveal_strlit("{");
    reveal_strlit("\t\"type\": \"");
    reveal_strlit("\",");
    reveal_strlit("\t\"required\": ");
    reveal_strlit(",");
    reveal_strlit("\t\"nullable\": ");
    reveal_strlit("}");
    let f = d.field;
    let shown = shown_type(f);
    let r = bool_text(f.required);
    let n = bool_text(f.nullable);
    let l1 = "{\n\t\"type\": \""@;
    let l2 = "\",\n\t\"required\": "@;
    let l3 = ",\n\t\"nullable\": "@;
    let l4 = "\n}"@;
    assert(l1 =~= "{"@ + seq!['\n'] + "\t\"type\": \""@);
    assert(l2 =~= "\","@ + seq!['\n'] + "\t\"required\": "@);
    assert(l3 =~= ","@ + seq!['\n'] + "\t\"nullable\": "@);
    assert(l4 =~= Seq::<char>::empty() + seq!['\n'] + "}"@);
    lemma_indented_line("{"@, "\t\"type\": \""@);
    lemma_indented_line("\","@, "\t\"required\": "@);
    lemma_indented_line(","@, "\t\"nullable\": "@);
    lemma_indented_line(Seq::<char>::empty(), "}"@);
    lemma_indented_one_line(r);
    lemma_indented_one_line(n);
    lemma_indented_parts(l1 + shown + l2 + r + l3 + n, l4);
    lemma_indented_parts(l1 + shown + l2 + r + l3, n);
    lemma_indented_parts(l1 + shown + l2 + r, l3);
    lemma_indented_parts(l1 + shown + l2, r);
    lemma_indented_parts(l1 + shown, l2);
    lemma_indented_parts(l1, shown);
    assert(entry_text(d) =~= "    \""@ + d.name + "\": "@ + (indented(l1) + indented(shown)
        + indented(l2) + r + indented(l3) + n + indented(l4)));
}

/// The entries of `ds`, each on a line of its own, with a comma between one
/// and the next.
pub open spec fn entries_text(ds: Seq<DeclarationText>) -> Seq<char>
    decreases ds.len(),
{
    if ds.len() == 0 {
        Seq::empty()
    } else if ds.len() == 1 {
        "\n"@ + entry_text(ds.last())
    } else {
        entries_text(ds.drop_last()) + ",\n"@ + entry_text(ds.last())
    }
}

/// What stands before the opening brace of a table: nothing, or the given
/// name between double quotes and a colon.
pub open spec fn heading(name: Option<Seq<char>>) -> Seq<char> {
    match name {
        Some(n) => "\""@ + n + "\": "@,
        None => Seq::empty(),
    }
}

/// The text of the table `ds` under the optional name `name`.
pub open spec fn table_text(name: Option<Seq<char>>, ds: Seq<DeclarationText>) -> Seq<char> {
    heading(name) + "{"@ + entries_text(ds) + "\n}"@
}

/// The type of `f` as it is shown.
pub fn render_type(f: &Field) -> (r: String)
    ensures
        r@ == shown_type(f@),
{
    if !f.nullable {
        return f.typ.clone();
    }
    let typ = f.typ.as_str();
    let cs = chars_of(typ);
    if starts_at(&cs, 0, "union[") {
        proof {
            reveal_strlit("union[");
        }
        let mut out = typ.substring_char(0, cs.len() - 1).to_owned();
        out.append(", null]");
        assert(typ@.subrange(0, cs@.len() - 1) =~= typ@.drop_last());
        out
    } else {
        let mut out = "union[".to_owned();
        out.append(typ);
        out.append(", null]");
        out
    }
}

/// Writes `true` or `false`.
fn bool_str(b: bool) -> (r: &'static str)
    ensures
        r@ == bool_text(b),
{
    if b {
        "true"
    } else {
        "false"
    }
}

/// The block of `f`.
pub fn render_field(f: &Field) -> (r: String)
    ensures
        r@ == field_text(f@),
{
    let shown = render_type(f);
    let mut out = "{\n\t\"type\": \"".to_owned();
    out.append(shown.as_str());
    out.append("\",\n\t\"required\": ");
    out.append(bool_str(f.required));
    out.append(",\n\t\"nullable\": ");
    out.append(bool_str(f.nullable));
    out.append("\n}");
    out
}

/// Appends [`indented`] of `s` to `out`.
fn append_indented(out: &mut String, s: &str)
    ensures
        final(out)@ == old(out)@ + indented(s@),
{
    let cs = chars_of(s);
    let ghost base = out@;
    let mut from: usize = 0;
    let mut k: usize = 0;
    assert(cs@.take(0) =~= Seq::<char>::empty());
    assert(out@ + cs@.subrange(0, 0) =~= base + indented(cs@.take(0)));
    while k < cs.len()
        invariant
            from <= k <= cs.len(),
            cs@ == s@,
            out@ + cs@.subrange(from as int, k as int) == base + indented(cs@.take(k as int)),
        decreases cs.len() - k,
    {
        assert(cs@.take(k + 1).drop_last() =~= cs@.take(k as int));
        let ghost held = out@;
        let ghost piece = cs@.subrange(from as int, k as int);
        let ghost done = indented(cs@.take(k as int));
        if cs[k] == '\n' {
            out.append(s.substring_char(from, k));
            out.append("\n    ");
            from = k + 1;
            assert(out@ + cs@.subrange(from as int, from as int) =~= (held + piece) + "\n    "@);
            assert((base + done) + "\n    "@ =~= base + (done + "\n    "@));
        } else {
            assert(cs@.subrange(from as int, k + 1) =~= piece.push(cs@[k as int]));
            assert(held + piece.push(cs@[k as int]) =~= (held + piece).push(cs@[k as int]));
            assert((base + done).push(cs@[k as int]) =~= base + done.push(cs@[k as int]));
        }
        k += 1;
    }
    assert(cs@.take(cs@.len() as int) =~= cs@);
    out.append(s.substring_char(from, k));
}

/// Appends the entry of `d` to `out`.
fn append_entry(out: &mut String, d: &Declaration)
    ensures
        final(out)@ == old(out)@ + entry_text(d@),
{
    let ghost base = out@;
    let shown = render_type(&d.field);
    out.append("    \"");
    out.append(d.name.as_str());
    out.append("\": {\n    \t\"type\": \"");
    append_indented(out, shown.as_str());
    out.append("\",\n    \t\"required\": ");
    out.append(bool_str(d.field.required));
    out.append(",\n    \t\"nullable\": ");
    out.append(bool_str(d.field.nullable));
    out.append("\n    }");
    assert(out@ =~= base + entry_text(d@));
}

/// The text of `table` under the optional name `name`.
pub fn render_table(name: Option<&str>, table: &FieldTable) -> (r: String)
    ensures
        r@ == table_text(name_view(name), table@),
{
    let mut out = String::new();
    match name {
        Some(n) => {
            out.append("\"");
            out.append(n);
            out.append("\": ");
        },
        None => {},
    }
    out.append("{");
    let ghost head = out@;
    let entries = table.entries();
    let ghost ds = table@;
    let mut k: usize = 0;
    assert(ds.take(0) =~= Seq::<DeclarationText>::empty());
    assert(out@ =~= head + entries_text(ds.take(0)));
    while k < entries.len()
        invariant
            k <= entries.len(),
            ds == entries@.map_values(|d: Declaration| d@),
            out@ == head + entries_text(ds.take(k as int)),
        decreases entries.len() - k,
    {
        assert(ds.take(k + 1).drop_last() =~= ds.take(k as int));
        let ghost held = out@;
        let ghost before = entries_text(ds.take(k as int));
        if k == 0 {
            out.append("\n");
            assert(before =~= Seq::<char>::empty());
        } else {
            out.append(",\n");
        }
        let ghost joined = out@;
        append_entry(&mut out, &entries[k]);
        assert(out@ =~= head + entries_text(ds.take(k + 1))) by {
            let e = entry_text(ds[k as int]);
            if k == 0 {
                assert(head + ("\n"@ + e) =~= (head + "\n"@) + e);
            } else {
                assert(head + (before + ",\n"@ + e) =~= ((head + before) + ",\n"@) + e);
            }
        }
        k += 1;
    }
    assert(ds.take(entries.len() as int) =~= ds);
    out.append("\n}");
    assert(out@ =~= table_text(name_view(name), table@));
    out
}

/// What an optional name holds.
pub open spec fn name_view(name: Option<&str>) -> Option<Seq<char>> {
    match name {
        Some(n) => Some(n@),
        None => None,
    }
}

/// Turns the lines of an input into the text of the table they declare,
/// under the optional name `name`.
///
/// Fails at the first line that, without the white space at its ends, is no
/// declaration.
pub fn generate(name: Option<&str>, lines: &Vec<String>) -> (r: Result<String, LineError>)
    ensures
        match r {
            Ok(text) => table_of(texts_view(lines@)) matches Some(t) && text@ == table_text(
                name_view(name),
                t,
            ),
            Err(e) => {
                &&& e.line < lines.len()
                &&& declaration_of(trimmed(lines[e.line as int]@)) is None
                &&& forall|j: int|
                    0 <= j < e.line ==> declaration_of(trimmed(#[trigger] lines[j]@)) is Some
                &&& table_of(texts_view(lines@)) is None
            },
        },
{
    match parse_fields(lines) {
        Ok(table) => Ok(render_table(name, &table)),
        Err(e) => Err(e),
    }
}

} // verus!
