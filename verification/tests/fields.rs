use typespec::field::{parse_fields, parse_line, Declaration, Field, FieldTable, LineError, NoDeclaration};

fn field(typ: &str, required: bool, nullable: bool) -> Field {
    Field { typ: typ.to_string(), required, nullable }
}

fn declaration(name: &str, typ: &str, required: bool, nullable: bool) -> Declaration {
    Declaration { name: name.to_string(), field: field(typ, required, nullable) }
}

fn lines(text: &[&str]) -> Vec<String> {
    text.iter().map(|l| l.to_string()).collect()
}

#[test]
fn plain_line_is_required_and_not_nullable() {
    assert_eq!(parse_line("created_at timestamp"), Ok(declaration("created_at", "timestamp", true, false)));
    assert_eq!(parse_line("id snowflake"), Ok(declaration("id", "snowflake", true, false)));
    assert_eq!(
        parse_line("roles array[Role]"),
        Ok(declaration("roles", "array[Role]", true, false))
    );
}

#[test]
fn question_mark_before_the_type_makes_it_nullable() {
    assert_eq!(parse_line("nickname ?string"), Ok(declaration("nickname", "string", true, true)));
    assert_eq!(
        parse_line("owner ?union[User, Team]"),
        Ok(declaration("owner", "union[User, Team]", true, true))
    );
}

#[test]
fn the_type_is_kept_as_written() {
    let d = parse_line("kind enum[Kind, integer]").unwrap();
    assert_eq!(d.field.typ, "enum[Kind, integer]");
    let d = parse_line("pair union[a,  b]").unwrap();
    assert_eq!(d.field.typ, "union[a,  b]");
}

#[test]
fn any_run_of_white_space_parts_name_and_type() {
    assert_eq!(parse_line("a \t  b"), Ok(declaration("a", "b", true, false)));
    assert_eq!(parse_line("a\u{00A0}b"), Ok(declaration("a", "b", true, false)));
    assert_eq!(parse_line("a\u{2003}?b"), Ok(declaration("a", "b", true, true)));
}

#[test]
fn an_empty_name_is_accepted() {
    assert_eq!(parse_line("? string"), Ok(declaration("", "string", true, false)));
    assert_eq!(parse_line(" string"), Ok(declaration("", "string", true, false)));
    assert_eq!(parse_line("? ?string"), Ok(declaration("", "string", true, true)));
}

#[test]
fn a_question_mark_behind_the_name_changes_nothing() {
    assert_eq!(parse_line("age? integer"), Ok(declaration("age", "integer", true, false)));
    assert_eq!(parse_line("age? ?integer"), Ok(declaration("age", "integer", true, true)));
}

#[test]
fn required_is_false_only_without_a_rest() {
    assert_eq!(parse_line("name "), Ok(declaration("name", "", false, false)));
    assert_eq!(parse_line("name \t"), Ok(declaration("name", "", false, false)));
    assert_eq!(parse_line("name ?"), Ok(declaration("name", "", true, true)));
}

#[test]
fn white_space_inside_the_type_belongs_to_it() {
    assert_eq!(parse_line("a ? b"), Ok(declaration("a", " b", true, true)));
    assert_eq!(parse_line("a b c"), Ok(declaration("a", "b c", true, false)));
}

#[test]
fn a_line_without_white_space_is_no_declaration() {
    assert_eq!(parse_line(""), Err(NoDeclaration));
    assert_eq!(parse_line("name"), Err(NoDeclaration));
    assert_eq!(parse_line("name?"), Err(NoDeclaration));
    assert_eq!(parse_line("?"), Err(NoDeclaration));
}

#[test]
fn a_character_outside_the_grammar_is_no_declaration() {
    assert_eq!(parse_line("name enum[Kind; integer]"), Err(NoDeclaration));
    assert_eq!(parse_line("Name string"), Err(NoDeclaration));
    assert_eq!(parse_line("na-me string"), Err(NoDeclaration));
    assert_eq!(parse_line("name str_ing"), Err(NoDeclaration));
    assert_eq!(parse_line("name ??string"), Err(NoDeclaration));
    assert_eq!(parse_line("name?? string"), Err(NoDeclaration));
    assert_eq!(parse_line("name2 string"), Err(NoDeclaration));
}

#[test]
fn fields_come_out_in_the_order_of_their_names() {
    let t = parse_fields(&lines(&["zeta string", "alpha integer", "_x float", "mid ?boolean"])).unwrap();
    let names: Vec<&str> = t.entries().iter().map(|d| d.name.as_str()).collect();
    assert_eq!(names, vec!["_x", "alpha", "mid", "zeta"]);
    assert_eq!(t.entries()[2], declaration("mid", "boolean", true, true));
}

#[test]
fn a_prefix_stands_before_the_longer_name() {
    let t = parse_fields(&lines(&["ab string", "a string", "abc string", "b string", "? string"])).unwrap();
    let names: Vec<&str> = t.entries().iter().map(|d| d.name.as_str()).collect();
    assert_eq!(names, vec!["", "a", "ab", "abc", "b"]);
}

#[test]
fn the_later_of_two_declarations_of_one_name_stays() {
    let t = parse_fields(&lines(&["id integer", "name string", "id ?snowflake"])).unwrap();
    assert_eq!(t.entries().len(), 2);
    assert_eq!(t.entries()[0], declaration("id", "snowflake", true, true));
    assert_eq!(t.entries()[1], declaration("name", "string", true, false));
}

#[test]
fn lines_are_trimmed_before_they_are_parsed() {
    let t = parse_fields(&lines(&["   id integer  ", "\tname ?string\r"])).unwrap();
    assert_eq!(t.entries()[0], declaration("id", "integer", true, false));
    assert_eq!(t.entries()[1], declaration("name", "string", true, true));
}

#[test]
fn the_first_bad_line_is_reported() {
    assert_eq!(parse_fields(&lines(&["id integer", "", "oops", "x y"])), Err(LineError { line: 1 }));
    assert_eq!(parse_fields(&lines(&["id integer", "name "])), Err(LineError { line: 1 }));
    assert_eq!(parse_fields(&lines(&["Bad line"])), Err(LineError { line: 0 }));
}

#[test]
fn no_lines_declare_an_empty_table() {
    let t = parse_fields(&lines(&[])).unwrap();
    assert_eq!(t.entries().len(), 0);
    assert_eq!(t, FieldTable::new());
}

#[test]
fn insert_keeps_the_order_and_replaces() {
    let mut t = FieldTable::new();
    t.insert(declaration("m", "string", true, false));
    t.insert(declaration("a", "string", true, false));
    t.insert(declaration("z", "string", true, false));
    t.insert(declaration("m", "integer", true, true));
    let shown: Vec<(&str, &str)> =
        t.entries().iter().map(|d| (d.name.as_str(), d.field.typ.as_str())).collect();
    assert_eq!(shown, vec![("a", "string"), ("m", "integer"), ("z", "string")]);
}
