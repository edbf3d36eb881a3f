use regex::Regex;
use std::collections::HashSet;
use typespec::field::parse_line;
use typespec::grammar::{all_matches, first_match, match_at, Capture, Shape};
use typespec::validate::{validate_type, Malformed, Registry};

const PIECES: &str = r#"enum\[([^\s;]+); (string|integer|float|boolean)\]|array\[(\w+)\]|(null|string|integer|float|boolean|snowflake|timestamp)"#;

const LINE: &str = r#"(^[a-z_]*)\??\s+\??([a-zA-Z0-9\s\[\],]*?)$"#;

const TEXTS: [&str; 48] = [
    "",
    "null",
    "string",
    "integer",
    "float",
    "boolean",
    "snowflake",
    "timestamp",
    "nullnull",
    "stringinteger",
    "snowflakes",
    "Ghost",
    "array[User]",
    "array[Unknown]",
    "array[]",
    "array[a b]",
    "array[a.b]",
    "array[array[string]]",
    "array[User_2]x",
    "array[Gr\u{00F6}\u{00DF}e]",
    "array[a\u{0301}\u{203F}\u{0663}]",
    "array[\u{20AC}]",
    "array[\u{00B2}]",
    "enum[Color; string]",
    "enum[Color; integer]",
    "enum[Color; float]",
    "enum[Color; boolean]",
    "enum[Color; timestamp]",
    "enum[Color;string]",
    "enum[Co lor; string]",
    "enum[Co\u{00A0}lor; string]",
    "enum[Co;lor; string]",
    "enum[a.b-c,[d]; integer]",
    "enum[enum[A; string]; string]",
    "enum[array[User]; string]",
    "enum[null; string]",
    "enum array[User]",
    "union[integer, Ghost]",
    "union[User, Guild]",
    "union[array[User], enum[Color; string], null]",
    "union[enum[Color; string",
    "union[nullable]",
    "unionstring",
    "union[array[Ghost, array[User]]",
    "x enum[A; string] array[B] float y",
    "arrayarray[A]enumenum[B; boolean]",
    "\u{00E9}null\u{00E9}array[\u{00E9}]",
    "enum[\u{1F600}; string]",
];

fn chars(s: &str) -> Vec<char> {
    s.chars().collect()
}

fn text_of(cs: &[char], lo: usize, hi: usize) -> String {
    cs[lo..hi].iter().collect()
}

fn by_regex(re: &Regex, s: &str) -> Vec<(Shape, String, usize)> {
    let mut found = Vec::new();
    for cap in re.captures_iter(s) {
        let end = s[..cap.get(0).unwrap().end()].chars().count();
        if let Some(m) = cap.get(1) {
            found.push((Shape::Enum, m.as_str().to_string(), end));
        } else if let Some(m) = cap.get(3) {
            found.push((Shape::Array, m.as_str().to_string(), end));
        } else if let Some(m) = cap.get(4) {
            found.push((Shape::Primitive, m.as_str().to_string(), end));
        }
    }
    found
}

fn by_library(s: &str) -> Vec<(Shape, String, usize)> {
    let cs = chars(s);
    all_matches(&cs).iter().map(|c: &Capture| (c.shape, text_of(&cs, c.lo, c.hi), c.end)).collect()
}

#[test]
fn pieces_are_those_of_the_pattern() {
    let re = Regex::new(PIECES).unwrap();
    for s in TEXTS {
        assert_eq!(by_library(s), by_regex(&re, s), "in {:?}", s);
    }
}

#[test]
fn first_piece_is_the_first_of_the_pattern() {
    let re = Regex::new(PIECES).unwrap();
    for s in TEXTS {
        let cs = chars(s);
        let first = first_match(&cs, 0).map(|c| (c.shape, text_of(&cs, c.lo, c.hi), c.end));
        assert_eq!(first, by_regex(&re, s).into_iter().next(), "in {:?}", s);
    }
}

#[test]
fn piece_at_a_place_is_found_there_only() {
    let cs = chars("x array[User] null");
    assert_eq!(match_at(&cs, 0), None);
    assert_eq!(match_at(&cs, 1), None);
    assert_eq!(match_at(&cs, 2), Some(Capture { shape: Shape::Array, lo: 8, hi: 12, end: 13 }));
    assert_eq!(match_at(&cs, 3), None);
    assert_eq!(match_at(&cs, 14), Some(Capture { shape: Shape::Primitive, lo: 14, hi: 18, end: 18 }));
    assert_eq!(match_at(&cs, 18), None);
    assert_eq!(match_at(&cs, 99), None);
    let cs = chars("enum[Color; float]");
    assert_eq!(match_at(&cs, 0), Some(Capture { shape: Shape::Enum, lo: 5, hi: 10, end: 18 }));
    assert_eq!(first_match(&cs, 1), Some(Capture { shape: Shape::Primitive, lo: 12, hi: 17, end: 17 }));
    assert_eq!(first_match(&cs, 13), None);
}

fn by_rule(re: &Regex, defined: &HashSet<String>, typ: &str) -> Result<bool, Malformed> {
    let primitives = ["null", "string", "integer", "float", "boolean", "snowflake", "timestamp"];
    if defined.contains(typ) || primitives.contains(&typ) {
        return Ok(true);
    }
    if typ.starts_with("enum") {
        let name = re.captures(typ).and_then(|cap| cap.get(1)).ok_or(Malformed::Enum)?;
        return Ok(defined.contains(name.as_str()));
    }
    if typ.starts_with("array") {
        let element = re.captures(typ).and_then(|cap| cap.get(3)).ok_or(Malformed::Array)?;
        return Ok(defined.contains(element.as_str()) || primitives.contains(&element.as_str()));
    }
    if typ.starts_with("union") {
        for cap in re.captures_iter(typ) {
            if cap.get(4).is_some() {
                return Ok(true);
            } else if let Some(element) = cap.get(3) {
                if defined.contains(element.as_str()) || primitives.contains(&element.as_str()) {
                    return Ok(true);
                }
            } else if let Some(name) = cap.get(1) {
                if defined.contains(name.as_str()) {
                    return Ok(true);
                }
            }
        }
    }
    Ok(false)
}

#[test]
fn resolution_is_that_of_the_pattern() {
    let re = Regex::new(PIECES).unwrap();
    let sets: [&[&str]; 4] = [
        &[],
        &["User", "Guild", "Color"],
        &["A", "B", "Ghost", "a.b-c,[d]", "array[User]", "enum[A;"],
        &["Gr\u{00F6}\u{00DF}e", "\u{00E9}", "\u{1F600}", "Unknown", "union[User, Guild]", ""],
    ];
    for names in sets {
        let mut registry = Registry::new();
        let mut defined = HashSet::new();
        for n in names {
            registry.insert(n.to_string());
            defined.insert(n.to_string());
        }
        for s in TEXTS {
            assert_eq!(validate_type(&registry, s), by_rule(&re, &defined, s), "for {:?}", s);
        }
    }
}

#[test]
fn lines_are_those_of_the_pattern() {
    let re = Regex::new(LINE).unwrap();
    let lines = [
        "created_at timestamp",
        "nickname ?string",
        "a b",
        "a  b",
        "a\t?b",
        "a ? b",
        "a? b",
        "a? ?b",
        "a?? b",
        "a ??b",
        "? b",
        " b",
        "?",
        "",
        "a",
        "a ",
        "a  ",
        "a ?",
        " ",
        "  ?  ",
        "a b c",
        "a b\u{00A0}c",
        "a\u{3000}b",
        "a\u{200B}b",
        "a enum[K; string]",
        "a enum[K, string]",
        "a union[x, y]",
        "a_b_ array[T9]",
        "aB c",
        "a9 c",
        "a b_c",
        "a b?",
        "a b\n",
        "a\nb",
        "\na b",
        "a b\u{00E9}",
        "\u{00E9} b",
    ];
    for line in lines {
        let parts = re
            .captures(line)
            .map(|cap| (cap.get(1).unwrap().as_str().to_string(), cap.get(2).unwrap().as_str().to_string()));
        let parsed = parse_line(line).ok().map(|d| (d.name, d.field.typ));
        assert_eq!(parsed, parts, "in {:?}", line);
    }
}

struct Dice(u64);

impl Dice {
    fn roll(&mut self, sides: usize) -> usize {
        self.0 = self.0.wrapping_mul(6364136223846793005).wrapping_add(1442695040888963407);
        ((self.0 >> 33) as usize) % sides
    }

    fn text(&mut self, tokens: &[&str], most: usize) -> String {
        let n = self.roll(most + 1);
        let mut s = String::new();
        for _ in 0..n {
            s.push_str(tokens[self.roll(tokens.len())]);
        }
        s
    }
}

const TYPE_TOKENS: [&str; 40] = [
    "enum[", "array[", "union[", "enum", "array", "union", "]", "[", "; ", ";", " ", ", ", ",",
    "null", "string", "integer", "float", "boolean", "snowflake", "timestamp", "string]",
    "float]", "User", "Guild", "Color", "x", "_", "9", "n", "s", "e", "a", "-", ".", "\t",
    "\u{00A0}", "\u{00E9}", "\u{0301}", "\u{20AC}", "\u{4E2D}",
];

const LINE_TOKENS: [&str; 24] = [
    "a", "b", "name", "_", "z", "?", "?", " ", " ", "\t", "\u{00A0}", "\u{2003}", "[", "]", ",",
    "A", "9", "string", "union[a, b]", "-", ";", "\u{00E9}", "\n", "\u{200B}",
];

#[test]
fn pieces_agree_with_the_pattern_on_many_texts() {
    let re = Regex::new(PIECES).unwrap();
    let mut dice = Dice(1);
    let mut with_pieces = 0;
    for _ in 0..4000 {
        let s = dice.text(&TYPE_TOKENS, 9);
        let found = by_library(&s);
        assert_eq!(found, by_regex(&re, &s), "in {:?}", s);
        if !found.is_empty() {
            with_pieces += 1;
        }
    }
    assert!(with_pieces > 1000);
}

#[test]
fn resolution_agrees_with_the_pattern_on_many_texts() {
    let re = Regex::new(PIECES).unwrap();
    let mut dice = Dice(2);
    let names = ["User", "Guild", "x", "\u{00E9}", "n", "array", "enum[x", "Color,"];
    let mut registry = Registry::new();
    let mut defined = HashSet::new();
    for n in names {
        registry.insert(n.to_string());
        defined.insert(n.to_string());
    }
    let heads = ["", "", "enum", "enum[", "array", "array[", "union", "union["];
    let mut seen = [0, 0, 0, 0];
    for _ in 0..4000 {
        let s = format!("{}{}", heads[dice.roll(heads.len())], dice.text(&TYPE_TOKENS, 7));
        let r = validate_type(&registry, &s);
        assert_eq!(r, by_rule(&re, &defined, &s), "for {:?}", s);
        match r {
            Ok(true) => seen[0] += 1,
            Ok(false) => seen[1] += 1,
            Err(Malformed::Enum) => seen[2] += 1,
            Err(Malformed::Array) => seen[3] += 1,
        }
    }
    assert!(seen.iter().all(|n| *n > 100), "{:?}", seen);
}

#[test]
fn lines_agree_with_the_pattern_on_many_texts() {
    let re = Regex::new(LINE).unwrap();
    let mut dice = Dice(3);
    let mut declarations = 0;
    for _ in 0..4000 {
        let line = dice.text(&LINE_TOKENS, 7);
        let parts = re
            .captures(&line)
            .map(|cap| (cap.get(1).unwrap().as_str().to_string(), cap.get(2).unwrap().as_str().to_string()));
        let parsed = parse_line(&line).ok().map(|d| (d.name, d.field.typ));
        assert_eq!(parsed, parts, "in {:?}", line);
        if parsed.is_some() {
            declarations += 1;
        }
    }
    assert!(declarations > 300);
}

#[test]
fn trimming_is_that_of_the_standard_library() {
    let mut dice = Dice(4);
    let tokens = [" ", "\t", "\n", "\r", "\u{000B}", "\u{000C}", "\u{0085}", "\u{00A0}", "\u{1680}",
        "\u{2000}", "\u{200A}", "\u{200B}", "\u{2028}", "\u{2029}", "\u{202F}", "\u{205F}",
        "\u{3000}", "\u{FEFF}", "\u{180E}", "a", "?", "x y"];
    for _ in 0..2000 {
        let s = dice.text(&tokens, 6);
        assert_eq!(typespec::text::trim(&s), s.trim(), "for {:?}", s);
    }
}

#[test]
fn flags_agree_with_the_patterns_where_name_and_type_are_written() {
    let required = Regex::new(r#"^\w+\s+[\s\S]+?$"#).unwrap();
    let nullable = Regex::new(r#"^\w+\s+\?[\s\S]+?$"#).unwrap();
    let names = ["a", "b", "name", "_", "z"];
    let gaps = [" ", "\t", "\u{00A0}", "\u{2003}", "  "];
    let marks = ["", "", "?"];
    let types = ["string", "union[a, b]", "array[T]", "A", "9", " ", ",", "x y", "-", "?"];
    let mut dice = Dice(5);
    let mut held = 0;
    for _ in 0..2000 {
        let mut line = dice.text(&names, 3);
        line.push_str(&dice.text(&gaps, 2));
        line.push_str(marks[dice.roll(marks.len())]);
        line.push_str(&dice.text(&types, 3));
        if let Ok(d) = parse_line(&line) {
            let marked = line[d.name.len()..].starts_with('?');
            if !d.name.is_empty() && !marked && !d.field.typ.is_empty() {
                held += 1;
                assert_eq!(d.field.required, required.is_match(&line), "in {:?}", line);
                assert_eq!(d.field.nullable, nullable.is_match(&line), "in {:?}", line);
            }
        }
    }
    assert!(held > 500);
}
