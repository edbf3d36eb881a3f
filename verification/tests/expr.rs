use typespec::expr::{Leaf, Primitive, TypeExpr};
use typespec::validate::{classify, validate_type, Registry, TypeClass};

const KINDS: [Primitive; 7] = [
    Primitive::Null,
    Primitive::String,
    Primitive::Integer,
    Primitive::Float,
    Primitive::Boolean,
    Primitive::Snowflake,
    Primitive::Timestamp,
];

fn registry(names: &[&str]) -> Registry {
    let mut r = Registry::new();
    for n in names {
        r.insert(n.to_string());
    }
    r
}

fn named(n: &str) -> Leaf {
    Leaf::Named(n.to_string())
}

fn array(element: &str) -> Leaf {
    Leaf::Array { element: element.to_string() }
}

fn enumeration(name: &str, base: Primitive) -> Leaf {
    Leaf::Enum { name: name.to_string(), base }
}

#[test]
fn primitive_kinds_have_their_literals() {
    let texts = ["null", "string", "integer", "float", "boolean", "snowflake", "timestamp"];
    for (k, t) in KINDS.iter().zip(texts) {
        assert_eq!(k.text(), t);
        assert_eq!(Primitive::of(t), Some(*k));
        assert_eq!(classify(t), TypeClass::Primitive);
    }
    for t in ["", "Null", "nul", "nulls", "str", " string", "timestamp "] {
        assert_eq!(Primitive::of(t), None);
    }
}

#[test]
fn only_four_kinds_are_bases() {
    let bases: Vec<bool> = KINDS.iter().map(|k| k.is_base()).collect();
    assert_eq!(bases, vec![false, true, true, true, true, false, false]);
}

#[test]
fn leaves_are_written_in_their_shapes() {
    assert_eq!(Leaf::Primitive(Primitive::Snowflake).text(), "snowflake");
    assert_eq!(named("User").text(), "User");
    assert_eq!(enumeration("Color", Primitive::Integer).text(), "enum[Color; integer]");
    assert_eq!(enumeration("Color", Primitive::Timestamp).text(), "enum[Color; timestamp]");
    assert_eq!(array("User").text(), "array[User]");
    assert_eq!(array("").text(), "array[]");
}

#[test]
fn unions_are_written_with_commas() {
    assert_eq!(TypeExpr::Union(vec![]).text(), "union[]");
    assert_eq!(TypeExpr::Union(vec![named("A")]).text(), "union[A]");
    assert_eq!(
        TypeExpr::Union(vec![
            named("A"),
            Leaf::Primitive(Primitive::Null),
            array("B"),
            enumeration("C", Primitive::String)
        ])
        .text(),
        "union[A, null, array[B], enum[C; string]]"
    );
    assert_eq!(TypeExpr::Leaf(array("B")).text(), "array[B]");
}

#[test]
fn well_formed_leaves_are_those_the_grammar_reads() {
    assert!(Leaf::Primitive(Primitive::Null).is_well_formed());
    assert!(named("").is_well_formed());
    assert!(named("any thing").is_well_formed());
    assert!(enumeration("Color", Primitive::Boolean).is_well_formed());
    assert!(enumeration("a.b-c,[d]", Primitive::Float).is_well_formed());
    assert!(!enumeration("", Primitive::String).is_well_formed());
    assert!(!enumeration("a b", Primitive::String).is_well_formed());
    assert!(!enumeration("a\u{2003}b", Primitive::String).is_well_formed());
    assert!(!enumeration("a;b", Primitive::String).is_well_formed());
    assert!(!enumeration("Color", Primitive::Timestamp).is_well_formed());
    assert!(!enumeration("Color", Primitive::Null).is_well_formed());
    assert!(array("User_2").is_well_formed());
    assert!(array("Gr\u{00F6}\u{00DF}e").is_well_formed());
    assert!(!array("").is_well_formed());
    assert!(!array("a b").is_well_formed());
    assert!(!array("a-b").is_well_formed());
    assert!(!array("\u{20AC}").is_well_formed());
    assert!(TypeExpr::Union(vec![named("x y"), array("A")]).is_well_formed());
    assert!(!TypeExpr::Union(vec![named("x"), array("A B")]).is_well_formed());
    assert!(TypeExpr::Union(vec![]).is_well_formed());
}

#[test]
fn expressions_resolve_by_their_shape() {
    let r = registry(&["User", "Color"]);
    assert!(TypeExpr::Leaf(Leaf::Primitive(Primitive::Float)).resolves(&r));
    assert!(TypeExpr::Leaf(named("User")).resolves(&r));
    assert!(!TypeExpr::Leaf(named("Ghost")).resolves(&r));
    assert!(TypeExpr::Leaf(array("User")).resolves(&r));
    assert!(TypeExpr::Leaf(array("integer")).resolves(&r));
    assert!(!TypeExpr::Leaf(array("Ghost")).resolves(&r));
    assert!(TypeExpr::Leaf(enumeration("Color", Primitive::String)).resolves(&r));
    assert!(!TypeExpr::Leaf(enumeration("Shade", Primitive::String)).resolves(&r));
    assert!(TypeExpr::Union(vec![named("Ghost"), array("User")]).resolves(&r));
    assert!(!TypeExpr::Union(vec![named("User"), named("Color")]).resolves(&r));
    assert!(!TypeExpr::Union(vec![array("Ghost"), enumeration("Shade", Primitive::Float)]).resolves(&r));
    assert!(!TypeExpr::Union(vec![]).resolves(&r));
}

#[test]
fn what_resolves_as_a_value_resolves_as_text() {
    let r = registry(&["User", "Color", "a.b", "Gr\u{00F6}\u{00DF}e"]);
    let leaves = vec![
        Leaf::Primitive(Primitive::Null),
        Leaf::Primitive(Primitive::Timestamp),
        named("User"),
        named("Ghost"),
        named("enum of sorts"),
        array("User"),
        array("Ghost"),
        array("string"),
        array("Gr\u{00F6}\u{00DF}e"),
        enumeration("Color", Primitive::String),
        enumeration("a.b", Primitive::Boolean),
        enumeration("Shade", Primitive::Integer),
    ];
    let mut exprs: Vec<TypeExpr> = leaves.iter().map(|l| TypeExpr::Leaf(l.clone())).collect();
    for a in &leaves {
        exprs.push(TypeExpr::Union(vec![a.clone()]));
        for b in &leaves {
            exprs.push(TypeExpr::Union(vec![a.clone(), b.clone()]));
            exprs.push(TypeExpr::Union(vec![named("x"), a.clone(), b.clone()]));
        }
    }
    let mut resolved = 0;
    for e in &exprs {
        assert!(e.is_well_formed());
        if e.resolves(&r) {
            resolved += 1;
            assert_eq!(validate_type(&r, &e.text()), Ok(true), "for {:?}", e);
        }
    }
    assert!(resolved > 100);
}

#[test]
fn text_may_resolve_where_the_value_does_not() {
    let r = registry(&[]);
    let e = TypeExpr::Union(vec![named("nullable")]);
    assert!(!e.resolves(&r));
    assert_eq!(validate_type(&r, &e.text()), Ok(true));
}
