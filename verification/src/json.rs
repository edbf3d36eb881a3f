//! Schema documents: the part of a JSON document that the validation reads,
//! and its extraction from JSON text with `serde_json`.

use crate::text::text_is;
use vstd::prelude::*;
use vstd::string::*;

verus! {

/// `serde_json::Value`, a JSON value, known by its name alone: what it holds
/// is read through [`object_members`] and [`string_text`].
#[verifier::external_type_specification]
#[verifier::external_body]
pub struct ExValue(serde_json::Value);

/// `serde_json::Error`, known by its name alone.
#[verifier::external_type_specification]
#[verifier::external_body]
pub struct ExJsonError(serde_json::Error);

/// The value of one key inside a definition.
#[derive(Clone, Debug, PartialEq, Eq)]
pub enum Entry {
    /// A JSON string.
    Text(String),
    /// A JSON object, with the string that stands under its first key `type`
    /// when there is such a key and its value is a string.
    Object(Option<String>),
    /// Any other JSON value.
    Other,
}

/// One key of a definition, with its value.
#[derive(Clone, Debug, PartialEq, Eq)]
pub struct Member {
    pub key: String,
    pub entry: Entry,
}

/// One top-level key of a document: the name it declares, and the members of
/// its value when that value is a JSON object.
#[derive(Clone, Debug, PartialEq, Eq)]
pub struct Definition {
    pub name: String,
    pub members: Option<Vec<Member>>,
}

/// The top-level keys of one JSON document, in the order of the document's
/// map; none where the document is not a JSON object.
#[derive(Clone, Debug, PartialEq, Eq)]
pub struct Document {
    pub definitions: Vec<Definition>,
}

/// What an [`Entry`] holds.
pub enum EntryModel {
    Text(Seq<char>),
    Object(Option<Seq<char>>),
    Other,
}

/// What a [`Member`] holds.
pub struct MemberModel {
    pub key: Seq<char>,
    pub entry: EntryModel,
}

/// What a [`Definition`] holds.
pub struct DefinitionModel {
    pub name: Seq<char>,
    pub members: Option<Seq<MemberModel>>,
}

impl View for Entry {
    type V = EntryModel;

    open spec fn view(&self) -> EntryModel {
        match self {
            Entry::Text(t) => EntryModel::Text(t@),
            Entry::Object(Some(t)) => EntryModel::Object(Some(t@)),
            Entry::Object(None) => EntryModel::Object(None),
            Entry::Other => EntryModel::Other,
        }
    }
}

impl View for Member {
    type V = MemberModel;

    open spec fn view(&self) -> MemberModel {
        MemberModel { key: self.key@, entry: self.entry@ }
    }
}

impl View for Definition {
    type V = DefinitionModel;

    open spec fn view(&self) -> DefinitionModel {
        DefinitionModel {
            name: self.name@,
            members: match self.members {
                Some(ms) => Some(ms@.map_values(|m: Member| m@)),
                None => None,
            },
        }
    }
}

impl View for Document {
    type V = Seq<DefinitionModel>;

    open spec fn view(&self) -> Seq<DefinitionModel> {
        self.definitions@.map_values(|d: Definition| d@)
    }
}

/// The JSON value that `serde_json` reads from `text`, if `text` is JSON.
pub uninterp spec fn parsed_value(text: Seq<char>) -> Option<serde_json::Value>;

/// The keys and values of `v` in the order of its map, if `v` is a JSON object.
pub uninterp spec fn object_members(v: serde_json::Value) -> Option<
    Seq<(Seq<char>, serde_json::Value)>,
>;

/// The characters of `v`, if `v` is a JSON string.
pub uninterp spec fn string_text(v: serde_json::Value) -> Option<Seq<char>>;

/// The keys of `ms` by their characters.
pub open spec fn members_view(ms: Seq<(String, serde_json::Value)>) -> Seq<
    (Seq<char>, serde_json::Value),
> {
    ms.map_values(|p: (String, serde_json::Value)| (p.0@, p.1))
}

/// Reads `text` as JSON with `serde_json::from_str`.
///
/// Trusted: the outcome depends on `text` alone.
#[verifier::external_body]
fn parse_value(text: &str) -> (r: Result<serde_json::Value, serde_json::Error>)
    ensures
        match r {
            Ok(v) => parsed_value(text@) == Some(v),
            Err(_) => parsed_value(text@) is None,
        },
{
    serde_json::from_str::<serde_json::Value>(text)
}

/// Takes a `serde_json::Value::Object` apart into its keys and values, in the
/// order in which its map hands them out; gives any other value back.
///
/// Trusted: which of the two happens, and the pairs, depend on `v` alone.
#[verifier::external_body]
fn into_members(v: serde_json::Value) -> (r: Result<
    Vec<(String, serde_json::Value)>,
    serde_json::Value,
>)
    ensures
        match r {
            Ok(ms) => object_members(v) == Some(members_view(ms@)),
            Err(w) => object_members(v) is None && w == v,
        },
{
    match v {
        serde_json::Value::Object(m) => Ok(m.into_iter().collect()),
        other => Err(other),
    }
}

/// Takes the string out of a `serde_json::Value::String`; gives any other
/// value back.
///
/// Trusted: which of the two happens, and the string, depend on `v` alone.
#[verifier::external_body]
fn into_text(v: serde_json::Value) -> (r: Result<String, serde_json::Value>)
    ensures
        match r {
            Ok(t) => string_text(v) == Some(t@),
            Err(w) => string_text(v) is None && w == v,
        },
{
    match v {
        serde_json::Value::String(t) => Ok(t),
        other => Err(other),
    }
}

/// The message of a `serde_json::Error`, as its `Display` writes it.
#[verifier::external_body]
fn error_text(e: &serde_json::Error) -> (r: String) {
    e.to_string()
}

/// The string under the first key `type` of `ms`, if there is such a key and
/// its value is a string.
pub open spec fn type_text(ms: Seq<(Seq<char>, serde_json::Value)>) -> Option<Seq<char>>
    decreases ms.len(),
{
    if ms.len() == 0 {
        None
    } else if ms[0].0 == "type"@ {
        string_text(ms[0].1)
    } else {
        type_text(ms.drop_first())
    }
}

/// What the validation reads of the value `v` of a member.
pub open spec fn entry_model(v: serde_json::Value) -> EntryModel {
    match object_members(v) {
        Some(ms) => EntryModel::Object(type_text(ms)),
        None => match string_text(v) {
            Some(t) => EntryModel::Text(t),
            None => EntryModel::Other,
        },
    }
}

/// What the validation reads of the members `ms` of a definition.
pub open spec fn members_model(ms: Seq<(Seq<char>, serde_json::Value)>) -> Seq<MemberModel> {
    ms.map_values(
        |p: (Seq<char>, serde_json::Value)| MemberModel { key: p.0, entry: entry_model(p.1) },
    )
}

/// What the validation reads of the top-level key `name` with the value `v`.
pub open spec fn definition_model(name: Seq<char>, v: serde_json::Value) -> DefinitionModel {
    DefinitionModel {
        name,
        members: match object_members(v) {
            Some(ms) => Some(members_model(ms)),
            None => None,
        },
    }
}

/// What the validation reads of the document `v`.
pub open spec fn document_model(v: serde_json::Value) -> Seq<DefinitionModel> {
    match object_members(v) {
        Some(ds) => ds.map_values(
            |p: (Seq<char>, serde_json::Value)| definition_model(p.0, p.1),
        ),
        None => Seq::empty(),
    }
}

/// What the validation reads of the JSON text `text`, if it is JSON.
pub open spec fn document_of(text: Seq<char>) -> Option<Seq<DefinitionModel>> {
    match parsed_value(text) {
        Some(v) => Some(document_model(v)),
        None => None,
    }
}

/// Finds [`type_text`].
fn find_type(ms: Vec<(String, serde_json::Value)>) -> (r: Option<String>)
    ensures
        match r {
            Some(t) => type_text(members_view(ms@)) == Some(t@),
            None => type_text(members_view(ms@)) is None,
        },
{
    let ghost all = members_view(ms@);
    let ghost given = ms@;
    let mut found: Option<String> = None;
    let mut done: bool = false;
    let ghost mut seen: int = 0;
    assert(all.skip(0) =~= all);
    for p in it: ms.into_iter()
        invariant
            it.seq() == given,
            seen == it.index(),
            all == members_view(given),
            !done ==> found is None,
            !done ==> type_text(all) == type_text(all.skip(it.index() as int)),
            done ==> match found {
                Some(t) => type_text(all) == Some(t@),
                None => type_text(all) is None,
            },
    {
        let ghost rest = all.skip(it.index() as int);
        assert(rest.drop_first() =~= all.skip(it.index() + 1));
        assert(rest[0] == (p.0@, p.1));
        if !done && text_is(&p.0, "type") {
            done = true;
            found =
            match into_text(p.1) {
                Ok(t) => Some(t),
                Err(_) => None,
            };
        }
        proof {
            seen = seen + 1;
        }
    }
    assert(all.skip(seen).len() == 0);
    found
}

/// Reads the value `v` of a member.
fn entry_from(v: serde_json::Value) -> (r: Entry)
    ensures
        r@ == entry_model(v),
{
    match into_members(v) {
        Ok(ms) => Entry::Object(find_type(ms)),
        Err(w) => match into_text(w) {
            Ok(t) => Entry::Text(t),
            Err(_) => Entry::Other,
        },
    }
}

/// Reads the top-level key `name` with the value `v`.
fn definition_from(name: String, v: serde_json::Value) -> (r: Definition)
    ensures
        r@ == definition_model(name@, v),
{
    match into_members(v) {
        Ok(ms) => {
            let ghost given = ms@;
            let mut members: Vec<Member> = Vec::new();
            for p in it: ms.into_iter()
                invariant
                    it.seq() == given,
                    members@.map_values(|m: Member| m@) == members_model(
                        members_view(given),
                    ).take(it.index() as int),
            {
                let ghost before = members@.map_values(|m: Member| m@);
                let member = Member { key: p.0, entry: entry_from(p.1) };
                members.push(member);
                assert(members@.map_values(|m: Member| m@) =~= before.push(member@));
                assert(members_model(members_view(given)).take(it.index() + 1)
                    =~= before.push(member@));
            }
            assert(members_model(members_view(given)).take(given.len() as int)
                =~= members_model(members_view(given)));
            Definition { name, members: Some(members) }
        },
        Err(_) => Definition { name, members: None },
    }
}

/// Reads the document `v`.
fn document_from(v: serde_json::Value) -> (r: Document)
    ensures
        r@ == document_model(v),
{
    match into_members(v) {
        Ok(ds) => {
            let ghost given = ds@;
            let mut definitions: Vec<Definition> = Vec::new();
            for p in it: ds.into_iter()
                invariant
                    it.seq() == given,
                    definitions@.map_values(|d: Definition| d@) == document_model(v).take(
                        it.index() as int,
                    ),
                    object_members(v) == Some(members_view(given)),
            {
                let ghost before = definitions@.map_values(|d: Definition| d@);
                let definition = definition_from(p.0, p.1);
                definitions.push(definition);
                assert(definitions@.map_values(|d: Definition| d@) =~= before.push(definition@));
                assert(document_model(v).take(it.index() + 1) =~= before.push(definition@));
            }
            assert(document_model(v).take(given.len() as int) =~= document_model(v));
            Document { definitions }
        },
        Err(_) => {
            let r = Document { definitions: Vec::new() };
            assert(r@ =~= Seq::empty());
            r
        },
    }
}

/// A text that is not JSON, with the parser's message.
#[derive(Clone, Debug, PartialEq, Eq)]
pub struct JsonError {
    pub message: String,
}

/// Reads a schema document from JSON text.
///
/// Succeeds exactly on the texts that `serde_json` reads as JSON. A
/// document that is not a JSON object has no definitions.
pub fn parse_document(text: &str) -> (r: Result<Document, JsonError>)
    ensures
        match r {
            Ok(d) => document_of(text@) == Some(d@),
            Err(_) => document_of(text@) is None,
        },
{
    match parse_value(text) {
        Ok(v) => Ok(document_from(v)),
        Err(e) => Err(JsonError { message: error_text(&e) }),
    }
}

} // verus!
