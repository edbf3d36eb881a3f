//! Validation of schema documents: the registry that a set of documents
//! declares, and the walk that holds every type expression in them against it.

use crate::json::{
    document_of, parse_document, Definition, DefinitionModel, Document, Entry, EntryModel,
    JsonError, Member, MemberModel,
};
use crate::text::{text_is, texts_view};
use crate::validate::{resolution, validate_type, Malformed, Registry};
use vstd::prelude::*;
use vstd::string::*;

verus! {

/// The place of a type expression: the definition and the key under which it
/// stands, and the expression itself.
#[derive(Clone, Debug, PartialEq, Eq)]
pub struct Site {
    pub object: String,
    pub key: String,
    pub typ: String,
}

/// What a [`Site`] holds.
pub struct SiteText {
    pub object: Seq<char>,
    pub key: Seq<char>,
    pub typ: Seq<char>,
}

impl View for Site {
    type V = SiteText;

    open spec fn view(&self) -> SiteText {
        SiteText { object: self.object@, key: self.key@, typ: self.typ@ }
    }
}

/// Why a walk cannot go on.
#[derive(Clone, Copy, Debug, PartialEq, Eq, Structural)]
pub enum Fault {
    /// The value of a definition is not a JSON object.
    NotAnObject,
    /// A member is a JSON object without a string under the key `type`.
    MissingType,
    /// A type expression begins with `enum` and is malformed.
    MalformedEnum,
    /// A type expression begins with `array` and is malformed.
    MalformedArray,
}

/// The fault that stops a walk, and where it was met. A part of the place
/// that the fault does not reach is empty.
#[derive(Clone, Debug, PartialEq, Eq)]
pub struct WalkError {
    pub fault: Fault,
    pub site: Site,
}

/// The outcome of a walk that reached its end: the type expressions that did
/// not resolve, each with its place, in the order of the walk, and the
/// distinct expressions among them, each where it first occurs.
#[derive(Clone, Debug, PartialEq, Eq)]
pub struct Report {
    pub warnings: Vec<Site>,
    pub failed: Vec<String>,
}

/// What the walk makes of one member.
pub enum Finding {
    /// Nothing to check, or the type expression resolves.
    Pass,
    /// The type expression does not resolve.
    Warn(SiteText),
    /// The walk stops here.
    Fail(Fault, SiteText),
}

/// What a sequence of sites holds.
pub open spec fn sites_view(v: Seq<Site>) -> Seq<SiteText> {
    v.map_values(|s: Site| s@)
}

/// What a sequence of documents holds.
pub open spec fn documents_view(v: Seq<Document>) -> Seq<Seq<DefinitionModel>> {
    v.map_values(|d: Document| d@)
}

/// The names that the definitions `ds` declare.
pub open spec fn names_of(ds: Seq<DefinitionModel>) -> Set<Seq<char>>
    decreases ds.len(),
{
    if ds.len() == 0 {
        Set::empty()
    } else {
        names_of(ds.drop_last()).insert(ds.last().name)
    }
}

/// The names that the documents `docs` declare: every top-level key of every
/// one of them.
pub open spec fn declared_names(docs: Seq<Seq<DefinitionModel>>) -> Set<Seq<char>>
    decreases docs.len(),
{
    if docs.len() == 0 {
        Set::empty()
    } else {
        declared_names(docs.drop_last()).union(names_of(docs.last()))
    }
}

/// Whether one of the definitions `ds` declares `name`.
pub open spec fn declares(ds: Seq<DefinitionModel>, name: Seq<char>) -> bool {
    exists|j: int| 0 <= j < ds.len() && (#[trigger] ds[j]).name == name
}

/// The names of `ds` are those that one of its definitions declares.
proof fn lemma_names_of(ds: Seq<DefinitionModel>, name: Seq<char>)
    ensures
        names_of(ds).contains(name) == declares(ds, name),
    decreases ds.len(),
{
    if ds.len() > 0 {
        let front = ds.drop_last();
        lemma_names_of(front, name);
        if declares(front, name) {
            let j = choose|j: int| 0 <= j < front.len() && (#[trigger] front[j]).name == name;
            assert(ds[j].name == name);
        }
        if declares(ds, name) {
            let j = choose|j: int| 0 <= j < ds.len() && (#[trigger] ds[j]).name == name;
            if j < ds.len() - 1 {
                assert(front[j].name == name);
            }
        }
    }
}

/// A name is declared by `docs` exactly if it is a top-level key of one of
/// them.
pub proof fn lemma_declared_names(docs: Seq<Seq<DefinitionModel>>, name: Seq<char>)
    ensures
        declared_names(docs).contains(name) == exists|i: int|
            0 <= i < docs.len() && declares(#[trigger] docs[i], name),
    decreases docs.len(),
{
    if docs.len() > 0 {
        let front = docs.drop_last();
        lemma_declared_names(front, name);
        lemma_names_of(docs.last(), name);
        if exists|i: int| 0 <= i < front.len() && declares(#[trigger] front[i], name) {
            let i = choose|i: int| 0 <= i < front.len() && declares(#[trigger] front[i], name);
            assert(declares(docs[i], name));
        }
        if exists|i: int| 0 <= i < docs.len() && declares(#[trigger] docs[i], name) {
            let i = choose|i: int| 0 <= i < docs.len() && declares(#[trigger] docs[i], name);
            if i < docs.len() - 1 {
                assert(declares(front[i], name));
            }
        }
    }
}

/// What the walk makes of the type expression `typ` at its place.
pub open spec fn judge(
    reg: Set<Seq<char>>,
    object: Seq<char>,
    key: Seq<char>,
    typ: Seq<char>,
) -> Finding {
    let site = SiteText { object, key, typ };
    match resolution(reg, typ) {
        Ok(true) => Finding::Pass,
        Ok(false) => Finding::Warn(site),
        Err(Malformed::Enum) => Finding::Fail(Fault::MalformedEnum, site),
        Err(Malformed::Array) => Finding::Fail(Fault::MalformedArray, site),
    }
}

/// What the walk makes of the member `m` of the definition `object`: the
/// string under the key `type` of an object is a type expression, and so is
/// a string that itself stands under the key `type`.
pub open spec fn check_member(reg: Set<Seq<char>>, object: Seq<char>, m: MemberModel) -> Finding {
    match m.entry {
        EntryModel::Object(Some(typ)) => judge(reg, object, m.key, typ),
        EntryModel::Object(None) => Finding::Fail(
            Fault::MissingType,
            SiteText { object, key: m.key, typ: Seq::empty() },
        ),
        EntryModel::Text(typ) => if m.key == "type"@ {
            judge(reg, object, m.key, typ)
        } else {
            Finding::Pass
        },
        EntryModel::Other => Finding::Pass,
    }
}

/// The walk over the members `ms` of the definition `object`: the warnings
/// in order, or the first fault.
pub open spec fn walk_members(
    reg: Set<Seq<char>>,
    object: Seq<char>,
    ms: Seq<MemberModel>,
) -> Result<Seq<SiteText>, (Fault, SiteText)>
    decreases ms.len(),
{
    if ms.len() == 0 {
        Ok(Seq::empty())
    } else {
        match walk_members(reg, object, ms.drop_last()) {
            Ok(ws) => match check_member(reg, object, ms.last()) {
                Finding::Pass => Ok(ws),
                Finding::Warn(w) => Ok(ws.push(w)),
                Finding::Fail(f, s) => Err((f, s)),
            },
            Err(e) => Err(e),
        }
    }
}

/// The walk over one definition.
pub open spec fn walk_definition(reg: Set<Seq<char>>, d: DefinitionModel) -> Result<
    Seq<SiteText>,
    (Fault, SiteText),
> {
    match d.members {
        Some(ms) => walk_members(reg, d.name, ms),
        None => Err(
            (
                Fault::NotAnObject,
                SiteText { object: d.name, key: Seq::empty(), typ: Seq::empty() },
            ),
        ),
    }
}

/// The walk over the definitions `ds`, one after the other.
pub open spec fn walk_definitions(reg: Set<Seq<char>>, ds: Seq<DefinitionModel>) -> Result<
    Seq<SiteText>,
    (Fault, SiteText),
>
    decreases ds.len(),
{
    if ds.len() == 0 {
        Ok(Seq::empty())
    } else {
        match walk_definitions(reg, ds.drop_last()) {
            Ok(ws) => match walk_definition(reg, ds.last()) {
                Ok(more) => Ok(ws + more),
                Err(e) => Err(e),
            },
            Err(e) => Err(e),
        }
    }
}

/// The walk over the documents `docs`, one after the other.
pub open spec fn walk_documents(reg: Set<Seq<char>>, docs: Seq<Seq<DefinitionModel>>) -> Result<
    Seq<SiteText>,
    (Fault, SiteText),
>
    decreases docs.len(),
{
    if docs.len() == 0 {
        Ok(Seq::empty())
    } else {
        match walk_documents(reg, docs.drop_last()) {
            Ok(ws) => match walk_definitions(reg, docs.last()) {
                Ok(more) => Ok(ws + more),
                Err(e) => Err(e),
            },
            Err(e) => Err(e),
        }
    }
}

/// The texts of `s` without repetition, each where it first occurs.
pub open spec fn distinct(s: Seq<Seq<char>>) -> Seq<Seq<char>>
    decreases s.len(),
{
    if s.len() == 0 {
        Seq::empty()
    } else {
        let before = distinct(s.drop_last());
        if before.contains(s.last()) {
            before
        } else {
            before.push(s.last())
        }
    }
}

/// [`distinct`] holds every text of `s`, and each of them once.
pub proof fn lemma_distinct_is_a_set(s: Seq<Seq<char>>)
    ensures
        distinct(s).no_duplicates(),
        forall|x: Seq<char>| distinct(s).contains(x) == s.contains(x),
    decreases s.len(),
{
    if s.len() > 0 {
        let front = s.drop_last();
        let before = distinct(front);
        lemma_distinct_is_a_set(front);
        assert forall|x: Seq<char>| distinct(s).contains(x) == s.contains(x) by {
            if s.contains(x) {
                let i = choose|i: int| 0 <= i < s.len() && s[i] == x;
                if i < s.len() - 1 {
                    assert(front[i] == x);
                    assert(front.contains(x));
                    assert(distinct(front).contains(x));
                    let k = choose|k: int| 0 <= k < before.len() && before[k] == x;
                    assert(distinct(s)[k] == x);
                } else if before.contains(x) {
                } else {
                    assert(distinct(s)[before.len() as int] == x);
                }
            }
            if distinct(s).contains(x) {
                let k = choose|k: int| 0 <= k < distinct(s).len() && distinct(s)[k] == x;
                if k < before.len() {
                    assert(before[k] == x);
                    assert(front.contains(x));
                    let i = choose|i: int| 0 <= i < front.len() && front[i] == x;
                    assert(s[i] == x);
                } else {
                    assert(s[s.len() - 1] == x);
                }
            }
        }
    }
}

/// The type expressions of the warnings `ws`.
pub open spec fn failed_types(ws: Seq<SiteText>) -> Seq<Seq<char>> {
    ws.map_values(|w: SiteText| w.typ)
}

/// Whether `r` is the outcome of the validation of `docs`: the walk over
/// them against the names they declare.
pub open spec fn is_outcome(r: Result<Report, WalkError>, docs: Seq<Seq<DefinitionModel>>) -> bool {
    match walk_documents(declared_names(docs), docs) {
        Ok(ws) => {
            &&& r matches Ok(report)
            &&& sites_view(report.warnings@) == ws
            &&& texts_view(report.failed@) == distinct(failed_types(ws))
        },
        Err((fault, site)) => {
            &&& r matches Err(e)
            &&& e.fault == fault
            &&& e.site@ == site
        },
    }
}

/// The names that `docs` declare.
pub fn registry_of(docs: &Vec<Document>) -> (r: Registry)
    ensures
        r@ == declared_names(documents_view(docs@)),
{
    let ghost all = documents_view(docs@);
    let mut reg = Registry::new();
    let mut i: usize = 0;
    while i < docs.len()
        invariant
            i <= docs.len(),
            all == documents_view(docs@),
            reg@ == declared_names(all.take(i as int)),
        decreases docs.len() - i,
    {
        let defs = &docs[i].definitions;
        let ghost dv = all[i as int];
        let ghost before = reg@;
        let mut j: usize = 0;
        while j < defs.len()
            invariant
                j <= defs.len(),
                dv == defs@.map_values(|d: Definition| d@),
                reg@ == before.union(names_of(dv.take(j as int))),
            decreases defs.len() - j,
        {
            assert(dv.take(j + 1).drop_last() =~= dv.take(j as int));
            reg.insert(defs[j].name.clone());
            assert(reg@ =~= before.union(names_of(dv.take(j + 1))));
            j += 1;
        }
        assert(dv.take(defs.len() as int) =~= dv);
        assert(all.take(i + 1).drop_last() =~= all.take(i as int));
        i += 1;
    }
    assert(all.take(docs.len() as int) =~= all);
    reg
}

/// Decides [`judge`].
fn judge_type(reg: &Registry, object: &String, key: &String, typ: &String) -> (r: Result<
    Option<Site>,
    WalkError,
>)
    ensures
        match judge(reg@, object@, key@, typ@) {
            Finding::Pass => r matches Ok(None),
            Finding::Warn(w) => r matches Ok(Some(s)) && s@ == w,
            Finding::Fail(f, w) => r matches Err(e) && e.fault == f && e.site@ == w,
        },
{
    let verdict = validate_type(reg, typ.as_str());
    match verdict {
        Ok(true) => Ok(None),
        Ok(false) => Ok(Some(Site { object: object.clone(), key: key.clone(), typ: typ.clone() })),
        Err(Malformed::Enum) => Err(
            WalkError {
                fault: Fault::MalformedEnum,
                site: Site { object: object.clone(), key: key.clone(), typ: typ.clone() },
            },
        ),
        Err(Malformed::Array) => Err(
            WalkError {
                fault: Fault::MalformedArray,
                site: Site { object: object.clone(), key: key.clone(), typ: typ.clone() },
            },
        ),
    }
}

/// Decides [`check_member`].
fn check_one(reg: &Registry, object: &String, m: &Member) -> (r: Result<Option<Site>, WalkError>)
    ensures
        match check_member(reg@, object@, m@) {
            Finding::Pass => r matches Ok(None),
            Finding::Warn(w) => r matches Ok(Some(s)) && s@ == w,
            Finding::Fail(f, w) => r matches Err(e) && e.fault == f && e.site@ == w,
        },
{
    match &m.entry {
        Entry::Object(Some(typ)) => judge_type(reg, object, &m.key, typ),
        Entry::Object(None) => Err(
            WalkError {
                fault: Fault::MissingType,
                site: Site { object: object.clone(), key: m.key.clone(), typ: String::new() },
            },
        ),
        Entry::Text(typ) => if text_is(&m.key, "type") {
            judge_type(reg, object, &m.key, typ)
        } else {
            Ok(None)
        },
        Entry::Other => Ok(None),
    }
}

/// Walks the definition `d`, adding its warnings to `warnings`.
#[verifier::loop_isolation(false)]
fn walk_one(reg: &Registry, d: &Definition, warnings: &mut Vec<Site>) -> (r: Result<(), WalkError>)
    ensures
        match walk_definition(reg@, d@) {
            Ok(more) => r is Ok && sites_view(final(warnings)@) == sites_view(old(warnings)@)
                + more,
            Err((f, s)) => r matches Err(e) && e.fault == f && e.site@ == s,
        },
{
    match &d.members {
        Some(ms) => {
            let ghost msv = ms@.map_values(|m: Member| m@);
            let ghost start = sites_view(warnings@);
            let mut k: usize = 0;
            assert(sites_view(warnings@) =~= start + Seq::<SiteText>::empty());
            while k < ms.len()
                invariant
                    k <= ms.len(),
                    msv == ms@.map_values(|m: Member| m@),
                    walk_members(reg@, d.name@, msv.take(k as int)) matches Ok(ws)
                        && sites_view(warnings@) == start + ws,
                decreases ms.len() - k,
            {
                assert(msv.take(k + 1).drop_last() =~= msv.take(k as int));
                let ghost ws = walk_members(reg@, d.name@, msv.take(k as int))->Ok_0;
                let ghost held = warnings@;
                match check_one(reg, &d.name, &ms[k]) {
                    Ok(None) => {},
                    Ok(Some(site)) => {
                        warnings.push(site);
                        assert(sites_view(warnings@) =~= sites_view(held).push(site@));
                        assert(start + ws.push(site@) =~= (start + ws).push(site@));
                    },
                    Err(e) => {
                        proof {
                            lemma_walk_members_stops(reg@, d.name@, msv, k + 1);
                        }
                        return Err(e);
                    },
                }
                k += 1;
            }
            assert(msv.take(ms.len() as int) =~= msv);
            Ok(())
        },
        None => Err(
            WalkError {
                fault: Fault::NotAnObject,
                site: Site { object: d.name.clone(), key: String::new(), typ: String::new() },
            },
        ),
    }
}

/// A fault among the first `k` members is the fault of the whole walk.
proof fn lemma_walk_members_stops(
    reg: Set<Seq<char>>,
    object: Seq<char>,
    ms: Seq<MemberModel>,
    k: int,
)
    requires
        0 <= k <= ms.len(),
        walk_members(reg, object, ms.take(k)) is Err,
    ensures
        walk_members(reg, object, ms) == walk_members(reg, object, ms.take(k)),
    decreases ms.len() - k,
{
    if k < ms.len() {
        assert(ms.take(k + 1).drop_last() =~= ms.take(k));
        lemma_walk_members_stops(reg, object, ms, k + 1);
    } else {
        assert(ms.take(k) =~= ms);
    }
}

/// A fault among the first `k` definitions is the fault of the whole walk.
proof fn lemma_walk_definitions_stops(
    reg: Set<Seq<char>>,
    ds: Seq<DefinitionModel>,
    k: int,
)
    requires
        0 <= k <= ds.len(),
        walk_definitions(reg, ds.take(k)) is Err,
    ensures
        walk_definitions(reg, ds) == walk_definitions(reg, ds.take(k)),
    decreases ds.len() - k,
{
    if k < ds.len() {
        assert(ds.take(k + 1).drop_last() =~= ds.take(k));
        lemma_walk_definitions_stops(reg, ds, k + 1);
    } else {
        assert(ds.take(k) =~= ds);
    }
}

/// A fault among the first `k` documents is the fault of the whole walk.
proof fn lemma_walk_documents_stops(
    reg: Set<Seq<char>>,
    docs: Seq<Seq<DefinitionModel>>,
    k: int,
)
    requires
        0 <= k <= docs.len(),
        walk_documents(reg, docs.take(k)) is Err,
    ensures
        walk_documents(reg, docs) == walk_documents(reg, docs.take(k)),
    decreases docs.len() - k,
{
    if k < docs.len() {
        assert(docs.take(k + 1).drop_last() =~= docs.take(k));
        lemma_walk_documents_stops(reg, docs, k + 1);
    } else {
        assert(docs.take(k) =~= docs);
    }
}

/// Walks the documents `docs` against `reg`.
#[verifier::loop_isolation(false)]
pub fn walk(reg: &Registry, docs: &Vec<Document>) -> (r: Result<Vec<Site>, WalkError>)
    ensures
        match walk_documents(reg@, documents_view(docs@)) {
            Ok(ws) => r matches Ok(v) && sites_view(v@) == ws,
            Err((f, s)) => r matches Err(e) && e.fault == f && e.site@ == s,
        },
{
    let ghost all = documents_view(docs@);
    let mut warnings: Vec<Site> = Vec::new();
    let mut i: usize = 0;
    assert(sites_view(warnings@) =~= Seq::<SiteText>::empty());
    while i < docs.len()
        invariant
            i <= docs.len(),
            all == documents_view(docs@),
            walk_documents(reg@, all.take(i as int)) matches Ok(ws) && sites_view(warnings@) == ws,
        decreases docs.len() - i,
    {
        let defs = &docs[i].definitions;
        let ghost dv = all[i as int];
        let ghost start = sites_view(warnings@);
        assert(all.take(i + 1).drop_last() =~= all.take(i as int));
        let mut j: usize = 0;
        assert(sites_view(warnings@) =~= start + Seq::<SiteText>::empty());
        while j < defs.len()
            invariant
                j <= defs.len(),
                dv == defs@.map_values(|d: Definition| d@),
                walk_definitions(reg@, dv.take(j as int)) matches Ok(ws) && sites_view(warnings@)
                    == start + ws,
            decreases defs.len() - j,
        {
            assert(dv.take(j + 1).drop_last() =~= dv.take(j as int));
            let ghost ws = walk_definitions(reg@, dv.take(j as int))->Ok_0;
            match walk_one(reg, &defs[j], &mut warnings) {
                Ok(()) => {
                    let ghost more = walk_definition(reg@, dv[j as int])->Ok_0;
                    assert(start + (ws + more) =~= (start + ws) + more);
                },
                Err(e) => {
                    proof {
                        lemma_walk_definitions_stops(reg@, dv, j + 1);
                        lemma_walk_documents_stops(reg@, all, i + 1);
                    }
                    return Err(e);
                },
            }
            j += 1;
        }
        assert(dv.take(defs.len() as int) =~= dv);
        i += 1;
    }
    assert(all.take(docs.len() as int) =~= all);
    Ok(warnings)
}

/// The distinct type expressions of `warnings`, each where it first occurs.
pub fn distinct_types(warnings: &Vec<Site>) -> (r: Vec<String>)
    ensures
        texts_view(r@) == distinct(failed_types(sites_view(warnings@))),
{
    let ghost types = failed_types(sites_view(warnings@));
    let mut failed: Vec<String> = Vec::new();
    let mut i: usize = 0;
    assert(texts_view(failed@) =~= Seq::<Seq<char>>::empty());
    while i < warnings.len()
        invariant
            i <= warnings.len(),
            types == failed_types(sites_view(warnings@)),
            texts_view(failed@) == distinct(types.take(i as int)),
        decreases warnings.len() - i,
    {
        assert(types.take(i + 1).drop_last() =~= types.take(i as int));
        let typ = &warnings[i].typ;
        assert(typ@ == types[i as int]);
        let ghost held = texts_view(failed@);
        let mut known: bool = false;
        let mut k: usize = 0;
        while k < failed.len()
            invariant
                k <= failed.len(),
                held == texts_view(failed@),
                known == exists|j: int| 0 <= j < k && held[j] == typ@,
            decreases failed.len() - k,
        {
            if failed[k] == *typ {
                known = true;
                assert(held[k as int] == typ@);
            }
            k += 1;
        }
        assert(known == held.contains(typ@));
        if !known {
            let ghost before = failed@;
            failed.push(typ.clone());
            assert(texts_view(failed@) =~= texts_view(before).push(typ@));
        }
        i += 1;
    }
    assert(types.take(warnings.len() as int) =~= types);
    failed
}

/// Validates the documents `docs`: builds the registry of the names they
/// declare, and holds every type expression in them against it.
///
/// Fails at the first definition that is not an object, the first object
/// member without a string under `type`, or the first malformed `enum` or
/// `array` expression, whichever the walk meets first.
pub fn validate_documents(docs: &Vec<Document>) -> (r: Result<Report, WalkError>)
    ensures
        is_outcome(r, documents_view(docs@)),
{
    let reg = registry_of(docs);
    match walk(&reg, docs) {
        Ok(warnings) => {
            let failed = distinct_types(&warnings);
            Ok(Report { warnings, failed })
        },
        Err(e) => Err(e),
    }
}

/// Why a validation from JSON texts cannot go on.
#[derive(Clone, Debug, PartialEq, Eq)]
pub enum ValidateError {
    /// The text at index `source` is not JSON.
    Json { source: usize, error: JsonError },
    /// The walk met a fault.
    Walk(WalkError),
}

/// The documents that the JSON texts `sources` hold, if all of them are JSON.
pub open spec fn documents_of(sources: Seq<Seq<char>>) -> Option<Seq<Seq<DefinitionModel>>>
    decreases sources.len(),
{
    if sources.len() == 0 {
        Some(Seq::empty())
    } else {
        match (documents_of(sources.drop_last()), document_of(sources.last())) {
            (Some(docs), Some(d)) => Some(docs.push(d)),
            _ => None,
        }
    }
}

/// Where one of the first `k` texts is not JSON, the texts as a whole hold
/// no documents.
proof fn lemma_documents_of_stops(sources: Seq<Seq<char>>, k: int)
    requires
        0 <= k <= sources.len(),
        documents_of(sources.take(k)) is None,
    ensures
        documents_of(sources) is None,
    decreases sources.len() - k,
{
    if k < sources.len() {
        assert(sources.take(k + 1).drop_last() =~= sources.take(k));
        lemma_documents_of_stops(sources, k + 1);
    } else {
        assert(sources.take(k) =~= sources);
    }
}

/// Validates the documents that the JSON texts `sources` hold.
///
/// Reads every text first and fails at the first that is not JSON; then
/// validates the documents as [`validate_documents`] does.
pub fn validate(sources: &Vec<String>) -> (r: Result<Report, ValidateError>)
    ensures
        match r {
            Ok(report) => documents_of(texts_view(sources@)) matches Some(docs) && is_outcome(
                Ok(report),
                docs,
            ),
            Err(ValidateError::Walk(e)) => documents_of(texts_view(sources@)) matches Some(docs)
                && is_outcome(Err(e), docs),
            Err(ValidateError::Json { source, .. }) => {
                &&& source < sources.len()
                &&& document_of(sources[source as int]@) is None
                &&& forall|j: int| 0 <= j < source ==> document_of(#[trigger] sources[j]@) is Some
                &&& documents_of(texts_view(sources@)) is None
            },
        },
{
    let ghost texts = texts_view(sources@);
    let mut docs: Vec<Document> = Vec::new();
    let mut i: usize = 0;
    assert(documents_view(docs@) =~= Seq::<Seq<DefinitionModel>>::empty());
    while i < sources.len()
        invariant
            i <= sources.len(),
            texts == texts_view(sources@),
            documents_of(texts.take(i as int)) == Some(documents_view(docs@)),
            forall|j: int| 0 <= j < i ==> document_of(#[trigger] sources[j]@) is Some,
        decreases sources.len() - i,
    {
        assert(texts.take(i + 1).drop_last() =~= texts.take(i as int));
        assert(texts[i as int] == sources[i as int]@);
        match parse_document(sources[i].as_str()) {
            Ok(d) => {
                let ghost before = docs@;
                docs.push(d);
                assert(documents_view(docs@) =~= documents_view(before).push(d@));
            },
            Err(error) => {
                proof {
                    lemma_documents_of_stops(texts, i + 1);
                }
                return Err(ValidateError::Json { source: i, error });
            },
        }
        i += 1;
    }
    assert(texts.take(sources.len() as int) =~= texts);
    match validate_documents(&docs) {
        Ok(report) => Ok(report),
        Err(e) => Err(ValidateError::Walk(e)),
    }
}

} // verus!
