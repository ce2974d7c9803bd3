//! Mod metadata for `quilt.mod.json` (schema 1) and the Fabric-compatible
//! `fabric.mod.json`, both reduced to one [`ModCandidate`]. Only the fields
//! that matter for discovery and resolution are read; everything else is
//! accepted and ignored.

use vstd::prelude::*;

use crate::constraint::{PredicateModel, VersionSpec, parse_predicate, parse_union, predicate_matches, spec_matches};
use crate::json::{
    Json, JsonEntry, json_as_bool, json_as_i64, json_as_str, json_document, json_field, json_get,
    json_get_opt, opt_str, parse_json,
};
use crate::text::{
    chars_of, decimal, push_decimal, push_quoted, push_str, quoted, string_of, views,
};
use crate::version::{Version, VersionModel, parse_version};

verus! {

/// The origin format of a candidate, retained for diagnostics.
#[derive(Clone, Copy, Debug, PartialEq, Eq, Structural)]
pub enum ModFormat {
    Quilt,
    Fabric,
}

/// A dependency or breakage clause.
#[derive(Clone, Debug)]
pub struct Dependency {
    pub id: String,
    pub versions: VersionSpec,
    pub optional: bool,
    pub reason: Option<String>,
}

/// An identity a mod claims to provide in addition to its own id.
#[derive(Clone, Debug)]
pub struct ProvidedMod {
    pub id: String,
    pub version: Option<Version>,
}

/// A normalised mod definition ready for resolution.
#[derive(Clone, Debug)]
pub struct ModCandidate {
    pub format: ModFormat,
    pub group: Option<String>,
    pub id: String,
    pub version: Version,
    pub name: Option<String>,
    pub provides: Vec<ProvidedMod>,
    pub depends: Vec<Dependency>,
    pub breaks: Vec<Dependency>,
    pub entrypoints: Vec<String>,
}

pub struct DependencyModel {
    pub id: Seq<char>,
    pub versions: Seq<PredicateModel>,
    pub optional: bool,
    pub reason: Option<Seq<char>>,
}

pub struct ProvidedModel {
    pub id: Seq<char>,
    pub version: Option<VersionModel>,
}

pub struct CandidateModel {
    pub format: ModFormat,
    pub group: Option<Seq<char>>,
    pub id: Seq<char>,
    pub version: VersionModel,
    pub name: Option<Seq<char>>,
    pub provides: Seq<ProvidedModel>,
    pub depends: Seq<DependencyModel>,
    pub breaks: Seq<DependencyModel>,
    pub entrypoints: Seq<Seq<char>>,
}

pub open spec fn string_opt(o: Option<String>) -> Option<Seq<char>> {
    match o {
        Some(s) => Some(s@),
        None => None,
    }
}

pub open spec fn strings(v: Seq<String>) -> Seq<Seq<char>> {
    v.map_values(|s: String| s@)
}

impl View for Dependency {
    type V = DependencyModel;

    open spec fn view(&self) -> DependencyModel {
        DependencyModel {
            id: self.id@,
            versions: self.versions@,
            optional: self.optional,
            reason: string_opt(self.reason),
        }
    }
}

impl View for ProvidedMod {
    type V = ProvidedModel;

    open spec fn view(&self) -> ProvidedModel {
        ProvidedModel {
            id: self.id@,
            version: match self.version {
                Some(v) => Some(v@),
                None => None,
            },
        }
    }
}

pub open spec fn dependency_views(v: Seq<Dependency>) -> Seq<DependencyModel> {
    v.map_values(|d: Dependency| d@)
}

pub open spec fn provided_views(v: Seq<ProvidedMod>) -> Seq<ProvidedModel> {
    v.map_values(|p: ProvidedMod| p@)
}

impl View for ModCandidate {
    type V = CandidateModel;

    open spec fn view(&self) -> CandidateModel {
        CandidateModel {
            format: self.format,
            group: string_opt(self.group),
            id: self.id@,
            version: self.version@,
            name: string_opt(self.name),
            provides: provided_views(self.provides@),
            depends: dependency_views(self.depends@),
            breaks: dependency_views(self.breaks@),
            entrypoints: strings(self.entrypoints@),
        }
    }
}

// ---------------------------------------------------------------------------
// The decoding rules.

/// The number of bytes of the UTF-8 encoding of `c`.
pub open spec fn utf8_width(c: char) -> nat {
    if (c as u32) < 0x80 {
        1
    } else if (c as u32) < 0x800 {
        2
    } else if (c as u32) < 0x10000 {
        3
    } else {
        4
    }
}

/// The number of bytes of the UTF-8 encoding of `s` (`str::len`).
pub open spec fn utf8_len(s: Seq<char>) -> nat
    decreases s.len(),
{
    if s.len() == 0 {
        0
    } else {
        utf8_len(s.drop_last()) + utf8_width(s.last())
    }
}

pub open spec fn is_id_char(c: char) -> bool {
    ('a' <= c && c <= 'z') || ('0' <= c && c <= '9') || c == '-' || c == '_'
}

/// Quilt mod ids match `^[a-z][a-z0-9-_]{1,63}$`, the length counted in bytes.
pub open spec fn mod_id_error(id: Seq<char>) -> Option<Seq<char>> {
    let n = utf8_len(id);
    if n < 2 || n > 64 {
        Some("mod id "@ + quoted(id) + " must be between 2 and 64 characters"@)
    } else if !('a' <= id[0] && id[0] <= 'z') {
        Some("mod id "@ + quoted(id) + " must start with a lowercase letter"@)
    } else if !(forall|i: int| 1 <= i < id.len() ==> is_id_char(#[trigger] id[i])) {
        Some(
            "mod id "@ + quoted(id)
                + " may only contain lowercase letters, digits, '-', and '_'"@,
        )
    } else {
        None
    }
}

pub open spec fn any_version() -> Seq<PredicateModel> {
    seq![PredicateModel::Any]
}

pub open spec fn json_text(j: Json) -> Seq<char> {
    match j {
        Json::Str(s) => s@,
        _ => seq![],
    }
}

pub open spec fn all_strings(items: Seq<Json>) -> bool {
    forall|i: int| 0 <= i < items.len() ==> (#[trigger] items[i] matches Json::Str(_))
}

pub open spec fn texts(items: Seq<Json>) -> Seq<Seq<char>> {
    items.map_values(|j: Json| json_text(j))
}

/// A `versions` field: absent or null means any version; a string is one
/// predicate; an array of strings is a union.
pub open spec fn versions_field(v: Option<Json>) -> Result<Seq<PredicateModel>, Seq<char>> {
    match v {
        None => Ok(any_version()),
        Some(Json::Null) => Ok(any_version()),
        Some(Json::Str(s)) => match parse_predicate(s@) {
            Ok(p) => Ok(seq![p]),
            Err(e) => Err(e),
        },
        Some(Json::Array(items)) => if all_strings(items@) {
            parse_union(texts(items@))
        } else {
            Err("version array entries must be strings"@)
        },
        Some(_) => Err("versions must be a string or an array of strings"@),
    }
}

/// A Quilt dependency entry: a bare id, or `{ id, versions?, optional?, reason? }`.
pub open spec fn dependency_entry(v: Json) -> Result<DependencyModel, Seq<char>> {
    match v {
        Json::Str(id) => Ok(
            DependencyModel { id: id@, versions: any_version(), optional: false, reason: None },
        ),
        Json::Object(entries) => match json_as_str(json_field(entries@, "id"@)) {
            None => Err("dependency is missing id"@),
            Some(id) => match versions_field(json_field(entries@, "versions"@)) {
                Err(e) => Err(e),
                Ok(versions) => Ok(
                    DependencyModel {
                        id,
                        versions,
                        optional: match json_as_bool(json_field(entries@, "optional"@)) {
                            Some(b) => b,
                            None => false,
                        },
                        reason: json_as_str(json_field(entries@, "reason"@)),
                    },
                ),
            },
        },
        _ => Err("dependency must be a string or object"@),
    }
}

pub open spec fn dependency_entries(items: Seq<Json>) -> Result<Seq<DependencyModel>, Seq<char>>
    decreases items.len(),
{
    if items.len() == 0 {
        Ok(seq![])
    } else {
        match dependency_entry(items[0]) {
            Err(e) => Err(e),
            Ok(d) => match dependency_entries(items.drop_first()) {
                Err(e) => Err(e),
                Ok(rest) => Ok(seq![d] + rest),
            },
        }
    }
}

/// `depends` / `breaks`: one entry or an array of entries.
pub open spec fn dependency_list(v: Option<Json>) -> Result<Seq<DependencyModel>, Seq<char>> {
    match v {
        None => Ok(seq![]),
        Some(Json::Array(items)) => dependency_entries(items@),
        Some(other) => match dependency_entry(other) {
            Err(e) => Err(e),
            Ok(d) => Ok(seq![d]),
        },
    }
}

/// A Fabric dependency map from id to version range(s), in key order.
pub open spec fn fabric_entries(entries: Seq<JsonEntry>, optional: bool) -> Result<
    Seq<DependencyModel>,
    Seq<char>,
>
    decreases entries.len(),
{
    if entries.len() == 0 {
        Ok(seq![])
    } else {
        match versions_field(Some(entries[0].value)) {
            Err(e) => Err(e),
            Ok(versions) => match fabric_entries(entries.drop_first(), optional) {
                Err(e) => Err(e),
                Ok(rest) => Ok(
                    seq![
                        DependencyModel {
                            id: entries[0].key@,
                            versions,
                            optional,
                            reason: None,
                        },
                    ] + rest,
                ),
            },
        }
    }
}

pub open spec fn fabric_dependency_map(v: Option<Json>, optional: bool) -> Result<
    Seq<DependencyModel>,
    Seq<char>,
> {
    match v {
        Some(Json::Object(entries)) => fabric_entries(entries@, optional),
        _ => Ok(seq![]),
    }
}

pub open spec fn provide_entry(v: Json) -> Result<ProvidedModel, Seq<char>> {
    match v {
        Json::Str(id) => Ok(ProvidedModel { id: id@, version: None }),
        Json::Object(entries) => match json_as_str(json_field(entries@, "id"@)) {
            None => Err("provides entry is missing id"@),
            Some(id) => Ok(
                ProvidedModel {
                    id,
                    version: match json_as_str(json_field(entries@, "version"@)) {
                        Some(s) => Some(parse_version(s)),
                        None => None,
                    },
                },
            ),
        },
        _ => Err("provides entry must be a string or object"@),
    }
}

pub open spec fn provide_entries(items: Seq<Json>) -> Result<Seq<ProvidedModel>, Seq<char>>
    decreases items.len(),
{
    if items.len() == 0 {
        Ok(seq![])
    } else {
        match provide_entry(items[0]) {
            Err(e) => Err(e),
            Ok(p) => match provide_entries(items.drop_first()) {
                Err(e) => Err(e),
                Ok(rest) => Ok(seq![p] + rest),
            },
        }
    }
}

pub open spec fn quilt_provides(v: Option<Json>) -> Result<Seq<ProvidedModel>, Seq<char>> {
    match v {
        None => Ok(seq![]),
        Some(Json::Array(items)) => provide_entries(items@),
        Some(_) => Err("provides must be an array"@),
    }
}

/// Fabric `provides`: the string members of an array, without versions.
pub open spec fn fabric_provides(items: Seq<Json>) -> Seq<ProvidedModel>
    decreases items.len(),
{
    if items.len() == 0 {
        seq![]
    } else {
        let rest = fabric_provides(items.drop_first());
        match items[0] {
            Json::Str(id) => seq![ProvidedModel { id: id@, version: None }] + rest,
            _ => rest,
        }
    }
}

/// The class names an entrypoint value names: a string, an object's `value`
/// string, or those of each array member.
pub open spec fn entry_values(v: Json) -> Seq<Seq<char>>
    decreases v,
{
    match v {
        Json::Str(s) => seq![s@],
        Json::Object(entries) => match json_as_str(json_field(entries@, "value"@)) {
            Some(c) => seq![c],
            None => seq![],
        },
        Json::Array(items) => entry_list(items@),
        _ => seq![],
    }
}

pub open spec fn entry_list(items: Seq<Json>) -> Seq<Seq<char>>
    decreases items,
{
    if items.len() == 0 {
        seq![]
    } else {
        entry_values(items[0]) + entry_list(items.drop_first())
    }
}

pub open spec fn entrypoint_map(entries: Seq<JsonEntry>) -> Seq<Seq<char>>
    decreases entries.len(),
{
    if entries.len() == 0 {
        seq![]
    } else {
        entry_values(entries[0].value) + entrypoint_map(entries.drop_first())
    }
}

pub open spec fn quilt_entrypoints(v: Option<Json>) -> Seq<Seq<char>> {
    match v {
        Some(Json::Object(entries)) => entrypoint_map(entries@),
        _ => seq![],
    }
}

pub open spec fn required_field_message(label: Seq<char>) -> Seq<char> {
    "missing required field "@ + label
}

pub open spec fn decimal_i64(n: i64) -> Seq<char> {
    if n < 0 {
        seq!['-'] + decimal((-n) as nat)
    } else {
        decimal(n as nat)
    }
}

/// `quilt.mod.json`: schema 1 with a `quilt_loader` object holding at least
/// `id` and `version`.
pub open spec fn quilt_candidate(root: Json) -> Result<CandidateModel, Seq<char>> {
    match json_as_i64(json_get(root, "schema_version"@)) {
        None => Err("quilt.mod.json is missing schema_version"@),
        Some(schema) => if schema != 1 {
            Err("unsupported quilt.mod.json schema_version "@ + decimal_i64(schema))
        } else {
            match json_get(root, "quilt_loader"@) {
                Some(Json::Object(entries)) => {
                    let loader = Json::Object(entries);
                    match json_as_str(json_get(loader, "id"@)) {
                        None => Err(required_field_message("quilt_loader.id"@)),
                        Some(id) => match mod_id_error(id) {
                            Some(e) => Err(e),
                            None => match json_as_str(json_get(loader, "version"@)) {
                                None => Err(required_field_message("quilt_loader.version"@)),
                                Some(version) => match dependency_list(
                                    json_get(loader, "depends"@),
                                ) {
                                    Err(e) => Err(e),
                                    Ok(depends) => match dependency_list(
                                        json_get(loader, "breaks"@),
                                    ) {
                                        Err(e) => Err(e),
                                        Ok(breaks) => match quilt_provides(
                                            json_get(loader, "provides"@),
                                        ) {
                                            Err(e) => Err(e),
                                            Ok(provides) => Ok(
                                                CandidateModel {
                                                    format: ModFormat::Quilt,
                                                    group: json_as_str(json_get(loader, "group"@)),
                                                    id,
                                                    version: parse_version(version),
                                                    name: json_as_str(
                                                        json_get_opt(
                                                            json_get_object(
                                                                json_get(loader, "metadata"@),
                                                            ),
                                                            "name"@,
                                                        ),
                                                    ),
                                                    provides,
                                                    depends,
                                                    breaks,
                                                    entrypoints: quilt_entrypoints(
                                                        json_get(loader, "entrypoints"@),
                                                    ),
                                                },
                                            ),
                                        },
                                    },
                                },
                            },
                        },
                    }
                },
                _ => Err("quilt.mod.json is missing the quilt_loader object"@),
            }
        }
    }
}

/// `v.and_then(Value::as_object)`.
pub open spec fn json_get_object(v: Option<Json>) -> Option<Json> {
    match v {
        Some(Json::Object(e)) => Some(Json::Object(e)),
        _ => None,
    }
}

/// `fabric.mod.json`: `id` and `version` at the top level; the advisory entries are
/// optional depends listed after the required ones.
pub open spec fn fabric_candidate(root: Json) -> Result<CandidateModel, Seq<char>> {
    match json_as_str(json_get(root, "id"@)) {
        None => Err("fabric.mod.json is missing id"@),
        Some(id) => match mod_id_error(id) {
            Some(e) => Err(e),
            None => match json_as_str(json_get(root, "version"@)) {
                None => Err("fabric.mod.json is missing version"@),
                Some(version) => match fabric_dependency_map(json_get(root, "depends"@), false) {
                    Err(e) => Err(e),
                    Ok(depends) => match fabric_dependency_map(json_get(root, "breaks"@), false) {
                        Err(e) => Err(e),
                        Ok(breaks) => match fabric_dependency_map(
                            json_get(root, "recommends"@),
                            true,
                        ) {
                            Err(e) => Err(e),
                            Ok(advisory) => Ok(
                                CandidateModel {
                                    format: ModFormat::Fabric,
                                    group: None,
                                    id,
                                    version: parse_version(version),
                                    name: json_as_str(json_get(root, "name"@)),
                                    provides: match json_get(root, "provides"@) {
                                        Some(Json::Array(items)) => fabric_provides(items@),
                                        _ => seq![],
                                    },
                                    depends: depends + advisory,
                                    breaks,
                                    entrypoints: seq![],
                                },
                            ),
                        },
                    },
                },
            },
        },
    }
}

/// A `quilt_loader` key makes a Quilt document; otherwise `schemaVersion` or
/// `id` makes a Fabric one.
pub open spec fn candidate_from_json(root: Json) -> Result<CandidateModel, Seq<char>> {
    if json_get(root, "quilt_loader"@) is Some {
        quilt_candidate(root)
    } else if json_get(root, "schemaVersion"@) is Some || json_get(root, "id"@) is Some {
        fabric_candidate(root)
    } else {
        Err("metadata is neither quilt.mod.json nor fabric.mod.json"@)
    }
}

/// Metadata bytes: JSON as `serde_json` reads it, then the rules above.
pub open spec fn candidate_from_bytes(bytes: Seq<u8>) -> Result<CandidateModel, Seq<char>> {
    match json_document(bytes) {
        Err(e) => Err("invalid JSON: "@ + e),
        Ok(root) => candidate_from_json(root),
    }
}

// ---------------------------------------------------------------------------
// Executable decoding.

pub open spec fn deref_opt(v: Option<&Json>) -> Option<Json> {
    match v {
        Some(j) => Some(*j),
        None => None,
    }
}

fn err_text(msg: &str) -> (r: String)
    ensures
        r@ == msg@,
{
    msg.to_owned()
}

fn versions_field_exec(v: Option<&Json>) -> (r: Result<VersionSpec, String>)
    ensures
        match r {
            Ok(s) => versions_field(deref_opt(v)) == Ok::<Seq<PredicateModel>, Seq<char>>(s@),
            Err(e) => versions_field(deref_opt(v)) == Err::<Seq<PredicateModel>, Seq<char>>(e@),
        },
{
    match v {
        None => Ok(VersionSpec::any()),
        Some(Json::Null) => Ok(VersionSpec::any()),
        Some(Json::Str(single)) => VersionSpec::parse(single.as_str()),
        Some(Json::Array(items)) => {
            let mut strings: Vec<Vec<char>> = Vec::new();
            let mut i: usize = 0;
            while i < items.len()
                invariant
                    i <= items@.len(),
                    deref_opt(v) == Some(Json::Array(*items)),
                    forall|k: int| 0 <= k < i ==> (#[trigger] items@[k] matches Json::Str(_)),
                    views(strings@) == texts(items@).take(i as int),
                decreases items@.len() - i,
            {
                match &items[i] {
                    Json::Str(text) => {
                        let c = chars_of(text.as_str());
                        let ghost before = strings@;
                        strings.push(c);
                        assert(views(strings@) =~= views(before).push(c@));
                        assert(texts(items@).take(i + 1) =~= texts(items@).take(i as int).push(
                            c@,
                        ));
                    },
                    _ => {
                        assert(!(items@[i as int] matches Json::Str(_)));
                        return Err(err_text("version array entries must be strings"));
                    },
                }
                i = i + 1;
            }
            assert(texts(items@).take(items@.len() as int) =~= texts(items@));
            VersionSpec::parse_union_chars(&strings)
        },
        Some(_) => Err(err_text("versions must be a string or an array of strings")),
    }
}

fn dependency_entry_exec(v: &Json) -> (r: Result<Dependency, String>)
    ensures
        match r {
            Ok(d) => dependency_entry(*v) == Ok::<DependencyModel, Seq<char>>(d@),
            Err(e) => dependency_entry(*v) == Err::<DependencyModel, Seq<char>>(e@),
        },
{
    match v {
        Json::Str(id) => Ok(
            Dependency { id: id.clone(), versions: VersionSpec::any(), optional: false, reason: None },
        ),
        Json::Object(_) => {
            let id = match opt_str(v.get("id")) {
                Some(id) => id,
                None => {
                    return Err(err_text("dependency is missing id"));
                },
            };
            let versions = match versions_field_exec(v.get("versions")) {
                Ok(s) => s,
                Err(e) => {
                    return Err(e);
                },
            };
            let optional = match v.get("optional") {
                Some(Json::Bool(b)) => *b,
                _ => false,
            };
            let reason = opt_str(v.get("reason"));
            Ok(Dependency { id, versions, optional, reason })
        },
        _ => Err(err_text("dependency must be a string or object")),
    }
}

fn dependency_list_exec(v: Option<&Json>) -> (r: Result<Vec<Dependency>, String>)
    ensures
        match r {
            Ok(d) => dependency_list(deref_opt(v)) == Ok::<Seq<DependencyModel>, Seq<char>>(
                dependency_views(d@),
            ),
            Err(e) => dependency_list(deref_opt(v)) == Err::<Seq<DependencyModel>, Seq<char>>(
                e@,
            ),
        },
{
    match v {
        None => {
            let out: Vec<Dependency> = Vec::new();
            assert(dependency_views(out@) =~= Seq::<DependencyModel>::empty());
            Ok(out)
        },
        Some(Json::Array(items)) => {
            let mut out: Vec<Dependency> = Vec::new();
            let mut i: usize = 0;
            assert(items@.skip(0) =~= items@);
            while i < items.len()
                invariant
                    i <= items@.len(),
                    deref_opt(v) == Some(Json::Array(*items)),
                    dependency_entries(items@) == match dependency_entries(items@.skip(i as int)) {
                        Err(e) => Err(e),
                        Ok(rest) => Ok(dependency_views(out@) + rest),
                    },
                decreases items@.len() - i,
            {
                assert(items@.skip(i as int)[0] == items@[i as int]);
                assert(items@.skip(i as int).drop_first() =~= items@.skip(i + 1));
                match dependency_entry_exec(&items[i]) {
                    Ok(d) => {
                        let ghost before = out@;
                        out.push(d);
                        assert(dependency_views(out@) =~= dependency_views(before).push(d@));
                        proof {
                            match dependency_entries(items@.skip(i + 1)) {
                                Err(e) => {},
                                Ok(rest) => {
                                    assert(dependency_views(before) + (seq![d@] + rest)
                                        =~= dependency_views(out@) + rest);
                                },
                            }
                        }
                    },
                    Err(e) => {
                        return Err(e);
                    },
                }
                i = i + 1;
            }
            assert(items@.skip(items@.len() as int) =~= Seq::<Json>::empty());
            assert(dependency_views(out@) + Seq::<DependencyModel>::empty() =~= dependency_views(
                out@,
            ));
            Ok(out)
        },
        Some(other) => match dependency_entry_exec(other) {
            Ok(d) => {
                let out = vec![d];
                assert(dependency_views(out@) =~= seq![d@]);
                Ok(out)
            },
            Err(e) => Err(e),
        },
    }
}

fn fabric_dependency_map_exec(v: Option<&Json>, optional: bool) -> (r: Result<
    Vec<Dependency>,
    String,
>)
    ensures
        match r {
            Ok(d) => fabric_dependency_map(deref_opt(v), optional) == Ok::<
                Seq<DependencyModel>,
                Seq<char>,
            >(dependency_views(d@)),
            Err(e) => fabric_dependency_map(deref_opt(v), optional) == Err::<
                Seq<DependencyModel>,
                Seq<char>,
            >(e@),
        },
{
    let mut out: Vec<Dependency> = Vec::new();
    assert(dependency_views(out@) =~= Seq::<DependencyModel>::empty());
    match v {
        Some(Json::Object(entries)) => {
            let mut i: usize = 0;
            assert(entries@.skip(0) =~= entries@);
            while i < entries.len()
                invariant
                    i <= entries@.len(),
                    deref_opt(v) == Some(Json::Object(*entries)),
                    fabric_entries(entries@, optional) == match fabric_entries(
                        entries@.skip(i as int),
                        optional,
                    ) {
                        Err(e) => Err(e),
                        Ok(rest) => Ok(dependency_views(out@) + rest),
                    },
                decreases entries@.len() - i,
            {
                assert(entries@.skip(i as int)[0] == entries@[i as int]);
                assert(entries@.skip(i as int).drop_first() =~= entries@.skip(i + 1));
                let entry = &entries[i];
                match versions_field_exec(Some(&entry.value)) {
                    Ok(versions) => {
                        let d = Dependency {
                            id: entry.key.clone(),
                            versions,
                            optional,
                            reason: None,
                        };
                        let ghost before = out@;
                        out.push(d);
                        assert(dependency_views(out@) =~= dependency_views(before).push(d@));
                        proof {
                            match fabric_entries(entries@.skip(i + 1), optional) {
                                Err(e) => {},
                                Ok(rest) => {
                                    assert(dependency_views(before) + (seq![d@] + rest)
                                        =~= dependency_views(out@) + rest);
                                },
                            }
                        }
                    },
                    Err(e) => {
                        return Err(e);
                    },
                }
                i = i + 1;
            }
            assert(entries@.skip(entries@.len() as int) =~= Seq::<JsonEntry>::empty());
            assert(dependency_views(out@) + Seq::<DependencyModel>::empty() =~= dependency_views(
                out@,
            ));
            Ok(out)
        },
        _ => Ok(out),
    }
}

fn provide_entry_exec(v: &Json) -> (r: Result<ProvidedMod, String>)
    ensures
        match r {
            Ok(p) => provide_entry(*v) == Ok::<ProvidedModel, Seq<char>>(p@),
            Err(e) => provide_entry(*v) == Err::<ProvidedModel, Seq<char>>(e@),
        },
{
    match v {
        Json::Str(id) => Ok(ProvidedMod { id: id.clone(), version: None }),
        Json::Object(_) => {
            let id = match opt_str(v.get("id")) {
                Some(id) => id,
                None => {
                    return Err(err_text("provides entry is missing id"));
                },
            };
            let version = match v.get("version") {
                Some(Json::Str(s)) => Some(Version::parse(s.as_str())),
                _ => None,
            };
            Ok(ProvidedMod { id, version })
        },
        _ => Err(err_text("provides entry must be a string or object")),
    }
}

fn quilt_provides_exec(v: Option<&Json>) -> (r: Result<Vec<ProvidedMod>, String>)
    ensures
        match r {
            Ok(p) => quilt_provides(deref_opt(v)) == Ok::<Seq<ProvidedModel>, Seq<char>>(
                provided_views(p@),
            ),
            Err(e) => quilt_provides(deref_opt(v)) == Err::<Seq<ProvidedModel>, Seq<char>>(e@),
        },
{
    let mut out: Vec<ProvidedMod> = Vec::new();
    assert(provided_views(out@) =~= Seq::<ProvidedModel>::empty());
    match v {
        None => Ok(out),
        Some(Json::Array(items)) => {
            let mut i: usize = 0;
            assert(items@.skip(0) =~= items@);
            while i < items.len()
                invariant
                    i <= items@.len(),
                    deref_opt(v) == Some(Json::Array(*items)),
                    provide_entries(items@) == match provide_entries(items@.skip(i as int)) {
                        Err(e) => Err(e),
                        Ok(rest) => Ok(provided_views(out@) + rest),
                    },
                decreases items@.len() - i,
            {
                assert(items@.skip(i as int)[0] == items@[i as int]);
                assert(items@.skip(i as int).drop_first() =~= items@.skip(i + 1));
                match provide_entry_exec(&items[i]) {
                    Ok(p) => {
                        let ghost before = out@;
                        out.push(p);
                        assert(provided_views(out@) =~= provided_views(before).push(p@));
                        proof {
                            match provide_entries(items@.skip(i + 1)) {
                                Err(e) => {},
                                Ok(rest) => {
                                    assert(provided_views(before) + (seq![p@] + rest)
                                        =~= provided_views(out@) + rest);
                                },
                            }
                        }
                    },
                    Err(e) => {
                        return Err(e);
                    },
                }
                i = i + 1;
            }
            assert(items@.skip(items@.len() as int) =~= Seq::<Json>::empty());
            assert(provided_views(out@) + Seq::<ProvidedModel>::empty() =~= provided_views(out@));
            Ok(out)
        },
        Some(_) => Err(err_text("provides must be an array")),
    }
}

fn fabric_provides_exec(items: &Vec<Json>) -> (r: Vec<ProvidedMod>)
    ensures
        provided_views(r@) == fabric_provides(items@),
{
    let mut out: Vec<ProvidedMod> = Vec::new();
    let mut i: usize = 0;
    assert(items@.skip(0) =~= items@);
    assert(provided_views(out@) =~= Seq::<ProvidedModel>::empty());
    while i < items.len()
        invariant
            i <= items@.len(),
            fabric_provides(items@) == provided_views(out@) + fabric_provides(
                items@.skip(i as int),
            ),
        decreases items@.len() - i,
    {
        assert(items@.skip(i as int)[0] == items@[i as int]);
        assert(items@.skip(i as int).drop_first() =~= items@.skip(i + 1));
        match &items[i] {
            Json::Str(id) => {
                let p = ProvidedMod { id: id.clone(), version: None };
                let ghost before = out@;
                out.push(p);
                assert(provided_views(out@) =~= provided_views(before).push(p@));
                assert(provided_views(before) + (seq![p@] + fabric_provides(items@.skip(i + 1)))
                    =~= provided_views(out@) + fabric_provides(items@.skip(i + 1)));
            },
            _ => {},
        }
        i = i + 1;
    }
    assert(items@.skip(items@.len() as int) =~= Seq::<Json>::empty());
    assert(provided_views(out@) + Seq::<ProvidedModel>::empty() =~= provided_views(out@));
    out
}

fn collect_entrypoint_values(value: &Json, out: &mut Vec<String>)
    ensures
        strings(final(out)@) == strings(old(out)@) + entry_values(*value),
    decreases value,
{
    let ghost start = strings(out@);
    match value {
        Json::Str(class) => {
            out.push(class.clone());
            assert(strings(out@) =~= start + entry_values(*value));
        },
        Json::Object(_) => {
            if let Some(class) = opt_str(value.get("value")) {
                out.push(class);
            }
            assert(strings(out@) =~= start + entry_values(*value));
        },
        Json::Array(items) => {
            let mut i: usize = 0;
            assert(items@.skip(0) =~= items@);
            assert(start + entry_values(*value) =~= strings(out@) + entry_list(items@.skip(0)));
            while i < items.len()
                invariant
                    i <= items@.len(),
                    *value == Json::Array(*items),
                    start + entry_values(*value) == strings(out@) + entry_list(
                        items@.skip(i as int),
                    ),
                decreases items@.len() - i,
            {
                assert(items@.skip(i as int)[0] == items@[i as int]);
                assert(items@.skip(i as int).drop_first() =~= items@.skip(i + 1));
                let ghost before = strings(out@);
                assert(decreases_to!(*value => items@[i as int]));
                collect_entrypoint_values(&items[i], out);
                assert(before + (entry_values(items@[i as int]) + entry_list(items@.skip(i + 1)))
                    =~= strings(out@) + entry_list(items@.skip(i + 1)));
                i = i + 1;
            }
            assert(items@.skip(items@.len() as int) =~= Seq::<Json>::empty());
            assert(strings(out@) + Seq::<Seq<char>>::empty() =~= strings(out@));
        },
        _ => {
            assert(strings(out@) =~= start + entry_values(*value));
        },
    }
}

fn quilt_entrypoints_exec(v: Option<&Json>) -> (r: Vec<String>)
    ensures
        strings(r@) == quilt_entrypoints(deref_opt(v)),
{
    let mut out: Vec<String> = Vec::new();
    assert(strings(out@) =~= Seq::<Seq<char>>::empty());
    match v {
        Some(Json::Object(entries)) => {
            let mut i: usize = 0;
            assert(entries@.skip(0) =~= entries@);
            while i < entries.len()
                invariant
                    i <= entries@.len(),
                    entrypoint_map(entries@) == strings(out@) + entrypoint_map(
                        entries@.skip(i as int),
                    ),
                decreases entries@.len() - i,
            {
                assert(entries@.skip(i as int)[0] == entries@[i as int]);
                assert(entries@.skip(i as int).drop_first() =~= entries@.skip(i + 1));
                let ghost before = strings(out@);
                collect_entrypoint_values(&entries[i].value, &mut out);
                assert(before + (entry_values(entries@[i as int].value) + entrypoint_map(
                    entries@.skip(i + 1),
                )) =~= strings(out@) + entrypoint_map(entries@.skip(i + 1)));
                i = i + 1;
            }
            assert(entries@.skip(entries@.len() as int) =~= Seq::<JsonEntry>::empty());
            assert(strings(out@) + Seq::<Seq<char>>::empty() =~= strings(out@));
            out
        },
        _ => out,
    }
}

fn utf8_width_exec(c: char) -> (r: usize)
    ensures
        r == utf8_width(c),
{
    let code = c as u32;
    if code < 0x80 {
        1
    } else if code < 0x800 {
        2
    } else if code < 0x10000 {
        3
    } else {
        4
    }
}

pub(crate) proof fn lemma_utf8_len_concat(a: Seq<char>, b: Seq<char>)
    ensures
        utf8_len(a + b) == utf8_len(a) + utf8_len(b),
    decreases b.len(),
{
    if b.len() == 0 {
        assert(a + b =~= a);
    } else {
        lemma_utf8_len_concat(a, b.drop_last());
        assert((a + b).drop_last() =~= a + b.drop_last());
    }
}

pub(crate) proof fn lemma_encode_len(s: Seq<char>)
    ensures
        vstd::utf8::encode_utf8(s).len() == utf8_len(s),
    decreases s.len(),
{
    if s.len() > 0 {
        lemma_encode_len(s.drop_first());
        lemma_utf8_len_concat(seq![s[0]], s.drop_first());
        assert(seq![s[0]] + s.drop_first() =~= s);
        let one = seq![s[0]];
        assert(one.drop_last() =~= Seq::<char>::empty());
        assert(one.last() == s[0]);
        assert(utf8_len(one.drop_last()) == 0);
        assert(utf8_len(one) == utf8_width(s[0]));
        vstd::utf8::char_is_scalar(s[0]);
        assert(vstd::utf8::encode_scalar(s[0] as u32).len() == utf8_width(s[0]));
    }
}

/// Whether `b` may stand after the first byte of a mod id: `[a-z0-9-_]`.
pub open spec fn is_id_byte(b: u8) -> bool {
    (0x61 <= b && b <= 0x7a) || (0x30 <= b && b <= 0x39) || b == 0x2d || b == 0x5f
}

/// The mod-id pattern `^[a-z][a-z0-9-_]{1,63}$` over bytes.
pub open spec fn id_bytes_match(b: Seq<u8>) -> bool {
    &&& 2 <= b.len() <= 64
    &&& 0x61 <= b[0] <= 0x7a
    &&& forall|i: int| 1 <= i < b.len() ==> is_id_byte(#[trigger] b[i])
}

proof fn lemma_ascii_char(c: char)
    requires
        (c as u32) < 0x80,
    ensures
        '\0' <= c <= '\u{7f}',
{
}

proof fn lemma_low_bytes_ascii_chars(s: Seq<char>)
    requires
        forall|j: int|
            0 <= j < vstd::utf8::encode_utf8(s).len() ==> #[trigger] vstd::utf8::encode_utf8(s)[j]
                < 0x80,
    ensures
        vstd::utf8::is_ascii_chars(s),
    decreases s.len(),
{
    if s.len() > 0 {
        let e = vstd::utf8::encode_utf8(s);
        let c = s[0] as u32;
        let rest = s.drop_first();
        let head = vstd::utf8::encode_scalar(c);
        vstd::utf8::char_is_scalar(s[0]);
        assert(e =~= head + vstd::utf8::encode_utf8(rest));
        assert(head.len() >= 1);
        assert(e[0] == head[0]);
        if !vstd::utf8::has_width_1_encoding(c) {
            assert(vstd::utf8::leading_byte_width_2(c) >= 0x80) by (bit_vector);
            assert(vstd::utf8::leading_byte_width_3(c) >= 0x80) by (bit_vector);
            assert(vstd::utf8::leading_byte_width_4(c) >= 0x80) by (bit_vector);
            assert(false);
        }
        assert(head.len() == 1);
        lemma_ascii_char(s[0]);
        assert forall|j: int| 0 <= j < vstd::utf8::encode_utf8(rest).len() implies
            #[trigger] vstd::utf8::encode_utf8(rest)[j] < 0x80 by {
            assert(e[j + 1] == vstd::utf8::encode_utf8(rest)[j]);
        }
        lemma_low_bytes_ascii_chars(rest);
        assert forall|i: int| 0 <= i < s.len() implies '\0' <= #[trigger] s[i] <= '\u{7f}' by {
            if i > 0 {
                assert(s[i] == rest[i - 1]);
            }
        }
    }
}

/// The mod-id rule read over bytes: an id is accepted exactly when the bytes
/// of its UTF-8 encoding match `^[a-z][a-z0-9-_]{1,63}$`.
pub proof fn lemma_mod_id_rule_over_bytes(id: Seq<char>)
    ensures
        (mod_id_error(id) is None) <==> id_bytes_match(vstd::utf8::encode_utf8(id)),
{
    let e = vstd::utf8::encode_utf8(id);
    lemma_encode_len(id);
    if mod_id_error(id) is None {
        assert(vstd::utf8::is_ascii_chars(id)) by {
            assert forall|i: int| 0 <= i < id.len() implies '\0' <= #[trigger] id[i] <= '\u{7f}' by {
                if i > 0 {
                    assert(is_id_char(id[i]));
                }
            }
        }
        vstd::utf8::is_ascii_chars_encode_utf8(id);
        assert(e[0] == id[0] as u8);
        assert forall|i: int| 1 <= i < e.len() implies is_id_byte(#[trigger] e[i]) by {
            assert(is_id_char(id[i]));
            assert(e[i] == id[i] as u8);
        }
    }
    if id_bytes_match(e) {
        assert forall|j: int| 0 <= j < e.len() implies #[trigger] e[j] < 0x80 by {
            if j > 0 {
                assert(is_id_byte(e[j]));
            }
        }
        lemma_low_bytes_ascii_chars(id);
        vstd::utf8::is_ascii_chars_encode_utf8(id);
        assert(e[0] == id[0] as u8);
        assert forall|i: int| 1 <= i < id.len() implies is_id_char(#[trigger] id[i]) by {
            assert(is_id_byte(e[i]));
            assert(e[i] == id[i] as u8);
        }
    }
}

proof fn lemma_utf8_len_grows(s: Seq<char>, i: int, j: int)
    requires
        0 <= i <= j <= s.len(),
    ensures
        utf8_len(s.take(i)) <= utf8_len(s.take(j)),
    decreases j - i,
{
    if i < j {
        lemma_utf8_len_grows(s, i, j - 1);
        assert(s.take(j).drop_last() =~= s.take(j - 1));
    }
}

fn validate_mod_id(id: &String) -> (r: Result<(), String>)
    ensures
        match r {
            Ok(()) => mod_id_error(id@) is None,
            Err(e) => mod_id_error(id@) == Some(e@),
        },
        r is Ok <==> id_bytes_match(vstd::utf8::encode_utf8(id@)),
{
    proof {
        lemma_mod_id_rule_over_bytes(id@);
    }
    let chars = chars_of(id.as_str());
    let mut total: usize = 0;
    let mut i: usize = 0;
    let mut too_long = false;
    while i < chars.len() && !too_long
        invariant
            i <= chars@.len(),
            total <= 64,
            too_long ==> utf8_len(chars@) > 64,
            !too_long ==> total == utf8_len(chars@.take(i as int)),
        decreases chars@.len() - i + (if too_long { 0int } else { 1int }),
    {
        assert(chars@.take(i + 1).drop_last() =~= chars@.take(i as int));
        let w = utf8_width_exec(chars[i]);
        if total + w > 64 {
            proof {
                lemma_utf8_len_grows(chars@, i + 1, chars@.len() as int);
                assert(chars@.take(chars@.len() as int) =~= chars@);
            }
            too_long = true;
        } else {
            total = total + w;
            i = i + 1;
        }
    }
    proof {
        if !too_long {
            assert(chars@.take(chars@.len() as int) =~= chars@);
        }
    }
    if too_long || total < 2 {
        let mut msg: Vec<char> = Vec::new();
        push_str(&mut msg, "mod id ");
        push_quoted(&mut msg, chars.as_slice());
        push_str(&mut msg, " must be between 2 and 64 characters");
        return Err(string_of(msg.as_slice()));
    }
    if !('a' <= chars[0] && chars[0] <= 'z') {
        let mut msg: Vec<char> = Vec::new();
        push_str(&mut msg, "mod id ");
        push_quoted(&mut msg, chars.as_slice());
        push_str(&mut msg, " must start with a lowercase letter");
        return Err(string_of(msg.as_slice()));
    }
    let mut k: usize = 1;
    while k < chars.len()
        invariant
            1 <= k <= chars@.len(),
            chars@ == id@,
            2 <= utf8_len(id@) <= 64,
            'a' <= id@[0] && id@[0] <= 'z',
            forall|j: int| 1 <= j < k ==> is_id_char(#[trigger] chars@[j]),
        decreases chars@.len() - k,
    {
        let c = chars[k];
        if !(('a' <= c && c <= 'z') || ('0' <= c && c <= '9') || c == '-' || c == '_') {
            assert(!is_id_char(chars@[k as int]));
            proof {
                lemma_mod_id_rule_over_bytes(id@);
            }
            let mut msg: Vec<char> = Vec::new();
            push_str(&mut msg, "mod id ");
            push_quoted(&mut msg, chars.as_slice());
            push_str(&mut msg, " may only contain lowercase letters, digits, '-', and '_'");
            return Err(string_of(msg.as_slice()));
        }
        k = k + 1;
    }
    Ok(())
}

fn required_str(object: &Json, key: &str, label: &str) -> (r: Result<String, String>)
    ensures
        match r {
            Ok(s) => json_as_str(json_get(*object, key@)) == Some(s@),
            Err(e) => json_as_str(json_get(*object, key@)) is None && e@ == required_field_message(
                label@,
            ),
        },
{
    match opt_str(object.get(key)) {
        Some(s) => Ok(s),
        None => {
            let mut msg: Vec<char> = Vec::new();
            push_str(&mut msg, "missing required field ");
            push_str(&mut msg, label);
            Err(string_of(msg.as_slice()))
        },
    }
}

fn push_decimal_i64(out: &mut Vec<char>, n: i64)
    ensures
        final(out)@ == old(out)@ + decimal_i64(n),
{
    if n < 0 {
        out.push('-');
        let magnitude = (0i128 - (n as i128)) as u64;
        push_decimal(out, magnitude);
        assert(out@ =~= old(out)@ + decimal_i64(n));
    } else {
        push_decimal(out, n as u64);
    }
}

fn parse_quilt(root: &Json) -> (r: Result<ModCandidate, String>)
    ensures
        match r {
            Ok(c) => quilt_candidate(*root) == Ok::<CandidateModel, Seq<char>>(c@),
            Err(e) => quilt_candidate(*root) == Err::<CandidateModel, Seq<char>>(e@),
        },
{
    let schema = match root.get("schema_version") {
        Some(Json::Number(Some(n))) => *n,
        _ => {
            return Err(err_text("quilt.mod.json is missing schema_version"));
        },
    };
    if schema != 1 {
        let mut msg: Vec<char> = Vec::new();
        push_str(&mut msg, "unsupported quilt.mod.json schema_version ");
        push_decimal_i64(&mut msg, schema);
        return Err(string_of(msg.as_slice()));
    }
    let loader = match root.get("quilt_loader") {
        Some(Json::Object(entries)) => root.get("quilt_loader").unwrap(),
        _ => {
            return Err(err_text("quilt.mod.json is missing the quilt_loader object"));
        },
    };
    let id = required_str(loader, "id", "quilt_loader.id")?;
    validate_mod_id(&id)?;
    let group = opt_str(loader.get("group"));
    let version_text = required_str(loader, "version", "quilt_loader.version")?;
    let version = Version::parse(version_text.as_str());
    let name = match loader.get("metadata") {
        Some(Json::Object(_)) => opt_str(loader.get("metadata").unwrap().get("name")),
        _ => None,
    };
    let depends = dependency_list_exec(loader.get("depends"))?;
    let breaks = dependency_list_exec(loader.get("breaks"))?;
    let provides = quilt_provides_exec(loader.get("provides"))?;
    let entrypoints = quilt_entrypoints_exec(loader.get("entrypoints"));
    Ok(
        ModCandidate {
            format: ModFormat::Quilt,
            group,
            id,
            version,
            name,
            provides,
            depends,
            breaks,
            entrypoints,
        },
    )
}

fn parse_fabric(root: &Json) -> (r: Result<ModCandidate, String>)
    ensures
        match r {
            Ok(c) => fabric_candidate(*root) == Ok::<CandidateModel, Seq<char>>(c@),
            Err(e) => fabric_candidate(*root) == Err::<CandidateModel, Seq<char>>(e@),
        },
{
    let id = match opt_str(root.get("id")) {
        Some(id) => id,
        None => {
            return Err(err_text("fabric.mod.json is missing id"));
        },
    };
    validate_mod_id(&id)?;
    let version = match root.get("version") {
        Some(Json::Str(text)) => Version::parse(text.as_str()),
        _ => {
            return Err(err_text("fabric.mod.json is missing version"));
        },
    };
    let name = opt_str(root.get("name"));
    let mut depends = fabric_dependency_map_exec(root.get("depends"), false)?;
    let breaks = fabric_dependency_map_exec(root.get("breaks"), false)?;
    let mut advisory = fabric_dependency_map_exec(root.get("recommends"), true)?;
    let ghost required = depends@;
    let ghost optional_part = advisory@;
    depends.append(&mut advisory);
    assert(dependency_views(depends@) =~= dependency_views(required) + dependency_views(
        optional_part,
    ));
    let provides = match root.get("provides") {
        Some(Json::Array(items)) => fabric_provides_exec(items),
        _ => {
            let empty: Vec<ProvidedMod> = Vec::new();
            assert(provided_views(empty@) =~= Seq::<ProvidedModel>::empty());
            empty
        },
    };
    let entrypoints: Vec<String> = Vec::new();
    assert(strings(entrypoints@) =~= Seq::<Seq<char>>::empty());
    Ok(
        ModCandidate {
            format: ModFormat::Fabric,
            group: None,
            id,
            version,
            name,
            provides,
            depends,
            breaks,
            entrypoints,
        },
    )
}

impl ModCandidate {
    /// Decodes a parsed metadata document, choosing the format from its keys.
    pub fn from_json(root: &Json) -> (r: Result<Self, String>)
        ensures
            match r {
                Ok(c) => candidate_from_json(*root) == Ok::<CandidateModel, Seq<char>>(c@),
                Err(e) => candidate_from_json(*root) == Err::<CandidateModel, Seq<char>>(e@),
            },
    {
        if root.get("quilt_loader").is_some() {
            parse_quilt(root)
        } else if root.get("schemaVersion").is_some() || root.get("id").is_some() {
            parse_fabric(root)
        } else {
            Err(err_text("metadata is neither quilt.mod.json nor fabric.mod.json"))
        }
    }

    /// Parse metadata from raw JSON bytes, choosing the format automatically;
    /// the error is a human-readable message.
    pub fn parse(bytes: &[u8]) -> (r: Result<Self, String>)
        ensures
            match r {
                Ok(c) => candidate_from_bytes(bytes@) == Ok::<CandidateModel, Seq<char>>(c@),
                Err(e) => candidate_from_bytes(bytes@) == Err::<CandidateModel, Seq<char>>(e@),
            },
    {
        match parse_json(bytes) {
            Ok(root) => Self::from_json(&root),
            Err(error) => {
                let mut msg: Vec<char> = Vec::new();
                push_str(&mut msg, "invalid JSON: ");
                push_str(&mut msg, error.as_str());
                Err(string_of(msg.as_slice()))
            },
        }
    }
}


/// The keys of a JSON object, in order; none for anything else.
pub open spec fn object_keys(v: Option<Json>) -> Seq<Seq<char>> {
    match v {
        Some(Json::Object(entries)) => entries@.map_values(|e: JsonEntry| e.key@),
        _ => seq![],
    }
}

proof fn lemma_fabric_entries_shape(entries: Seq<JsonEntry>, optional: bool)
    ensures
        fabric_entries(entries, optional) matches Ok(ds) ==> {
            &&& ds.len() == entries.len()
            &&& forall|i: int|
                0 <= i < ds.len() ==> (#[trigger] ds[i]).id == entries[i].key@ && ds[i].optional
                    == optional
        },
    decreases entries.len(),
{
    if entries.len() > 0 {
        let rest = entries.drop_first();
        lemma_fabric_entries_shape(rest, optional);
        if let Ok(ds) = fabric_entries(entries, optional) {
            let r = fabric_entries(rest, optional)->Ok_0;
            assert forall|i: int| 0 <= i < ds.len() implies (#[trigger] ds[i]).id == entries[i].key@
                && ds[i].optional == optional by {
                if i > 0 {
                    assert(ds[i] == r[i - 1]);
                    assert(entries[i] == rest[i - 1]);
                }
            }
        }
    }
}

proof fn lemma_fabric_map_shape(v: Option<Json>, optional: bool)
    ensures
        fabric_dependency_map(v, optional) matches Ok(ds) ==> {
            &&& ds.len() == object_keys(v).len()
            &&& forall|i: int|
                0 <= i < ds.len() ==> (#[trigger] ds[i]).id == object_keys(v)[i] && ds[i].optional
                    == optional
        },
{
    if let Some(Json::Object(entries)) = v {
        lemma_fabric_entries_shape(entries@, optional);
    }
}

/// How a `fabric.mod.json` document's dependency maps become clauses: the
/// `depends` map gives required dependencies, one per key in key order,
/// followed by the `recommends` map as optional (advisory) ones; the
/// `breaks` map gives one breaks clause per key.
pub proof fn lemma_fabric_dependency_kinds(root: Json)
    requires
        fabric_candidate(root) is Ok,
    ensures
        ({
            let c = fabric_candidate(root)->Ok_0;
            let required = object_keys(json_get(root, "depends"@));
            let advisory = object_keys(json_get(root, "recommends"@));
            let broken = object_keys(json_get(root, "breaks"@));
            &&& c.depends.len() == required.len() + advisory.len()
            &&& forall|i: int|
                0 <= i < required.len() ==> (#[trigger] c.depends[i]).id == required[i]
                    && !c.depends[i].optional
            &&& forall|i: int|
                required.len() <= i < c.depends.len() ==> (#[trigger] c.depends[i]).id == advisory[i
                    - required.len()] && c.depends[i].optional
            &&& c.breaks.len() == broken.len()
            &&& forall|i: int|
                0 <= i < broken.len() ==> (#[trigger] c.breaks[i]).id == broken[i]
        }),
{
    lemma_fabric_map_shape(json_get(root, "depends"@), false);
    lemma_fabric_map_shape(json_get(root, "recommends"@), true);
    lemma_fabric_map_shape(json_get(root, "breaks"@), false);
    let c = fabric_candidate(root)->Ok_0;
    let d = fabric_dependency_map(json_get(root, "depends"@), false)->Ok_0;
    let a = fabric_dependency_map(json_get(root, "recommends"@), true)->Ok_0;
    assert(c.depends == d + a);
    assert forall|i: int| d.len() <= i < c.depends.len() implies c.depends[i] == a[i - d.len()] by {}
}


/// How a Quilt dependency entry reads: a bare string names a required
/// dependency on any version; an object is optional exactly when its
/// `optional` field is `true`, and without a `versions` field (or with a
/// null one) it accepts every version.
pub proof fn lemma_dependency_entry_meaning(v: Json, x: VersionModel)
    ensures
        v is Str ==> dependency_entry(v) is Ok && dependency_entry(v)->Ok_0.id == v->Str_0@
            && !dependency_entry(v)->Ok_0.optional && spec_matches(
            dependency_entry(v)->Ok_0.versions,
            x,
        ),
        v is Object && dependency_entry(v) is Ok ==> {
            let entries = v->Object_0@;
            let d = dependency_entry(v)->Ok_0;
            &&& d.optional <==> json_field(entries, "optional"@) == Some(Json::Bool(true))
            &&& (json_field(entries, "versions"@) is None || json_field(entries, "versions"@)
                == Some(Json::Null)) ==> spec_matches(d.versions, x)
            &&& Some(d.id) == json_as_str(json_field(entries, "id"@))
        },
{
    assert(predicate_matches(any_version()[0], x));
}


/// How a provides entry reads: a bare string provides that id with no
/// version of its own (so it carries the providing mod's version); an
/// object provides its `id`, at the version its `version` text parses to
/// when it has one.
pub proof fn lemma_provide_entry_meaning(v: Json)
    ensures
        v is Str ==> provide_entry(v) == Ok::<ProvidedModel, Seq<char>>(
            ProvidedModel { id: v->Str_0@, version: None },
        ),
        v is Object && provide_entry(v) is Ok ==> {
            let entries = v->Object_0@;
            let p = provide_entry(v)->Ok_0;
            &&& Some(p.id) == json_as_str(json_field(entries, "id"@))
            &&& json_as_str(json_field(entries, "version"@)) matches Some(s) ==> p.version == Some(
                parse_version(s),
            )
            &&& json_as_str(json_field(entries, "version"@)) is None ==> p.version is None
        },
        !(v is Str || v is Object) ==> provide_entry(v) is Err,
{
}

} // verus!
