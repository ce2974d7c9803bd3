//! Mod discovery: which files of a mods directory are jars, and the metadata
//! read out of a jar.
//!
//! Like Quilt, a jar's `quilt.mod.json` is looked up first, then
//! `fabric.mod.json`; each jar gets a result of its own so one broken jar does
//! not hide the mods around it. The `zip` crate reads the archive.

use vstd::prelude::*;

use crate::metadata::{candidate_from_bytes, CandidateModel, ModCandidate};
use crate::text::{texts, chars_equal_str, chars_of, copy_range, push_str, string_of};
use crate::version::{compare_chars, compare_text, lemma_text_laws};

verus! {

// ---------------------------------------------------------------------------
// Jar file names
// ---------------------------------------------------------------------------

/// The last index of `.` in `s`.
pub open spec fn last_dot(s: Seq<char>) -> Option<int>
    decreases s.len(),
{
    if s.len() == 0 {
        None
    } else if s.last() == '.' {
        Some(s.len() - 1)
    } else {
        last_dot(s.drop_last())
    }
}

proof fn lemma_last_dot(s: Seq<char>)
    ensures
        match last_dot(s) {
            Some(i) => 0 <= i < s.len() && s[i] == '.' && forall|j: int| i < j < s.len() ==> s[j]
                != '.',
            None => forall|j: int| 0 <= j < s.len() ==> s[j] != '.',
        },
    decreases s.len(),
{
    if s.len() > 0 && s.last() != '.' {
        lemma_last_dot(s.drop_last());
        assert forall|j: int| 0 <= j < s.len() - 1 implies s[j] == s.drop_last()[j] by {}
    }
}

/// The extension of a file name (`Path::extension`): what follows its last
/// `.`, unless the name is `..`, has no `.`, or has its only `.` in front.
pub open spec fn extension(name: Seq<char>) -> Option<Seq<char>> {
    if name == seq!['.', '.'] {
        None
    } else {
        match last_dot(name) {
            Some(i) => if i == 0 {
                None
            } else {
                Some(name.subrange(i + 1, name.len() as int))
            },
            None => None,
        }
    }
}

/// Whether a file name names a jar.
pub open spec fn is_jar(name: Seq<char>) -> bool {
    extension(name) == Some(seq!['j', 'a', 'r'])
}

/// The jar names among `names`, in order.
pub open spec fn jars_among(names: Seq<Seq<char>>) -> Seq<Seq<char>>
    decreases names.len(),
{
    if names.len() == 0 {
        seq![]
    } else {
        let rest = jars_among(names.drop_last());
        if is_jar(names.last()) {
            rest.push(names.last())
        } else {
            rest
        }
    }
}

/// `t` inserted into `sorted` after every name not greater than it.
pub open spec fn insert_name(sorted: Seq<Seq<char>>, t: Seq<char>) -> Seq<Seq<char>>
    decreases sorted.len(),
{
    if sorted.len() > 0 && compare_text(t, sorted.last()) < 0 {
        insert_name(sorted.drop_last(), t).push(sorted.last())
    } else {
        sorted.push(t)
    }
}

/// `names` in ascending order (string order: by code point, which is the
/// byte order of their UTF-8 encodings).
pub open spec fn sort_names(names: Seq<Seq<char>>) -> Seq<Seq<char>>
    decreases names.len(),
{
    if names.len() == 0 {
        seq![]
    } else {
        insert_name(sort_names(names.drop_last()), names.last())
    }
}

fn is_jar_name(name: &[char]) -> (r: bool)
    ensures
        r == is_jar(name@),
{
    proof {
        lemma_last_dot(name@);
    }
    proof {
        reveal_strlit("..");
        assert(".."@ =~= seq!['.', '.']);
    }
    if chars_equal_str(name, "..") {
        return false;
    }
    let mut i = name.len();
    while i > 0 && name[i - 1] != '.'
        invariant
            i <= name@.len(),
            forall|j: int| i <= j < name@.len() ==> name@[j] != '.',
        decreases i,
    {
        i = i - 1;
    }
    proof {
        let k = last_dot(name@);
        match k {
            Some(d) => {
                if d < i - 1 {
                } else if d > i - 1 {
                    assert(name@[d] == '.');
                }
            },
            None => {
                if i > 0 {
                    assert(name@[i - 1] == '.');
                }
            },
        }
    }
    if i <= 1 {
        return false;
    }
    let ext = copy_range(name, i, name.len());
    let r = chars_equal_str(ext.as_slice(), "jar");
    proof {
        reveal_strlit("jar");
        assert("jar"@ =~= seq!['j', 'a', 'r']);
    }
    r
}

fn insert_name_exec(sorted: &mut Vec<String>, t: String)
    ensures
        texts(final(sorted)@) == insert_name(texts(old(sorted)@), t@),
{
    let ghost s = texts(sorted@);
    let mut j: usize = sorted.len();
    assert(s.take(j as int) =~= s);
    assert(s.skip(j as int) =~= Seq::<Seq<char>>::empty());
    let name = chars_of(t.as_str());
    loop
        invariant
            j <= s.len(),
            s == texts(sorted@),
            name@ == t@,
            insert_name(s, t@) == insert_name(s.take(j as int), t@) + s.skip(j as int),
        ensures
            j <= s.len(),
            insert_name(s, t@) == insert_name(s.take(j as int), t@) + s.skip(j as int),
            j == 0 || compare_text(t@, s[j - 1]) >= 0,
        decreases j,
    {
        if j == 0 {
            break;
        }
        let other = chars_of(sorted[j - 1].as_str());
        assert(other@ == s[j - 1]);
        if compare_chars(name.as_slice(), other.as_slice()) >= 0 {
            break;
        }
        proof {
            let jj = j as int;
            assert(s.take(jj).drop_last() =~= s.take(jj - 1));
            assert(s.take(jj).last() == s[jj - 1]);
            assert(insert_name(s.take(jj - 1), t@).push(s[jj - 1]) + s.skip(jj) =~= insert_name(
                s.take(jj - 1),
                t@,
            ) + s.skip(jj - 1));
        }
        j = j - 1;
    }
    proof {
        if j > 0 {
            assert(s.take(j as int).drop_last() =~= s.take(j - 1));
            assert(s.take(j as int).last() == s[j - 1]);
        } else {
            assert(s.take(0) =~= Seq::<Seq<char>>::empty());
        }
        assert(insert_name(s.take(j as int), t@) == s.take(j as int).push(t@));
    }
    sorted.insert(j, t);
    assert(texts(sorted@) =~= s.take(j as int).push(t@) + s.skip(j as int));
}

/// The jars among the file names of a directory (those whose extension is
/// `jar`), sorted so that discovery is deterministic.
pub fn jar_names(names: Vec<String>) -> (r: Vec<String>)
    ensures
        texts(r@) == sort_names(jars_among(texts(names@))),
{
    let ghost all = texts(names@);
    let ghost orig = names@;
    let n = names.len();
    let mut jars: Vec<String> = Vec::new();
    let mut k: usize = 0;
    assert(texts(jars@) =~= jars_among(all.take(0)));
    for name in it: names.into_iter()
        invariant
            it.seq() == orig,
            k == it.index(),
            n == orig.len(),
            all == texts(orig),
            texts(jars@) == jars_among(all.take(k as int)),
    {
        assert(all.take(k + 1).drop_last() =~= all.take(k as int));
        assert(all.take(k + 1).last() == name@);
        let cs = chars_of(name.as_str());
        if is_jar_name(cs.as_slice()) {
            let ghost before = jars@;
            jars.push(name);
            assert(texts(jars@) =~= texts(before).push(cs@));
        }
        k = k + 1;
    }
    assert(all.take(all.len() as int) =~= all);
    let ghost js = texts(jars@);
    let ghost jorig = jars@;
    let m = jars.len();
    let mut sorted: Vec<String> = Vec::new();
    assert(texts(sorted@) =~= sort_names(js.take(0)));
    let mut q: usize = 0;
    for name in it: jars.into_iter()
        invariant
            it.seq() == jorig,
            q == it.index(),
            m == jorig.len(),
            js == texts(jorig),
            texts(sorted@) == sort_names(js.take(q as int)),
    {
        assert(js.take(q + 1).drop_last() =~= js.take(q as int));
        assert(js.take(q + 1).last() == name@);
        insert_name_exec(&mut sorted, name);
        q = q + 1;
    }
    assert(js.take(js.len() as int) =~= js);
    sorted
}

/// Whether no name of `s` is greater than one that follows it.
pub open spec fn names_ordered(s: Seq<Seq<char>>) -> bool {
    forall|i: int, j: int| 0 <= i < j < s.len() ==> compare_text(#[trigger] s[i], #[trigger] s[j]) <= 0
}

proof fn lemma_insert_name(s: Seq<Seq<char>>, t: Seq<char>)
    requires
        names_ordered(s),
    ensures
        names_ordered(insert_name(s, t)),
        insert_name(s, t).to_multiset() == s.to_multiset().insert(t),
        forall|i: int|
            0 <= i < s.len() + 1 ==> #[trigger] insert_name(s, t)[i] == t || s.contains(
                insert_name(s, t)[i],
            ),
        insert_name(s, t).len() == s.len() + 1,
    decreases s.len(),
{
    broadcast use vstd::seq_lib::group_to_multiset_ensures;

    if s.len() > 0 && compare_text(t, s.last()) < 0 {
        let p = s.drop_last();
        let last = s.last();
        assert(s =~= p.push(last));
        assert(names_ordered(p)) by {
            assert forall|i: int, j: int| 0 <= i < j < p.len() implies compare_text(
                #[trigger] p[i],
                #[trigger] p[j],
            ) <= 0 by {
                assert(p[i] == s[i] && p[j] == s[j]);
            }
        }
        lemma_insert_name(p, t);
        let q = insert_name(p, t);
        let r = q.push(last);
        assert forall|i: int, j: int| 0 <= i < j < r.len() implies compare_text(
            #[trigger] r[i],
            #[trigger] r[j],
        ) <= 0 by {
            if j == r.len() - 1 {
                assert(r[i] == q[i]);
                if q[i] != t {
                    assert(p.contains(q[i]));
                    let k = choose|k: int| 0 <= k < p.len() && p[k] == q[i];
                    assert(s[k] == p[k]);
                    assert(compare_text(s[k], s[s.len() - 1]) <= 0);
                }
            } else {
                assert(r[i] == q[i] && r[j] == q[j]);
            }
        }
        assert forall|i: int| 0 <= i < s.len() + 1 implies #[trigger] r[i] == t || s.contains(
            r[i],
        ) by {
            if i == r.len() - 1 {
                assert(s[s.len() - 1] == last);
            } else {
                assert(r[i] == q[i]);
                if q[i] != t {
                    assert(p.contains(q[i]));
                    let k = choose|k: int| 0 <= k < p.len() && p[k] == q[i];
                    assert(s[k] == p[k]);
                }
            }
        }
    } else {
        let r = s.push(t);
        assert forall|i: int, j: int| 0 <= i < j < r.len() implies compare_text(
            #[trigger] r[i],
            #[trigger] r[j],
        ) <= 0 by {
            if j == s.len() {
                assert(r[i] == s[i]);
                if i < s.len() - 1 {
                    assert(compare_text(s[i], s[s.len() - 1]) <= 0);
                }
                lemma_text_laws(s[i], s.last(), t);
                lemma_text_laws(t, s.last(), s[i]);
            } else {
                assert(r[i] == s[i] && r[j] == s[j]);
            }
        }
        assert forall|i: int| 0 <= i < s.len() + 1 implies #[trigger] r[i] == t || s.contains(
            r[i],
        ) by {
            if i < s.len() {
                assert(r[i] == s[i]);
            }
        }
    }
}

/// Sorting puts the names in ascending order and keeps each of them.
pub proof fn lemma_sort_names(names: Seq<Seq<char>>)
    ensures
        names_ordered(sort_names(names)),
        sort_names(names).to_multiset() == names.to_multiset(),
    decreases names.len(),
{
    broadcast use vstd::seq_lib::group_to_multiset_ensures;

    if names.len() > 0 {
        lemma_sort_names(names.drop_last());
        lemma_insert_name(sort_names(names.drop_last()), names.last());
        assert(names =~= names.drop_last().push(names.last()));
    } else {
        assert(sort_names(names) =~= Seq::<Seq<char>>::empty());
    }
}

// ---------------------------------------------------------------------------
// Jar metadata
// ---------------------------------------------------------------------------

/// The result of inspecting a single jar.
#[derive(Debug)]
pub struct DiscoveredMod {
    pub path: String,
    pub result: Result<ModCandidate, String>,
}

/// What looking an entry up in a jar gave.
pub enum JarEntry {
    /// The entry's bytes.
    Found(Vec<u8>),
    /// The archive has no entry of that name.
    Missing,
    /// The entry was found but could not be read (the error's text).
    ReadFailed(String),
    /// The entry could not be opened (the error's text).
    OpenFailed(String),
    /// The bytes are not a zip archive (the error's text).
    NotAnArchive(String),
}

pub enum JarEntryModel {
    Found(Seq<u8>),
    Missing,
    ReadFailed(Seq<char>),
    OpenFailed(Seq<char>),
    NotAnArchive(Seq<char>),
}

impl View for JarEntry {
    type V = JarEntryModel;

    open spec fn view(&self) -> JarEntryModel {
        match self {
            JarEntry::Found(b) => JarEntryModel::Found(b@),
            JarEntry::Missing => JarEntryModel::Missing,
            JarEntry::ReadFailed(e) => JarEntryModel::ReadFailed(e@),
            JarEntry::OpenFailed(e) => JarEntryModel::OpenFailed(e@),
            JarEntry::NotAnArchive(e) => JarEntryModel::NotAnArchive(e@),
        }
    }
}

/// What the `zip` crate gives for entry `name` of the archive `jar`:
/// `ZipArchive::new` on the bytes, `ZipArchive::by_name`, then
/// `Read::read_to_end` on the entry.
pub uninterp spec fn zip_entry(jar: Seq<u8>, name: Seq<char>) -> JarEntryModel;

/// Opens `jar` with `zip::ZipArchive::new` over an in-memory cursor, looks
/// `name` up with `ZipArchive::by_name` and reads it whole; errors are kept
/// as their `Display` text, and `ZipError::FileNotFound` is [`JarEntry::Missing`].
/// The contract only names the outcome.
#[verifier::external_body]
fn read_entry(jar: &[u8], name: &str) -> (r: JarEntry)
    ensures
        r@ == zip_entry(jar@, name@),
{
    let mut archive = match zip::ZipArchive::new(std::io::Cursor::new(jar)) {
        Ok(archive) => archive,
        Err(error) => return JarEntry::NotAnArchive(error.to_string()),
    };
    let entry = match archive.by_name(name) {
        Ok(mut entry) => {
            let mut bytes = Vec::new();
            std::io::Read::read_to_end(&mut entry, &mut bytes).map_or_else(
                |error| JarEntry::ReadFailed(error.to_string()), |_| JarEntry::Found(bytes))
        },
        Err(zip::result::ZipError::FileNotFound) => JarEntry::Missing,
        Err(error) => JarEntry::OpenFailed(error.to_string()),
    };
    entry
}

/// What an entry lookup decides for the jar at `path`: nothing yet when the
/// entry is missing, else the parsed metadata or the error to report.
pub open spec fn entry_outcome(path: Seq<char>, name: Seq<char>, e: JarEntryModel) -> Option<
    Result<CandidateModel, Seq<char>>,
> {
    match e {
        JarEntryModel::Missing => None,
        JarEntryModel::Found(bytes) => Some(
            match candidate_from_bytes(bytes) {
                Ok(c) => Ok(c),
                Err(error) => Err(path + ": "@ + error),
            },
        ),
        JarEntryModel::ReadFailed(error) => Some(Err("failed to read "@ + name + ": "@ + error)),
        JarEntryModel::OpenFailed(error) => Some(Err("failed to open "@ + name + ": "@ + error)),
        JarEntryModel::NotAnArchive(error) => Some(Err(path + " is not a valid jar: "@ + error)),
    }
}

/// The metadata of the jar at `path` whose bytes are `jar`.
pub open spec fn jar_metadata(path: Seq<char>, jar: Seq<u8>) -> Result<CandidateModel, Seq<char>> {
    match entry_outcome(path, "quilt.mod.json"@, zip_entry(jar, "quilt.mod.json"@)) {
        Some(r) => r,
        None => match entry_outcome(path, "fabric.mod.json"@, zip_entry(jar, "fabric.mod.json"@)) {
            Some(r) => r,
            None => Err(path + " contains no quilt.mod.json or fabric.mod.json"@),
        },
    }
}

/// The view of an optional metadata outcome.
pub open spec fn outcome_view(o: Option<Result<ModCandidate, String>>) -> Option<
    Result<CandidateModel, Seq<char>>,
> {
    match o {
        Some(Ok(c)) => Some(Ok(c@)),
        Some(Err(e)) => Some(Err(e@)),
        None => None,
    }
}

/// The view of a metadata result.
pub open spec fn result_view(r: Result<ModCandidate, String>) -> Result<CandidateModel, Seq<char>> {
    match r {
        Ok(c) => Ok(c@),
        Err(e) => Err(e@),
    }
}

/// `a` followed by `b`, as a `String`.
fn concat2(a: &str, b: &str) -> (r: String)
    ensures
        r@ == a@ + b@,
{
    let mut out: Vec<char> = Vec::new();
    push_str(&mut out, a);
    push_str(&mut out, b);
    string_of(out.as_slice())
}

/// `a` followed by `b` and `c`, as a `String`.
fn concat3(a: &str, b: &str, c: &str) -> (r: String)
    ensures
        r@ == a@ + b@ + c@,
{
    let mut out: Vec<char> = Vec::new();
    push_str(&mut out, a);
    push_str(&mut out, b);
    push_str(&mut out, c);
    string_of(out.as_slice())
}

/// `a` followed by `b`, `c` and `d`, as a `String`.
fn concat4(a: &str, b: &str, c: &str, d: &str) -> (r: String)
    ensures
        r@ == a@ + b@ + c@ + d@,
{
    let mut out: Vec<char> = Vec::new();
    push_str(&mut out, a);
    push_str(&mut out, b);
    push_str(&mut out, c);
    push_str(&mut out, d);
    string_of(out.as_slice())
}

/// The metadata of a found entry, or the parse error prefixed by the path.
fn parse_found(path: &str, bytes: &[u8]) -> (r: Result<ModCandidate, String>)
    ensures
        result_view(r) == match candidate_from_bytes(bytes@) {
            Ok(c) => Ok(c),
            Err(error) => Err(path@ + ": "@ + error),
        },
{
    match ModCandidate::parse(bytes) {
        Ok(c) => Ok(c),
        Err(error) => Err(concat3(path, ": ", error.as_str())),
    }
}

/// Decides what an entry lookup means for the jar at `path`: `None` when the
/// entry is missing (the next name is tried), else the parsed metadata or the
/// error message.
pub fn metadata_from_entry(path: &str, name: &str, entry: JarEntry) -> (r: Option<
    Result<ModCandidate, String>,
>)
    ensures
        outcome_view(r) == entry_outcome(path@, name@, entry@),
{
    match entry {
        JarEntry::Missing => None,
        JarEntry::Found(bytes) => Some(parse_found(path, bytes.as_slice())),
        JarEntry::ReadFailed(error) => Some(
            Err(concat4("failed to read ", name, ": ", error.as_str())),
        ),
        JarEntry::OpenFailed(error) => Some(
            Err(concat4("failed to open ", name, ": ", error.as_str())),
        ),
        JarEntry::NotAnArchive(error) => Some(
            Err(concat3(path, " is not a valid jar: ", error.as_str())),
        ),
    }
}

/// Reads and parses the mod metadata of the jar at `path` (used in messages)
/// whose bytes are `jar`: `quilt.mod.json` first, then `fabric.mod.json`.
pub fn read_jar_metadata(path: &str, jar: &[u8]) -> (r: Result<ModCandidate, String>)
    ensures
        result_view(r) == jar_metadata(path@, jar@),
{
    let quilt = read_entry(jar, "quilt.mod.json");
    match metadata_from_entry(path, "quilt.mod.json", quilt) {
        Some(r) => return r,
        None => {},
    }
    let fabric = read_entry(jar, "fabric.mod.json");
    match metadata_from_entry(path, "fabric.mod.json", fabric) {
        Some(r) => r,
        None => Err(concat2(path, " contains no quilt.mod.json or fabric.mod.json")),
    }
}

} // verus!
