//! An index of a whole source tree: the types of every file, ordered by
//! qualified name.

use vstd::prelude::*;

use crate::java::model::{type_views, Index, IndexModel, JavaType, JavaTypeModel};
use crate::java::scan::{file_types, parse_file};
use crate::text::{chars_of, string_of};
use crate::version::{compare_chars, compare_text, lemma_text_laws};

verus! {

/// A source file of the tree: its path below the root (with `/` between
/// components) and its text.
pub struct SourceFile {
    pub relative_path: String,
    pub source: String,
}

/// The types of `files`, file after file.
pub open spec fn files_types(files: Seq<SourceFile>) -> Seq<JavaTypeModel>
    decreases files.len(),
{
    if files.len() == 0 {
        seq![]
    } else {
        files_types(files.drop_last()) + file_types(
            files.last().relative_path@,
            files.last().source@,
        )
    }
}

/// Whether `a` is named before `b` (string order: by code point, a prefix
/// first).
pub open spec fn named_before(a: JavaTypeModel, b: JavaTypeModel) -> bool {
    compare_text(a.qualified_name, b.qualified_name) < 0
}

/// `t` inserted into `sorted` after every type not named after it.
pub open spec fn insert_by_name(sorted: Seq<JavaTypeModel>, t: JavaTypeModel) -> Seq<
    JavaTypeModel,
>
    decreases sorted.len(),
{
    if sorted.len() > 0 && named_before(t, sorted.last()) {
        insert_by_name(sorted.drop_last(), t).push(sorted.last())
    } else {
        sorted.push(t)
    }
}

/// `ts` stably sorted by qualified name.
pub open spec fn sort_by_name(ts: Seq<JavaTypeModel>) -> Seq<JavaTypeModel>
    decreases ts.len(),
{
    if ts.len() == 0 {
        seq![]
    } else {
        insert_by_name(sort_by_name(ts.drop_last()), ts.last())
    }
}

/// Whether no type of `ts` is named before one that precedes it.
pub open spec fn ordered_by_name(ts: Seq<JavaTypeModel>) -> bool {
    forall|i: int, j: int| 0 <= i < j < ts.len() ==> !named_before(#[trigger] ts[j], #[trigger] ts[i])
}

/// The index of `files`.
pub open spec fn index_of_files(files: Seq<SourceFile>, source_version: Seq<char>) -> IndexModel {
    IndexModel {
        source_version,
        file_count: files.len(),
        types: sort_by_name(files_types(files)),
    }
}

proof fn lemma_insert_step(s: Seq<JavaTypeModel>, t: JavaTypeModel, j: int)
    requires
        0 < j <= s.len(),
        named_before(t, s[j - 1]),
        insert_by_name(s, t) == insert_by_name(s.take(j), t) + s.skip(j),
    ensures
        insert_by_name(s, t) == insert_by_name(s.take(j - 1), t) + s.skip(j - 1),
{
    assert(s.take(j).drop_last() =~= s.take(j - 1));
    assert(s.take(j).last() == s[j - 1]);
    assert(insert_by_name(s.take(j - 1), t).push(s[j - 1]) + s.skip(j) =~= insert_by_name(
        s.take(j - 1),
        t,
    ) + s.skip(j - 1));
}

/// Inserts `t` into `sorted` after every type not named after it.
fn insert_by_name_exec(sorted: &mut Vec<JavaType>, t: JavaType)
    ensures
        type_views(final(sorted)@) == insert_by_name(type_views(old(sorted)@), t@),
{
    let ghost s = type_views(sorted@);
    let mut j: usize = sorted.len();
    assert(s.take(j as int) =~= s);
    assert(s.skip(j as int) =~= Seq::<JavaTypeModel>::empty());
    let name = chars_of(t.qualified_name.as_str());
    loop
        invariant
            j <= s.len(),
            s == type_views(sorted@),
            name@ == t@.qualified_name,
            insert_by_name(s, t@) == insert_by_name(s.take(j as int), t@) + s.skip(j as int),
        ensures
            j <= s.len(),
            insert_by_name(s, t@) == insert_by_name(s.take(j as int), t@) + s.skip(j as int),
            j == 0 || !named_before(t@, s[j - 1]),
        decreases j,
    {
        if j == 0 {
            break;
        }
        let other = chars_of(sorted[j - 1].qualified_name.as_str());
        assert(other@ == s[j - 1].qualified_name);
        if compare_chars(name.as_slice(), other.as_slice()) >= 0 {
            break;
        }
        proof {
            lemma_insert_step(s, t@, j as int);
        }
        j = j - 1;
    }
    proof {
        if j > 0 {
            assert(s.take(j as int).drop_last() =~= s.take(j - 1));
            assert(s.take(j as int).last() == s[j - 1]);
        } else {
            assert(s.take(0) =~= Seq::<JavaTypeModel>::empty());
        }
        assert(insert_by_name(s.take(j as int), t@) == s.take(j as int).push(t@));
    }
    sorted.insert(j, t);
    assert(type_views(sorted@) =~= s.take(j as int).push(t@) + s.skip(j as int));
}

/// The types of `files`, file after file.
fn collect_types(files: &Vec<SourceFile>) -> (r: Vec<JavaType>)
    ensures
        type_views(r@) == files_types(files@),
{
    let mut all: Vec<JavaType> = Vec::new();
    let mut i: usize = 0;
    assert(type_views(all@) =~= files_types(files@.take(0)));
    while i < files.len()
        invariant
            i <= files@.len(),
            type_views(all@) == files_types(files@.take(i as int)),
        decreases files@.len() - i,
    {
        let mut found = parse_file(files[i].relative_path.as_str(), files[i].source.as_str());
        let ghost before = all@;
        let ghost added = found@;
        all.append(&mut found);
        assert(files@.take(i + 1).drop_last() =~= files@.take(i as int));
        assert(type_views(all@) =~= type_views(before) + type_views(added));
        i = i + 1;
    }
    assert(files@.take(files@.len() as int) =~= files@);
    all
}

/// `all`, stably sorted by qualified name.
fn sort_types(all: Vec<JavaType>) -> (r: Vec<JavaType>)
    ensures
        type_views(r@) == sort_by_name(type_views(all@)),
{
    let ghost ts = type_views(all@);
    let ghost orig = all@;
    let n = all.len();
    let mut sorted: Vec<JavaType> = Vec::new();
    assert(type_views(sorted@) =~= sort_by_name(ts.take(0)));
    let mut k: usize = 0;
    for t in it: all.into_iter()
        invariant
            it.seq() == orig,
            k == it.index(),
            n == orig.len(),
            ts == type_views(orig),
            type_views(sorted@) == sort_by_name(ts.take(k as int)),
    {
        assert(ts.take(k + 1).drop_last() =~= ts.take(k as int));
        assert(ts.take(k + 1).last() == t@);
        insert_by_name_exec(&mut sorted, t);
        k = k + 1;
    }
    assert(ts.take(ts.len() as int) =~= ts);
    sorted
}

/// Builds the index of a source tree from its files, in the order they were
/// found: the types of every file, stably sorted by qualified name.
pub fn build_index_from(files: Vec<SourceFile>, source_version: &str) -> (r: Index)
    ensures
        r@ == index_of_files(files@, source_version@),
{
    let all = collect_types(&files);
    let types = sort_types(all);
    let version = string_of(chars_of(source_version).as_slice());
    Index { source_version: version, file_count: files.len(), types }
}


proof fn lemma_insert_by_name(s: Seq<JavaTypeModel>, t: JavaTypeModel)
    requires
        ordered_by_name(s),
    ensures
        ordered_by_name(insert_by_name(s, t)),
        insert_by_name(s, t).to_multiset() == s.to_multiset().insert(t),
        insert_by_name(s, t).len() == s.len() + 1,
        forall|i: int|
            0 <= i < s.len() + 1 ==> #[trigger] insert_by_name(s, t)[i] == t || s.contains(
                insert_by_name(s, t)[i],
            ),
    decreases s.len(),
{
    broadcast use vstd::seq_lib::group_to_multiset_ensures;

    if s.len() > 0 && named_before(t, s.last()) {
        let p = s.drop_last();
        let last = s.last();
        assert(s =~= p.push(last));
        assert(ordered_by_name(p)) by {
            assert forall|i: int, j: int| 0 <= i < j < p.len() implies !named_before(
                #[trigger] p[j],
                #[trigger] p[i],
            ) by {
                assert(p[i] == s[i] && p[j] == s[j]);
            }
        }
        lemma_insert_by_name(p, t);
        let q = insert_by_name(p, t);
        let r = q.push(last);
        assert forall|i: int, j: int| 0 <= i < j < r.len() implies !named_before(
            #[trigger] r[j],
            #[trigger] r[i],
        ) by {
            if j == r.len() - 1 {
                assert(r[i] == q[i]);
                if q[i] == t {
                    lemma_text_laws(t.qualified_name, last.qualified_name, last.qualified_name);
                } else {
                    assert(p.contains(q[i]));
                    let k = choose|k: int| 0 <= k < p.len() && p[k] == q[i];
                    assert(s[k] == p[k]);
                    assert(!named_before(s[s.len() - 1], s[k]));
                }
            } else {
                assert(r[i] == q[i] && r[j] == q[j]);
            }
        }
        assert forall|i: int| 0 <= i < s.len() + 1 implies #[trigger] r[i] == t || s.contains(
            r[i],
        ) by {
            if i == r.len() - 1 {
                assert(s[s.len() - 1] == last);
            } else {
                assert(r[i] == q[i]);
                if q[i] != t {
                    assert(p.contains(q[i]));
                    let k = choose|k: int| 0 <= k < p.len() && p[k] == q[i];
                    assert(s[k] == p[k]);
                }
            }
        }
    } else {
        let r = s.push(t);
        assert forall|i: int, j: int| 0 <= i < j < r.len() implies !named_before(
            #[trigger] r[j],
            #[trigger] r[i],
        ) by {
            if j == s.len() {
                assert(r[i] == s[i]);
                if i < s.len() - 1 {
                    assert(!named_before(s[s.len() - 1], s[i]));
                }
                lemma_text_laws(s[i].qualified_name, s.last().qualified_name, t.qualified_name);
                lemma_text_laws(t.qualified_name, s[i].qualified_name, s.last().qualified_name);
            } else {
                assert(r[i] == s[i] && r[j] == s[j]);
            }
        }
        assert forall|i: int| 0 <= i < s.len() + 1 implies #[trigger] r[i] == t || s.contains(
            r[i],
        ) by {
            if i < s.len() {
                assert(r[i] == s[i]);
            }
        }
    }
}

/// The types of an index come in order of their qualified names, each type
/// of the tree exactly once: sorting by name orders the types and keeps
/// every one of them.
pub proof fn lemma_sort_by_name(ts: Seq<JavaTypeModel>)
    ensures
        ordered_by_name(sort_by_name(ts)),
        sort_by_name(ts).to_multiset() == ts.to_multiset(),
    decreases ts.len(),
{
    broadcast use vstd::seq_lib::group_to_multiset_ensures;

    if ts.len() > 0 {
        lemma_sort_by_name(ts.drop_last());
        lemma_insert_by_name(sort_by_name(ts.drop_last()), ts.last());
        assert(ts =~= ts.drop_last().push(ts.last()));
    } else {
        assert(sort_by_name(ts) =~= Seq::<JavaTypeModel>::empty());
    }
}

} // verus!
