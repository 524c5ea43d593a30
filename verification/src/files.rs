//! Which files of a directory count, and in what order.
use crate::seqs::{lemma_filter_nothing, lemma_filter_take};
use crate::text::{
    self, lemma_text_lt_asymmetric, lemma_text_lt_total, lemma_text_lt_transitive, text_lt,
};
use vstd::prelude::*;
use vstd::seq_lib::lemma_multiset_commutative;

verus! {

/// A file name ends in a dot and the extension, with something in front of the dot.
pub open spec fn has_extension(name: Seq<char>, extension: Seq<char>) -> bool {
    let stem = name.len() - extension.len() - 1;
    stem > 0 && name[stem] == '.' && name.skip(stem + 1) == extension
}

/// Texts in ascending order.
pub open spec fn ascending(names: Seq<Seq<char>>) -> bool {
    forall|i: int, j: int|
        0 <= i < j < names.len() ==> !text_lt(#[trigger] names[j], #[trigger] names[i])
}

/// The names with an extension, and no others, in ascending order.
pub open spec fn are_files_with(
    names: Seq<Seq<char>>,
    extension: Seq<char>,
    files: Seq<Seq<char>>,
) -> bool {
    &&& ascending(files)
    &&& files.to_multiset() == names.filter(
        |name: Seq<char>| has_extension(name, extension),
    ).to_multiset()
}

fn ends_in(name: &str, extension: &str) -> (r: bool)
    ensures
        r == has_extension(name@, extension@),
{
    let v: Vec<char> = text::chars_of(name);
    let len: usize = extension.unicode_len();
    if v.len() <= len || v.len() - len < 2 {
        return false;
    }
    let stem: usize = v.len() - len - 1;
    v[stem] == '.' && text::same(text::skip(name, stem + 1), extension)
}

proof fn lemma_inserted(sorted: Seq<Seq<char>>, at: int, x: Seq<char>)
    requires
        ascending(sorted),
        0 <= at <= sorted.len(),
        forall|i: int| at <= i < sorted.len() ==> text_lt(x, #[trigger] sorted[i]),
        at > 0 ==> !text_lt(x, sorted[at - 1]),
    ensures
        ascending(sorted.insert(at, x)),
        sorted.insert(at, x).to_multiset() == sorted.to_multiset().insert(x),
{
    let t = sorted.insert(at, x);
    assert forall|i: int, j: int| 0 <= i < j < t.len() implies !text_lt(
        #[trigger] t[j],
        #[trigger] t[i],
    ) by {
        let i1 = if i < at {
            i
        } else {
            i - 1
        };
        let j1 = if j < at {
            j
        } else {
            j - 1
        };
        if i != at {
            assert(t[i] == sorted[i1]);
        }
        if j != at {
            assert(t[j] == sorted[j1]);
        }
        if i == at {
            lemma_text_lt_asymmetric(x, sorted[j1]);
        } else if j == at && text_lt(x, sorted[i]) && i < at - 1 {
            assert(!text_lt(sorted[at - 1], sorted[i]));
            lemma_text_lt_total(sorted[i], sorted[at - 1]);
            if sorted[i] != sorted[at - 1] {
                lemma_text_lt_transitive(x, sorted[i], sorted[at - 1]);
            }
        }
    }
    let a = sorted.take(at);
    let b = sorted.skip(at);
    broadcast use vstd::seq_lib::group_to_multiset_ensures;

    assert(t =~= a.push(x) + b);
    assert(sorted =~= a + b);
    lemma_multiset_commutative(a.push(x), b);
    lemma_multiset_commutative(a, b);
    assert(a.push(x).to_multiset() =~= a.to_multiset().insert(x));
    assert(t.to_multiset() =~= sorted.to_multiset().insert(x));
}

fn files_with(names: Vec<String>, extension: &str) -> (r: Vec<String>)
    ensures
        are_files_with(names.deep_view(), extension@, r.deep_view()),
{
    let ghost all = names.deep_view();
    let ghost f = |name: Seq<char>| has_extension(name, extension@);
    let mut out: Vec<String> = Vec::new();
    let mut i: usize = 0;
    proof {
        lemma_filter_nothing(all, f);
        assert(out.deep_view() =~= all.take(0).filter(f));
    }
    while i < names.len()
        invariant
            i <= names@.len(),
            all == names.deep_view(),
            f == (|name: Seq<char>| has_extension(name, extension@)),
            ascending(out.deep_view()),
            out.deep_view().to_multiset() == all.take(i as int).filter(f).to_multiset(),
        decreases names@.len() - i,
    {
        let name: &String = &names[i];
        proof {
            lemma_filter_take(all, i as int, f);
            assert(all[i as int] == name@);
        }
        if ends_in(name.as_str(), extension) {
            let ghost before = out.deep_view();
            let mut at: usize = out.len();
            while at > 0 && text::less(name.as_str(), out[at - 1].as_str())
                invariant
                    at <= out@.len(),
                    before == out.deep_view(),
                    before.len() == out@.len(),
                    forall|k: int|
                        at <= k < before.len() ==> text_lt(name@, #[trigger] before[k]),
                decreases at,
            {
                proof {
                    assert(before[at - 1] == out@[at - 1]@);
                }
                at = at - 1;
            }
            proof {
                if at > 0 {
                    assert(before[at - 1] == out@[at - 1]@);
                }
                lemma_inserted(before, at as int, name@);
                broadcast use vstd::seq_lib::group_to_multiset_ensures;

                assert(all.take(i as int).filter(f).push(name@).to_multiset() =~= all.take(
                    i as int,
                ).filter(f).to_multiset().insert(name@));
            }
            out.insert(at, name.clone());
            proof {
                assert(out.deep_view() =~= before.insert(at as int, name@));
            }
        }
        i = i + 1;
    }
    proof {
        assert(all.take(i as int) =~= all);
    }
    out
}

/// The server files among the names of a directory, in the order in which they are read.
///
/// The order is fixed, so that a duplicate id is always reported against the same file.
pub fn server_files(names: Vec<String>) -> (r: Vec<String>)
    ensures
        are_files_with(names.deep_view(), "toml"@, r.deep_view()),
{
    files_with(names, "toml")
}

/// The mapping files among the names of a directory, in the order in which they are read.
pub fn mapping_files(names: Vec<String>) -> (r: Vec<String>)
    ensures
        are_files_with(names.deep_view(), "json"@, r.deep_view()),
{
    files_with(names, "json")
}

// Laws -----------------------------------------------------------------------------

/// A file counts exactly when its name is something, a dot and the extension.
pub proof fn law_files_count_by_their_extension(
    stem: Seq<char>,
    name: Seq<char>,
    extension: Seq<char>,
)
    ensures
        stem.len() > 0 ==> has_extension(stem + seq!['.'] + extension, extension),
        has_extension(name, extension) ==> exists|x: Seq<char>|
            x.len() > 0 && name == #[trigger] (x + seq!['.']) + extension,
{
    let whole = stem + seq!['.'] + extension;
    let at = whole.len() - extension.len() - 1;
    assert(whole[at] == '.');
    assert(whole.skip(at + 1) =~= extension);
    if has_extension(name, extension) {
        let k = name.len() - extension.len() - 1;
        let x = name.take(k);
        assert(name =~= (x + seq!['.']) + extension);
    }
}

/// The files of a directory are exactly those with the extension, as often as they are there, in
/// the order of their names.
pub proof fn law_no_file_is_passed_over(
    names: Seq<Seq<char>>,
    extension: Seq<char>,
    files: Seq<Seq<char>>,
    name: Seq<char>,
)
    requires
        are_files_with(names, extension, files),
    ensures
        files.contains(name) <==> names.contains(name) && has_extension(name, extension),
        forall|i: int, j: int|
            0 <= i < j < files.len() ==> #[trigger] files[i] == #[trigger] files[j] || text_lt(
                files[i],
                files[j],
            ),
{
    let f = |n: Seq<char>| has_extension(n, extension);
    let kept = names.filter(f);
    broadcast use vstd::seq_lib::group_to_multiset_ensures;
    broadcast use vstd::seq_lib::group_filter_ensures;

    assert(files.contains(name) <==> files.to_multiset().count(name) > 0);
    assert(kept.contains(name) <==> kept.to_multiset().count(name) > 0);
    if kept.contains(name) {
        let i = kept.index_of(name);
        crate::seqs::lemma_filter_from(names, f, i);
    }
    if names.contains(name) && f(name) {
        let i = names.index_of(name);
        assert(names.filter(f).contains(names[i]));
    }
    assert forall|i: int, j: int| 0 <= i < j < files.len() implies #[trigger] files[i]
        == #[trigger] files[j] || text_lt(files[i], files[j]) by {
        assert(!text_lt(files[j], files[i]));
        crate::text::lemma_text_lt_total(files[i], files[j]);
    }
}

/// Server files are TOML and mapping files JSON.
pub proof fn law_files_have_their_formats(
    names: Vec<String>,
    servers: Vec<String>,
    mappings: Vec<String>,
)
    requires
        call_ensures(server_files, (names,), servers),
        call_ensures(mapping_files, (names,), mappings),
    ensures
        are_files_with(names.deep_view(), "toml"@, servers.deep_view()),
        are_files_with(names.deep_view(), "json"@, mappings.deep_view()),
{
}

} // verus!
