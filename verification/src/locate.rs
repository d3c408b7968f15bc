//! The locator: turns a listing of the platform directory into the ordered
//! sequence of candidate backup-file paths. Immediate child directories
//! whose name holds the reserved substring are excluded; within a qualifying
//! game folder only regular files count; the collected paths are sorted in
//! ascending lexicographic order.

use vstd::prelude::*;

use vstd::relations::{sorted_by, total_ordering};
use vstd::seq_lib::lemma_multiset_commutative;

use crate::text::{
    contains_seq, contains_substr, lemma_lex_le_antisym, lemma_lex_le_total, lemma_lex_le_trans,
    lex_le, str_le,
};

verus! {

/// The views of a sequence of owned strings.
pub open spec fn views_of(v: Seq<String>) -> Seq<Seq<char>> {
    v.map_values(|s: String| s@)
}

/// Lexicographic order as a binary relation value.
pub open spec fn lex_leq() -> spec_fn(Seq<char>, Seq<char>) -> bool {
    |a: Seq<char>, b: Seq<char>| lex_le(a, b)
}

/// Lexicographic order is a total ordering.
pub proof fn lemma_lex_leq_total_ordering()
    ensures
        total_ordering(lex_leq()),
{
    let leq = lex_leq();
    assert forall|a: Seq<char>| #[trigger] leq(a, a) by {
        lemma_lex_le_total(a, a);
    }
    assert forall|a: Seq<char>, b: Seq<char>| #[trigger] leq(a, b) && #[trigger] leq(b, a)
        implies a == b by {
        lemma_lex_le_antisym(a, b);
    }
    assert forall|a: Seq<char>, b: Seq<char>, c: Seq<char>|
        #[trigger] leq(a, b) && #[trigger] leq(b, c) implies leq(a, c) by {
        lemma_lex_le_trans(a, b, c);
    }
    assert forall|a: Seq<char>, b: Seq<char>| #[trigger] leq(a, b) || #[trigger] leq(b, a) by {
        lemma_lex_le_total(a, b);
    }
}

/// Inserting an element anywhere in a sequence adds it to the multiset of
/// elements.
proof fn lemma_insert_multiset<A>(s: Seq<A>, i: int, x: A)
    requires
        0 <= i <= s.len(),
    ensures
        s.insert(i, x).to_multiset() == s.to_multiset().insert(x),
{
    broadcast use vstd::seq_lib::group_to_multiset_ensures;
    broadcast use vstd::multiset::group_multiset_axioms;

    let t = s.take(i);
    let u = s.skip(i);
    assert(s =~= t + u);
    assert(s.insert(i, x) =~= t.push(x) + u);
    lemma_multiset_commutative(t.push(x), u);
    lemma_multiset_commutative(t, u);
    assert(s.insert(i, x).to_multiset() =~= s.to_multiset().insert(x));
}

/// Two sequences sorted by lexicographic order that hold the same paths are
/// the same sequence.
pub proof fn lemma_sorted_unique(a: Seq<Seq<char>>, b: Seq<Seq<char>>)
    requires
        sorted_by(a, lex_leq()),
        sorted_by(b, lex_leq()),
        a.to_multiset() == b.to_multiset(),
    ensures
        a == b,
    decreases a.len(),
{
    broadcast use vstd::seq_lib::group_to_multiset_ensures;
    broadcast use vstd::multiset::group_multiset_axioms;

    if a.len() == 0 {
        assert(b.to_multiset().len() == 0);
        assert(a =~= b);
    } else {
        assert(a.contains(a[0]));
        assert(b.to_multiset().count(a[0]) > 0);
        assert(b.contains(a[0]));
        assert(b.len() > 0);
        let i = choose|i: int| 0 <= i < b.len() && b[i] == a[0];
        assert(lex_le(b[0], a[0])) by {
            if i == 0 {
                lemma_lex_le_total(b[0], b[0]);
            } else {
                assert(lex_leq()(b[0], b[i]));
            }
        }
        assert(b.contains(b[0]));
        assert(a.to_multiset().count(b[0]) > 0);
        assert(a.contains(b[0]));
        let k = choose|k: int| 0 <= k < a.len() && a[k] == b[0];
        assert(lex_le(a[0], b[0])) by {
            if k == 0 {
                lemma_lex_le_total(a[0], a[0]);
            } else {
                assert(lex_leq()(a[0], a[k]));
            }
        }
        lemma_lex_le_antisym(a[0], b[0]);
        assert(a[0] == b[0]);
        assert(a.remove(0) =~= a.drop_first());
        assert(b.remove(0) =~= b.drop_first());
        assert(a.drop_first().to_multiset() == a.to_multiset().remove(a[0]));
        assert(b.drop_first().to_multiset() == b.to_multiset().remove(b[0]));
        assert(sorted_by(a.drop_first(), lex_leq())) by {
            assert(forall|p: int, q: int|
                0 <= p < q < a.len() - 1 ==> lex_leq()(
                    #[trigger] a.drop_first()[p],
                    #[trigger] a.drop_first()[q],
                ));
        }
        assert(sorted_by(b.drop_first(), lex_leq())) by {
            assert(forall|p: int, q: int|
                0 <= p < q < b.len() - 1 ==> lex_leq()(
                    #[trigger] b.drop_first()[p],
                    #[trigger] b.drop_first()[q],
                ));
        }
        lemma_sorted_unique(a.drop_first(), b.drop_first());
        assert(forall|p: int| 1 <= p < a.len() ==> #[trigger] a[p] == a.drop_first()[p - 1]);
        assert(forall|p: int| 1 <= p < b.len() ==> #[trigger] b[p] == b.drop_first()[p - 1]);
        assert(a =~= b);
    }
}

/// Where a path belongs among those already placed: after every path that
/// precedes it in lexicographic order.
fn insert_pos(out: &Vec<String>, s: &String) -> (j: usize)
    ensures
        j <= out@.len(),
        forall|k: int| 0 <= k < j ==> lex_le(#[trigger] views_of(out@)[k], s@),
        j < out@.len() ==> lex_le(s@, views_of(out@)[j as int]),
{
    let n = out.len();
    let mut j: usize = 0;
    while j < n
        invariant
            j <= n,
            n == out@.len(),
            forall|k: int| 0 <= k < j ==> lex_le(#[trigger] views_of(out@)[k], s@),
        decreases n - j,
    {
        if !str_le(out[j].as_str(), s.as_str()) {
            proof {
                lemma_lex_le_total(out@[j as int]@, s@);
                assert(views_of(out@)[j as int] == out@[j as int]@);
            }
            return j;
        }
        proof {
            assert(views_of(out@)[j as int] == out@[j as int]@);
        }
        j += 1;
    }
    n
}

/// Sorts paths in ascending lexicographic order, keeping exactly the same
/// paths.
pub fn sort_paths(paths: Vec<String>) -> (r: Vec<String>)
    ensures
        sorted_by(views_of(r@), lex_leq()),
        views_of(r@).to_multiset() == views_of(paths@).to_multiset(),
{
    broadcast use vstd::seq_lib::group_to_multiset_ensures;

    let n = paths.len();
    let mut out: Vec<String> = Vec::new();
    let mut idx: usize = 0;
    proof {
        assert(views_of(paths@.take(0)) =~= Seq::<Seq<char>>::empty());
        assert(views_of(out@) =~= Seq::<Seq<char>>::empty());
        assert(views_of(out@).to_multiset() =~= views_of(paths@.take(0)).to_multiset());
    }
    while idx < n
        invariant
            idx <= n,
            n == paths@.len(),
            sorted_by(views_of(out@), lex_leq()),
            views_of(out@).to_multiset() == views_of(paths@.take(idx as int)).to_multiset(),
        decreases n - idx,
    {
        let s = paths[idx].clone();
        let j = insert_pos(&out, &s);
        let ghost ov = views_of(out@);
        out.insert(j, s);
        proof {
            assert(views_of(out@) =~= ov.insert(j as int, s@));
            lemma_insert_multiset(ov, j as int, s@);
            assert(s@ == paths@[idx as int]@);
            assert(views_of(paths@.take(idx + 1)) =~= views_of(paths@.take(idx as int)).push(s@));
            views_of(paths@.take(idx as int)).to_multiset_ensures();
            assert(views_of(paths@.take(idx as int)).push(s@).to_multiset() =~= views_of(
                paths@.take(idx as int),
            ).to_multiset().insert(s@));
            let nv = views_of(out@);
            assert forall|p: int, q: int| 0 <= p < q < nv.len() implies lex_leq()(nv[p], nv[q]) by {
                if q < j {
                    assert(nv[p] == ov[p] && nv[q] == ov[q]);
                    assert(lex_leq()(ov[p], ov[q]));
                } else if p > j {
                    assert(nv[p] == ov[p - 1] && nv[q] == ov[q - 1]);
                    assert(lex_leq()(ov[p - 1], ov[q - 1]));
                } else if p == j {
                    assert(nv[p] == s@ && nv[q] == ov[q - 1]);
                    assert(j < ov.len());
                    assert(lex_le(s@, ov[j as int]));
                    if q - 1 > j {
                        assert(lex_leq()(ov[j as int], ov[q - 1]));
                        lemma_lex_le_trans(s@, ov[j as int], ov[q - 1]);
                    }
                } else if q == j {
                    assert(nv[p] == ov[p] && nv[q] == s@);
                    assert(lex_le(ov[p], s@));
                } else {
                    // p < j < q
                    assert(nv[p] == ov[p] && nv[q] == ov[q - 1]);
                    assert(j < ov.len());
                    assert(lex_le(ov[p], s@));
                    assert(lex_le(s@, ov[j as int]));
                    if q - 1 == j {
                        lemma_lex_le_trans(ov[p], s@, ov[j as int]);
                    } else {
                        assert(lex_leq()(ov[j as int], ov[q - 1]));
                        lemma_lex_le_trans(s@, ov[j as int], ov[q - 1]);
                        lemma_lex_le_trans(ov[p], s@, ov[q - 1]);
                    }
                }
            }
        }
        idx += 1;
    }
    proof {
        assert(paths@.take(n as int) =~= paths@);
    }
    out
}

/// A directory entry seen inside a game folder.
pub struct FileEntry {
    pub name: String,
    pub is_file: bool,
}

/// An immediate child of the platform directory, with the entries listed
/// inside it.
pub struct FolderEntry {
    pub name: String,
    pub is_dir: bool,
    pub files: Vec<FileEntry>,
}

/// The reserved substring: a child directory whose name holds it is not a
/// game folder.
pub open spec fn reserved_name() -> Seq<char> {
    "MemoryCard"@
}

/// A child of the platform directory that counts as a game folder.
pub open spec fn qualifies(d: FolderEntry) -> bool {
    d.is_dir && !contains_seq(d.name@, reserved_name())
}

/// A path component appended under a separator.
pub open spec fn path_join(a: Seq<char>, b: Seq<char>) -> Seq<char> {
    a + seq!['/'] + b
}

/// The full paths of the regular files inside one game folder.
pub open spec fn folder_files(base: Seq<char>, d: FolderEntry) -> Seq<Seq<char>> {
    d.files@.filter(|f: FileEntry| f.is_file).map_values(
        |f: FileEntry| path_join(path_join(base, d.name@), f.name@),
    )
}

/// The paths of all regular files across the qualifying game folders, in
/// listing order.
pub open spec fn collected(base: Seq<char>, ds: Seq<FolderEntry>) -> Seq<Seq<char>>
    decreases ds.len(),
{
    if ds.len() == 0 {
        Seq::empty()
    } else {
        (if qualifies(ds[0]) {
            folder_files(base, ds[0])
        } else {
            Seq::empty()
        }) + collected(base, ds.drop_first())
    }
}

/// The locator's answer: the collected paths in ascending lexicographic
/// order.
pub open spec fn located(base: Seq<char>, ds: Seq<FolderEntry>) -> Seq<Seq<char>> {
    collected(base, ds).sort_by(lex_leq())
}

/// Extending the listing by one child extends the collection by that
/// child's contribution.
proof fn lemma_collected_snoc(base: Seq<char>, ds: Seq<FolderEntry>, i: int)
    requires
        0 <= i < ds.len(),
    ensures
        collected(base, ds.take(i + 1)) == collected(base, ds.take(i)) + (if qualifies(ds[i]) {
            folder_files(base, ds[i])
        } else {
            Seq::empty()
        }),
    decreases i,
{
    let piece = if qualifies(ds[i]) {
        folder_files(base, ds[i])
    } else {
        Seq::empty()
    };
    if i == 0 {
        assert(ds.take(1)[0] == ds[0]);
        assert(ds.take(1).drop_first() =~= Seq::<FolderEntry>::empty());
        assert(ds.take(0) =~= Seq::<FolderEntry>::empty());
        assert(piece + Seq::<Seq<char>>::empty() =~= piece);
        assert(Seq::<Seq<char>>::empty() + piece =~= piece);
    } else {
        lemma_collected_snoc(base, ds.drop_first(), i - 1);
        assert(ds.take(i + 1)[0] == ds[0]);
        assert(ds.take(i)[0] == ds[0]);
        assert(ds.take(i + 1).drop_first() =~= ds.drop_first().take(i));
        assert(ds.take(i).drop_first() =~= ds.drop_first().take(i - 1));
        assert(ds.drop_first()[i - 1] == ds[i]);
        let head = if qualifies(ds[0]) {
            folder_files(base, ds[0])
        } else {
            Seq::<Seq<char>>::empty()
        };
        assert(collected(base, ds.take(i + 1)) == head + (collected(base, ds.drop_first().take(i
            - 1)) + piece));
        assert(head + (collected(base, ds.drop_first().take(i - 1)) + piece) =~= (head
            + collected(base, ds.drop_first().take(i - 1))) + piece);
    }
}

/// An element of a filtered sequence stands somewhere in the sequence it
/// was filtered from.
proof fn lemma_filter_member<A>(s: Seq<A>, pred: spec_fn(A) -> bool, i: int)
    requires
        0 <= i < s.filter(pred).len(),
    ensures
        exists|k: int| 0 <= k < s.len() && #[trigger] s[k] == s.filter(pred)[i],
    decreases s.len(),
{
    reveal(Seq::filter);
    broadcast use vstd::seq_lib::group_filter_ensures;

    if s.len() > 0 {
        let sub = s.drop_last().filter(pred);
        if pred(s.last()) && i == sub.len() {
            assert(s[s.len() - 1] == s.filter(pred)[i]);
        } else {
            lemma_filter_member(s.drop_last(), pred, i);
            let k = choose|k: int|
                0 <= k < s.drop_last().len() && #[trigger] s.drop_last()[k] == sub[i];
            assert(s[k] == s.filter(pred)[i]);
        }
    }
}

/// The path names a regular file one level inside a qualifying game folder
/// of the listing.
pub open spec fn names_game_file(base: Seq<char>, ds: Seq<FolderEntry>, p: Seq<char>) -> bool {
    exists|j: int, k: int|
        0 <= j < ds.len() && qualifies(ds[j]) && 0 <= k < ds[j].files@.len()
            && (#[trigger] ds[j].files@[k]).is_file && p == path_join(
            path_join(base, ds[j].name@),
            ds[j].files@[k].name@,
        )
}

/// Every collected path names a regular file one level inside a qualifying
/// game folder.
proof fn lemma_collected_shape(base: Seq<char>, ds: Seq<FolderEntry>)
    ensures
        forall|i: int|
            0 <= i < collected(base, ds).len() ==> names_game_file(
                base,
                ds,
                #[trigger] collected(base, ds)[i],
            ),
    decreases ds.len(),
{
    broadcast use vstd::seq_lib::group_filter_ensures;

    if ds.len() > 0 {
        lemma_collected_shape(base, ds.drop_first());
        let piece = if qualifies(ds[0]) {
            folder_files(base, ds[0])
        } else {
            Seq::<Seq<char>>::empty()
        };
        assert forall|i: int| 0 <= i < collected(base, ds).len() implies names_game_file(
            base,
            ds,
            collected(base, ds)[i],
        ) by {
            let pred = |f: FileEntry| f.is_file;
            let mk = |f: FileEntry| path_join(path_join(base, ds[0].name@), f.name@);
            if i < piece.len() {
                assert(qualifies(ds[0]));
                assert(collected(base, ds)[i] == piece[i]);
                assert(piece[i] == mk(ds[0].files@.filter(pred)[i]));
                lemma_filter_member(ds[0].files@, pred, i);
                let k = choose|k: int|
                    0 <= k < ds[0].files@.len() && #[trigger] ds[0].files@[k]
                        == ds[0].files@.filter(pred)[i];
                assert(pred(ds[0].files@.filter(pred)[i]));
                assert((ds[0].files@[k]).is_file);
                assert(collected(base, ds)[i] == path_join(
                    path_join(base, ds[0].name@),
                    ds[0].files@[k].name@,
                ));
            } else {
                let i2 = i - piece.len();
                assert(collected(base, ds)[i] == collected(base, ds.drop_first())[i2]);
                assert(names_game_file(base, ds.drop_first(), collected(base, ds.drop_first())[i2]));
                let (j, k) = choose|j: int, k: int|
                    0 <= j < ds.drop_first().len() && qualifies(ds.drop_first()[j]) && 0 <= k
                        < ds.drop_first()[j].files@.len()
                        && (#[trigger] ds.drop_first()[j].files@[k]).is_file && collected(
                        base,
                        ds.drop_first(),
                    )[i2] == path_join(
                        path_join(base, ds.drop_first()[j].name@),
                        ds.drop_first()[j].files@[k].name@,
                    );
                assert(ds[j + 1] == ds.drop_first()[j]);
                assert((ds[j + 1].files@[k]).is_file);
                assert(collected(base, ds)[i] == path_join(
                    path_join(base, ds[j + 1].name@),
                    ds[j + 1].files@[k].name@,
                ));
            }
        }
    }
}

/// Every located path names a regular file exactly one level inside a
/// qualifying game folder: children of the platform directory that are not
/// qualifying directories, and entries inside a game folder that are not
/// regular files, contribute nothing.
pub proof fn lemma_located_paths_shape(base: Seq<char>, ds: Seq<FolderEntry>)
    ensures
        forall|i: int|
            0 <= i < located(base, ds).len() ==> names_game_file(
                base,
                ds,
                #[trigger] located(base, ds)[i],
            ),
{
    broadcast use vstd::seq_lib::group_to_multiset_ensures;

    lemma_collected_shape(base, ds);
    lemma_lex_leq_total_ordering();
    collected(base, ds).lemma_sort_by_ensures(lex_leq());
    assert forall|i: int| 0 <= i < located(base, ds).len() implies names_game_file(
        base,
        ds,
        located(base, ds)[i],
    ) by {
        let x = located(base, ds)[i];
        assert(located(base, ds).contains(x));
        assert(located(base, ds).to_multiset().count(x) > 0);
        assert(collected(base, ds).to_multiset().count(x) > 0);
        assert(collected(base, ds).contains(x));
        let m = choose|m: int| 0 <= m < collected(base, ds).len() && collected(base, ds)[m] == x;
        assert(names_game_file(base, ds, collected(base, ds)[m]));
    }
}

/// What the locator promises: its output is sorted by path and holds exactly
/// the union of the regular files of the qualifying game folders; an
/// excluded child contributes no paths.
pub proof fn lemma_locator_sorted_union(base: Seq<char>, ds: Seq<FolderEntry>)
    ensures
        sorted_by(located(base, ds), lex_leq()),
        located(base, ds).to_multiset() == collected(base, ds).to_multiset(),
        forall|i: int|
            0 <= i < ds.len() && !qualifies(ds[i]) ==> collected(base, #[trigger] ds.take(i + 1))
                == collected(base, ds.take(i)),
{
    lemma_lex_leq_total_ordering();
    collected(base, ds).lemma_sort_by_ensures(lex_leq());
    assert forall|i: int| 0 <= i < ds.len() && !qualifies(ds[i]) implies collected(
        base,
        #[trigger] ds.take(i + 1),
    ) == collected(base, ds.take(i)) by {
        lemma_collected_snoc(base, ds, i);
        assert(collected(base, ds.take(i)) + Seq::<Seq<char>>::empty() =~= collected(
            base,
            ds.take(i),
        ));
    }
}

/// Walks the listed platform directory: collects every regular file of
/// every qualifying game folder and hands the full paths back in ascending
/// lexicographic order.
pub fn find_mcds(ps1_dir: &str, entries: &Vec<FolderEntry>) -> (r: Vec<String>)
    ensures
        views_of(r@) == located(ps1_dir@, entries@),
{
    let n = entries.len();
    let mut acc: Vec<String> = Vec::new();
    let mut i: usize = 0;
    proof {
        assert(entries@.take(0) =~= Seq::<FolderEntry>::empty());
        assert(views_of(acc@) =~= collected(ps1_dir@, entries@.take(0)));
    }
    while i < n
        invariant
            i <= n,
            n == entries@.len(),
            views_of(acc@) == collected(ps1_dir@, entries@.take(i as int)),
        decreases n - i,
    {
        let d = &entries[i];
        if d.is_dir && !contains_substr(d.name.as_str(), "MemoryCard") {
            let mut dirpath = String::from_str(ps1_dir);
            dirpath.push('/');
            dirpath.append(d.name.as_str());
            proof {
                assert(dirpath@ =~= path_join(ps1_dir@, d.name@));
            }
            let m = d.files.len();
            let mut j: usize = 0;
            let ghost before = views_of(acc@);
            proof {
                reveal(Seq::filter);
                assert(d.files@.take(0) =~= Seq::<FileEntry>::empty());
                assert(d.files@.take(0).filter(|f: FileEntry| f.is_file).map_values(
                    |f: FileEntry| path_join(path_join(ps1_dir@, d.name@), f.name@),
                ) =~= Seq::<Seq<char>>::empty());
                assert(views_of(acc@) =~= before + d.files@.take(0).filter(
                    |f: FileEntry| f.is_file,
                ).map_values(|f: FileEntry| path_join(path_join(ps1_dir@, d.name@), f.name@)));
            }
            while j < m
                invariant
                    j <= m,
                    m == d.files@.len(),
                    dirpath@ == path_join(ps1_dir@, d.name@),
                    views_of(acc@) == before + d.files@.take(j as int).filter(
                        |f: FileEntry| f.is_file,
                    ).map_values(|f: FileEntry| path_join(path_join(ps1_dir@, d.name@), f.name@)),
                decreases m - j,
            {
                let ghost pred = |f: FileEntry| f.is_file;
                let ghost mk = |f: FileEntry| path_join(path_join(ps1_dir@, d.name@), f.name@);
                proof {
                    reveal(Seq::filter);
                    assert(d.files@.take(j + 1).drop_last() =~= d.files@.take(j as int));
                    assert(d.files@.take(j + 1).last() == d.files@[j as int]);
                }
                let f = &d.files[j];
                if f.is_file {
                    let mut p = dirpath.clone();
                    p.push('/');
                    p.append(f.name.as_str());
                    proof {
                        assert(p@ =~= mk(d.files@[j as int]));
                    }
                    let ghost prev = views_of(acc@);
                    acc.push(p);
                    proof {
                        assert(views_of(acc@) =~= prev.push(p@));
                        assert(d.files@.take(j + 1).filter(pred) == d.files@.take(j as int).filter(
                            pred,
                        ).push(d.files@[j as int]));
                        assert(d.files@.take(j + 1).filter(pred).map_values(mk) =~= d.files@.take(
                            j as int,
                        ).filter(pred).map_values(mk).push(mk(d.files@[j as int])));
                        assert(before + d.files@.take(j as int).filter(pred).map_values(mk).push(
                            mk(d.files@[j as int]),
                        ) =~= (before + d.files@.take(j as int).filter(pred).map_values(mk)).push(
                            mk(d.files@[j as int]),
                        ));
                    }
                } else {
                    proof {
                        assert(d.files@.take(j + 1).filter(pred) == d.files@.take(j as int).filter(
                            pred,
                        ));
                    }
                }
                j += 1;
            }
            proof {
                assert(d.files@.take(m as int) =~= d.files@);
                assert(qualifies(entries@[i as int]));
                lemma_collected_snoc(ps1_dir@, entries@, i as int);
            }
        } else {
            proof {
                assert(!qualifies(entries@[i as int]));
                lemma_collected_snoc(ps1_dir@, entries@, i as int);
                assert(collected(ps1_dir@, entries@.take(i as int)) + Seq::<Seq<char>>::empty()
                    =~= collected(ps1_dir@, entries@.take(i as int)));
            }
        }
        i += 1;
    }
    proof {
        assert(entries@.take(n as int) =~= entries@);
    }
    let r = sort_paths(acc);
    proof {
        lemma_lex_leq_total_ordering();
        collected(ps1_dir@, entries@).lemma_sort_by_ensures(lex_leq());
        lemma_sorted_unique(views_of(r@), located(ps1_dir@, entries@));
    }
    r
}

} // verus!
