//! The naming grammar: derives the lookup key from a candidate path,
//! resolves the display region from a record's code, derives the save-slot
//! suffix from the candidate filename, and synthesizes the destination
//! filename `Title Region[.N].srm`.

use vstd::prelude::*;

use crate::MemcardError;
use crate::locate::path_join;
use crate::region::{RegionTable, lemma_lookup_unknown_fails, lookup};
use crate::text::{
    digit_of, digit_val, find_char, find_first, find_last, is_digit_char, lemma_find_first,
    lemma_find_last, rfind_char,
};
use crate::title::{normalize_title, normalized_title};

verus! {

/// One record of the reference dataset: a region-bearing code, a display
/// title, and a language.
#[derive(Clone, Debug, PartialEq, Eq)]
pub struct GameInfo {
    pub code: String,
    pub title: String,
    pub lang: String,
}

/// The decimal digit character with value `d`.
pub open spec fn digit_char_of(d: u32) -> char {
    ((0x30 + d) as u32) as char
}

/// The save-slot suffix derived from a candidate filename: empty unless the
/// character six positions from the end is a digit above `1`, in which case
/// the suffix is a dot followed by that digit less one. A digit `0` counts
/// as the implicit first slot, like `1`.
pub open spec fn slot_suffix_spec(name: Seq<char>) -> Seq<char> {
    if name.len() < 6 {
        Seq::empty()
    } else if !is_digit_char(name[name.len() - 6]) {
        Seq::empty()
    } else if digit_val(name[name.len() - 6]) <= 1 {
        Seq::empty()
    } else {
        seq!['.', digit_char_of((digit_val(name[name.len() - 6]) - 1) as u32)]
    }
}

/// The slot-suffix rule, case by case: a trailing-position digit `1` gives
/// an empty suffix, a digit `d` above `1` gives `.{d-1}`, and a non-digit or
/// absent character gives an empty suffix.
pub proof fn lemma_slot_suffix_law(name: Seq<char>)
    ensures
        name.len() >= 6 && is_digit_char(name[name.len() - 6]) && digit_val(name[name.len() - 6])
            == 1 ==> slot_suffix_spec(name) == Seq::<char>::empty(),
        name.len() >= 6 && is_digit_char(name[name.len() - 6]) && digit_val(name[name.len() - 6])
            > 1 ==> slot_suffix_spec(name) == seq![
            '.',
            digit_char_of((digit_val(name[name.len() - 6]) - 1) as u32),
        ],
        name.len() >= 6 && !is_digit_char(name[name.len() - 6]) ==> slot_suffix_spec(name)
            == Seq::<char>::empty(),
        name.len() < 6 ==> slot_suffix_spec(name) == Seq::<char>::empty(),
{
}

/// Derives the save-slot suffix from a candidate filename.
pub fn slot_suffix(name: &str) -> (r: String)
    ensures
        r@ == slot_suffix_spec(name@),
{
    let n = name.unicode_len();
    if n < 6 {
        let r = String::new();
        proof {
            assert(r@ =~= slot_suffix_spec(name@));
        }
        return r;
    }
    let c = name.get_char(n - 6);
    match digit_of(c) {
        None => {
            let r = String::new();
            proof {
                assert(r@ =~= slot_suffix_spec(name@));
            }
            r
        },
        Some(d) => {
            if d <= 1 {
                let r = String::new();
                proof {
                    assert(r@ =~= slot_suffix_spec(name@));
                }
                r
            } else {
                let dc: char = if d == 2 {
                    '1'
                } else if d == 3 {
                    '2'
                } else if d == 4 {
                    '3'
                } else if d == 5 {
                    '4'
                } else if d == 6 {
                    '5'
                } else if d == 7 {
                    '6'
                } else if d == 8 {
                    '7'
                } else {
                    '8'
                };
                let mut r = String::new();
                r.push('.');
                r.push(dc);
                proof {
                    assert(d <= 9);
                    vstd::utf8::char_u32_cast(dc, dc as u32);
                    assert(dc as u32 == 0x2F + d);
                    assert(digit_char_of((d - 1) as u32) == dc);
                    assert(r@ =~= slot_suffix_spec(name@));
                }
                r
            }
        },
    }
}

/// The region-code prefix of a record's code: the characters before the
/// first dash, or nothing where the code holds no dash.
pub open spec fn region_prefix(code: Seq<char>) -> Option<Seq<char>> {
    match find_first(code, '-') {
        Some(i) => Some(code.take(i)),
        None => None,
    }
}

/// The resolved display region of a record's code: the region-table entry
/// for the code's prefix; a code without a dash, or with a prefix absent
/// from the table, violates the naming convention.
pub open spec fn resolve_region_spec(
    code: Seq<char>,
    table: Seq<(Seq<char>, Seq<char>)>,
) -> Result<Seq<char>, MemcardError> {
    match region_prefix(code) {
        None => Err(MemcardError::McdNameError),
        Some(p) => match lookup(table, p) {
            Some(region) => Ok(region),
            None => Err(MemcardError::McdNameError),
        },
    }
}

/// Region resolution depends on the prefix before the first dash alone: two
/// codes with the same prefix resolve to the same answer.
pub proof fn lemma_region_resolution_pure(
    c1: Seq<char>,
    c2: Seq<char>,
    table: Seq<(Seq<char>, Seq<char>)>,
)
    requires
        region_prefix(c1) == region_prefix(c2),
    ensures
        resolve_region_spec(c1, table) == resolve_region_spec(c2, table),
{
}

/// A prefix that no table entry carries never resolves: it fails rather
/// than defaulting to some region.
pub proof fn lemma_unknown_region_fails(code: Seq<char>, table: Seq<(Seq<char>, Seq<char>)>)
    requires
        region_prefix(code) matches Some(p) ==> forall|i: int|
            0 <= i < table.len() ==> (#[trigger] table[i]).0 != p,
    ensures
        resolve_region_spec(code, table) is Err,
        resolve_region_spec(code, table) == Err::<Seq<char>, MemcardError>(
            MemcardError::McdNameError,
        ),
{
    match region_prefix(code) {
        Some(p) => {
            lemma_lookup_unknown_fails(table, p);
        },
        None => {},
    }
}

/// Resolves the display region of a record's code against the table.
pub fn resolve_region(code: &str, table: &RegionTable) -> (r: Result<String, MemcardError>)
    ensures
        (r matches Ok(s) ==> resolve_region_spec(code@, table@) == Ok::<Seq<char>, MemcardError>(
            s@,
        )),
        (r matches Err(e) ==> resolve_region_spec(code@, table@) == Err::<Seq<char>, MemcardError>(
            e,
        )),
{
    match find_char(code, '-') {
        None => Err(MemcardError::McdNameError),
        Some(i) => {
            let n = code.unicode_len();
            proof {
                lemma_find_first(code@, '-');
            }
            let prefix = code.substring_char(0, i);
            proof {
                assert(prefix@ =~= code@.take(i as int));
            }
            match table.get(prefix) {
                Some(region) => Ok(region),
                None => Err(MemcardError::McdNameError),
            }
        },
    }
}

/// The filename component of a path: everything after the last separator.
pub open spec fn file_name_of(p: Seq<char>) -> Seq<char> {
    match find_last(p, '/') {
        Some(i) => p.skip(i + 1),
        None => p,
    }
}

/// The parent of a path: everything before the last separator.
pub open spec fn parent_of(p: Seq<char>) -> Seq<char> {
    match find_last(p, '/') {
        Some(i) => p.take(i),
        None => Seq::empty(),
    }
}

/// The lookup key of a candidate path: the name of its immediate parent
/// directory.
pub open spec fn folder_key_of(p: Seq<char>) -> Seq<char> {
    file_name_of(parent_of(p))
}

/// Where the last occurrence of a character stands, given a position after
/// which it never occurs.
proof fn lemma_find_last_exact(s: Seq<char>, c: char, k: int)
    requires
        0 <= k < s.len(),
        s[k] == c,
        forall|j: int| k < j < s.len() ==> s[j] != c,
    ensures
        find_last(s, c) == Some(k),
    decreases s.len(),
{
    if k == s.len() - 1 {
    } else {
        assert(s[s.len() - 1] != c);
        assert(forall|j: int| 0 <= j < s.len() - 1 ==> s.drop_last()[j] == s[j]);
        lemma_find_last_exact(s.drop_last(), c, k);
    }
}

/// The derived lookup key of a path assembled from a game folder equals the
/// folder's own name, whatever file the path ends in.
pub proof fn lemma_key_is_folder_name(base: Seq<char>, folder: Seq<char>, file: Seq<char>)
    requires
        forall|i: int| 0 <= i < folder.len() ==> folder[i] != '/',
        forall|i: int| 0 <= i < file.len() ==> file[i] != '/',
    ensures
        folder_key_of(path_join(path_join(base, folder), file)) == folder,
        file_name_of(path_join(path_join(base, folder), file)) == file,
{
    let parent = path_join(base, folder);
    let q = path_join(parent, file);
    let k = parent.len() as int;
    assert(q[k] == '/');
    assert(forall|j: int| k < j < q.len() ==> q[j] == file[j - k - 1]);
    lemma_find_last_exact(q, '/', k);
    assert(q.skip(k + 1) =~= file);
    assert(q.take(k) =~= parent);
    let b = base.len() as int;
    assert(parent[b] == '/');
    assert(forall|j: int| b < j < parent.len() ==> parent[j] == folder[j - b - 1]);
    lemma_find_last_exact(parent, '/', b);
    assert(parent.skip(b + 1) =~= folder);
}

/// The filename component of a path.
pub fn file_name(path: &str) -> (r: String)
    ensures
        r@ == file_name_of(path@),
{
    let n = path.unicode_len();
    match rfind_char(path, '/') {
        None => String::from_str(path),
        Some(i) => {
            proof {
                lemma_find_last(path@, '/');
            }
            let r = String::from_str(path.substring_char(i + 1, n));
            proof {
                assert(r@ =~= path@.skip(i + 1));
            }
            r
        },
    }
}

/// The lookup key of a candidate path: the name of its immediate parent
/// directory.
pub fn folder_key(path: &str) -> (r: String)
    ensures
        r@ == folder_key_of(path@),
{
    match rfind_char(path, '/') {
        None => {
            let r = String::new();
            proof {
                assert(parent_of(path@) =~= Seq::<char>::empty());
                assert(r@ =~= file_name_of(parent_of(path@)));
            }
            r
        },
        Some(i) => {
            proof {
                lemma_find_last(path@, '/');
            }
            let parent = path.substring_char(0, i);
            proof {
                assert(parent@ =~= parent_of(path@));
            }
            file_name(parent)
        },
    }
}

/// The destination filename for one record and one candidate filename:
/// normalized title, a space, the display region, the slot suffix, and the
/// fixed extension.
pub open spec fn srm_name_spec(
    code: Seq<char>,
    title: Seq<char>,
    mcd_name: Seq<char>,
    table: Seq<(Seq<char>, Seq<char>)>,
) -> Result<Seq<char>, MemcardError> {
    match resolve_region_spec(code, table) {
        Err(e) => Err(e),
        Ok(region) => Ok(
            normalized_title(title) + seq![' '] + region + slot_suffix_spec(mcd_name) + ".srm"@,
        ),
    }
}

/// Synthesizes the destination filename for a resolved record and a
/// candidate filename.
pub fn srm_filename(info: &GameInfo, mcd_name: &str, table: &RegionTable) -> (r: Result<
    String,
    MemcardError,
>)
    ensures
        (r matches Ok(s) ==> srm_name_spec(info.code@, info.title@, mcd_name@, table@) == Ok::<
            Seq<char>,
            MemcardError,
        >(s@)),
        (r matches Err(e) ==> srm_name_spec(info.code@, info.title@, mcd_name@, table@) == Err::<
            Seq<char>,
            MemcardError,
        >(e)),
{
    let region = match resolve_region(info.code.as_str(), table) {
        Err(e) => {
            return Err(e);
        },
        Ok(region) => region,
    };
    let mut r = normalize_title(info.title.as_str());
    r.push(' ');
    r.append(region.as_str());
    let suffix = slot_suffix(mcd_name);
    r.append(suffix.as_str());
    r.append(".srm");
    proof {
        assert(r@ =~= normalized_title(info.title@) + seq![' '] + region@ + slot_suffix_spec(
            mcd_name@,
        ) + ".srm"@);
    }
    Ok(r)
}

/// One planned copy: a source path and the destination path derived for it.
#[derive(Clone, Debug, PartialEq, Eq)]
pub struct CopyAction {
    pub source: String,
    pub dest: String,
}

/// The view of a planned copy.
pub open spec fn action_view(a: CopyAction) -> (Seq<char>, Seq<char>) {
    (a.source@, a.dest@)
}

/// The view of a resolver outcome.
pub open spec fn info_view(o: Option<GameInfo>) -> Option<(Seq<char>, Seq<char>)> {
    match o {
        None => None,
        Some(g) => Some((g.code@, g.title@)),
    }
}

/// What one candidate path becomes under a given resolver outcome: an
/// unresolved key aborts, a naming violation aborts, and otherwise the copy
/// goes to the synthesized filename directly inside the destination
/// directory.
pub open spec fn plan_one_spec(
    path: Seq<char>,
    resolved: Option<(Seq<char>, Seq<char>)>,
    table: Seq<(Seq<char>, Seq<char>)>,
    des: Seq<char>,
) -> Result<(Seq<char>, Seq<char>), MemcardError> {
    match resolved {
        None => Err(MemcardError::UnresolvedRecord),
        Some((code, title)) => match srm_name_spec(code, title, file_name_of(path), table) {
            Err(e) => Err(e),
            Ok(f) => Ok((path, path_join(des, f))),
        },
    }
}

/// Plans the copy of one candidate path from an already-resolved record.
pub fn plan_one(path: &str, resolved: Option<GameInfo>, table: &RegionTable, des: &str) -> (r:
    Result<CopyAction, MemcardError>)
    ensures
        (r matches Ok(a) ==> plan_one_spec(path@, info_view(resolved), table@, des@) == Ok::<
            (Seq<char>, Seq<char>),
            MemcardError,
        >(action_view(a))),
        (r matches Err(e) ==> plan_one_spec(path@, info_view(resolved), table@, des@) == Err::<
            (Seq<char>, Seq<char>),
            MemcardError,
        >(e)),
{
    let info = match resolved {
        None => {
            return Err(MemcardError::UnresolvedRecord);
        },
        Some(info) => info,
    };
    let name = file_name(path);
    let f = match srm_filename(&info, name.as_str(), table) {
        Err(e) => {
            return Err(e);
        },
        Ok(f) => f,
    };
    let mut dest = String::from_str(des);
    dest.push('/');
    dest.append(f.as_str());
    proof {
        assert(dest@ =~= path_join(des@, f@));
    }
    Ok(CopyAction { source: String::from_str(path), dest })
}

} // verus!
