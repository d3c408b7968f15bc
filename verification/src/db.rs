//! The resolver and the conversion driver. The resolver issues one
//! exact-match query per lookup key against the reference dataset; the
//! driver walks the located candidate paths in order and plans one copy per
//! path, aborting on the first failure.

use vstd::prelude::*;

use crate::MemcardError;
use crate::locate::{FolderEntry, find_mcds, located, views_of};
use crate::naming::{
    CopyAction, GameInfo, action_view, folder_key, info_view, plan_one, plan_one_spec,
};
use crate::region::RegionTable;

verus! {

#[verifier::external_type_specification]
#[verifier::external_body]
pub struct ExConnection(sqlite::Connection);

/// Relies on sqlite's prepared statements: one exact-match query of the
/// `ps1` table. What comes back depends on the dataset on disk, so nothing
/// is assumed of the answer.
#[verifier::external_body]
fn query_ps1(conn: &sqlite::Connection, code: &str) -> (r: Result<Option<GameInfo>, MemcardError>) {
    let st = conn.prepare("SELECT * FROM ps1 WHERE code = ?").and_then(|s| s.into_iter().bind((1, code)));
    let mut cursor = match st {
        Ok(c) => c,
        Err(_) => return Err(MemcardError::DatasetError),
    };
    match cursor.next() {
        None => Ok(None),
        Some(Err(_)) => Err(MemcardError::DatasetError),
        Some(Ok(row)) => match (row.try_read::<&str, _>("code"), row.try_read::<&str, _>("title"), row.try_read::<&str, _>("language")) {
            (Ok(c), Ok(t), Ok(l)) => Ok(Some(GameInfo { code: c.to_string(), title: t.to_string(), lang: l.to_string() })),
            _ => Err(MemcardError::DatasetError),
        },
    }
}

/// Resolves a lookup key against the reference dataset: the record whose
/// `code` matches the key exactly, nothing when no row matches, and a
/// dataset error when the query itself cannot be run.
pub fn get_info(code: &str, conn: &sqlite::Connection) -> (r: Result<
    Option<GameInfo>,
    MemcardError,
>)
    ensures
        r matches Err(e) ==> e == MemcardError::DatasetError,
{
    match query_ps1(conn, code) {
        Ok(o) => Ok(o),
        Err(_) => Err(MemcardError::DatasetError),
    }
}

/// Plans the copy of one candidate path: derives the lookup key from the
/// path's parent directory, resolves it, and synthesizes the destination.
/// Whatever the dataset answered, the outcome is exactly the pure plan for
/// that answer.
pub fn mcd_to_srm(mcd_path: &str, conn: &sqlite::Connection, table: &RegionTable, des: &str) -> (r:
    Result<CopyAction, MemcardError>)
    ensures
        r matches Ok(a) ==> exists|g: Option<(Seq<char>, Seq<char>)>|
            plan_one_spec(mcd_path@, g, table@, des@) == Ok::<
                (Seq<char>, Seq<char>),
                MemcardError,
            >(action_view(a)),
        r matches Err(e) ==> e == MemcardError::DatasetError || exists|
            g: Option<(Seq<char>, Seq<char>)>,
        |
            plan_one_spec(mcd_path@, g, table@, des@) == Err::<
                (Seq<char>, Seq<char>),
                MemcardError,
            >(e),
{
    let key = folder_key(mcd_path);
    let resolved = match get_info(key.as_str(), conn) {
        Err(e) => {
            return Err(e);
        },
        Ok(o) => o,
    };
    let ghost g = info_view(resolved);
    let r = plan_one(mcd_path, resolved, table, des);
    proof {
        match &r {
            Ok(a) => {
                assert(plan_one_spec(mcd_path@, g, table@, des@) == Ok::<
                    (Seq<char>, Seq<char>),
                    MemcardError,
                >(action_view(*a)));
            },
            Err(e) => {
                assert(plan_one_spec(mcd_path@, g, table@, des@) == Err::<
                    (Seq<char>, Seq<char>),
                    MemcardError,
                >(*e));
            },
        }
    }
    r
}

/// The canonical platform subdirectory beneath the source root.
pub open spec fn platform_name() -> Seq<char> {
    "PS1"@
}

/// What a run of the driver produces from the located paths, given the
/// resolver's answer for each: the planned copies in order, or the first
/// failure.
pub open spec fn run_plan(
    ps: Seq<Seq<char>>,
    gs: Seq<Option<(Seq<char>, Seq<char>)>>,
    table: Seq<(Seq<char>, Seq<char>)>,
    des: Seq<char>,
) -> Result<Seq<(Seq<char>, Seq<char>)>, MemcardError>
    decreases ps.len(),
{
    if ps.len() == 0 {
        Ok(Seq::empty())
    } else {
        match plan_one_spec(ps[0], gs[0], table, des) {
            Err(e) => Err(e),
            Ok(a) => match run_plan(ps.drop_first(), gs.drop_first(), table, des) {
                Err(e) => Err(e),
                Ok(rest) => Ok(seq![a] + rest),
            },
        }
    }
}

/// Extending a successful run by one path appends that path's plan, or
/// fails where that plan fails.
proof fn lemma_run_plan_snoc(
    ps: Seq<Seq<char>>,
    gs: Seq<Option<(Seq<char>, Seq<char>)>>,
    table: Seq<(Seq<char>, Seq<char>)>,
    des: Seq<char>,
    p: Seq<char>,
    g: Option<(Seq<char>, Seq<char>)>,
    acts: Seq<(Seq<char>, Seq<char>)>,
)
    requires
        gs.len() == ps.len(),
        run_plan(ps, gs, table, des) == Ok::<Seq<(Seq<char>, Seq<char>)>, MemcardError>(acts),
    ensures
        plan_one_spec(p, g, table, des) matches Err(e) ==> run_plan(ps.push(p), gs.push(g), table, des)
            == Err::<Seq<(Seq<char>, Seq<char>)>, MemcardError>(e),
        plan_one_spec(p, g, table, des) matches Ok(a) ==> run_plan(ps.push(p), gs.push(g), table, des)
            == Ok::<Seq<(Seq<char>, Seq<char>)>, MemcardError>(acts.push(a)),
    decreases ps.len(),
{
    if ps.len() == 0 {
        assert(acts =~= Seq::<(Seq<char>, Seq<char>)>::empty());
        assert(ps.push(p)[0] == p);
        assert(gs.push(g)[0] == g);
        assert(ps.push(p).drop_first() =~= Seq::<Seq<char>>::empty());
        assert(gs.push(g).drop_first() =~= Seq::<Option<(Seq<char>, Seq<char>)>>::empty());
        assert(run_plan(ps.push(p).drop_first(), gs.push(g).drop_first(), table, des) == Ok::<
            Seq<(Seq<char>, Seq<char>)>,
            MemcardError,
        >(Seq::empty()));
        match plan_one_spec(p, g, table, des) {
            Err(e) => {},
            Ok(a) => {
                assert(seq![a] + Seq::<(Seq<char>, Seq<char>)>::empty() =~= acts.push(a));
            },
        }
    } else {
        let a0 = match plan_one_spec(ps[0], gs[0], table, des) {
            Ok(a0) => a0,
            Err(_) => arbitrary(),
        };
        let rest = match run_plan(ps.drop_first(), gs.drop_first(), table, des) {
            Ok(rest) => rest,
            Err(_) => arbitrary(),
        };
        assert(acts == seq![a0] + rest);
        lemma_run_plan_snoc(ps.drop_first(), gs.drop_first(), table, des, p, g, rest);
        assert(ps.push(p)[0] == ps[0]);
        assert(gs.push(g)[0] == gs[0]);
        assert(ps.push(p).drop_first() =~= ps.drop_first().push(p));
        assert(gs.push(g).drop_first() =~= gs.drop_first().push(g));
        match plan_one_spec(p, g, table, des) {
            Err(e) => {
                assert(run_plan(ps.drop_first().push(p), gs.drop_first().push(g), table, des)
                    == Err::<Seq<(Seq<char>, Seq<char>)>, MemcardError>(e));
                assert(run_plan(ps.push(p), gs.push(g), table, des) == Err::<
                    Seq<(Seq<char>, Seq<char>)>,
                    MemcardError,
                >(e));
            },
            Ok(a) => {
                assert(seq![a0] + rest.push(a) =~= (seq![a0] + rest).push(a));
                assert(run_plan(ps.drop_first().push(p), gs.drop_first().push(g), table, des)
                    == Ok::<Seq<(Seq<char>, Seq<char>)>, MemcardError>(rest.push(a)));
                assert(run_plan(ps.push(p), gs.push(g), table, des) == Ok::<
                    Seq<(Seq<char>, Seq<char>)>,
                    MemcardError,
                >(acts.push(a)));
            },
        }
    }
}

/// A run fails with the first failing plan, whatever the resolver would
/// have answered for the paths after it.
proof fn lemma_run_plan_stops(
    ps: Seq<Seq<char>>,
    gs: Seq<Option<(Seq<char>, Seq<char>)>>,
    table: Seq<(Seq<char>, Seq<char>)>,
    des: Seq<char>,
    i: int,
    e: MemcardError,
)
    requires
        gs.len() == ps.len(),
        0 <= i < ps.len(),
        run_plan(ps.take(i), gs.take(i), table, des) is Ok,
        plan_one_spec(ps[i], gs[i], table, des) == Err::<(Seq<char>, Seq<char>), MemcardError>(e),
    ensures
        run_plan(ps, gs, table, des) == Err::<Seq<(Seq<char>, Seq<char>)>, MemcardError>(e),
    decreases i,
{
    if i == 0 {
    } else {
        assert(ps.take(i)[0] == ps[0]);
        assert(gs.take(i)[0] == gs[0]);
        assert(ps.take(i).drop_first() =~= ps.drop_first().take(i - 1));
        assert(gs.take(i).drop_first() =~= gs.drop_first().take(i - 1));
        assert(ps.drop_first()[i - 1] == ps[i]);
        assert(gs.drop_first()[i - 1] == gs[i]);
        lemma_run_plan_stops(ps.drop_first(), gs.drop_first(), table, des, i - 1, e);
    }
}

/// Converts a whole source tree: walks the platform subdirectory's listing,
/// plans one copy per located path in ascending path order, and aborts on
/// the first failure. Whatever the dataset answered along the way, the
/// outcome is exactly a run of the pure plan over the located paths.
pub fn convert(
    src: &str,
    entries: &Vec<FolderEntry>,
    conn: &sqlite::Connection,
    table: &RegionTable,
    des: &str,
) -> (r: Result<Vec<CopyAction>, MemcardError>)
    ensures
        located(crate::locate::path_join(src@, platform_name()), entries@).len() == 0 ==> (r
            matches Ok(acts) && acts@.len() == 0),
        r matches Ok(acts) ==> exists|gs: Seq<Option<(Seq<char>, Seq<char>)>>|
            gs.len() == located(crate::locate::path_join(src@, platform_name()), entries@).len()
                && run_plan(
                located(crate::locate::path_join(src@, platform_name()), entries@),
                gs,
                table@,
                des@,
            ) == Ok::<Seq<(Seq<char>, Seq<char>)>, MemcardError>(
                acts@.map_values(|a: CopyAction| action_view(a)),
            ),
        r matches Err(e) ==> e == MemcardError::DatasetError || exists|
            gs: Seq<Option<(Seq<char>, Seq<char>)>>,
        |
            gs.len() == located(crate::locate::path_join(src@, platform_name()), entries@).len()
                && run_plan(
                located(crate::locate::path_join(src@, platform_name()), entries@),
                gs,
                table@,
                des@,
            ) == Err::<Seq<(Seq<char>, Seq<char>)>, MemcardError>(e),
{
    let mut ps1_dir = String::from_str(src);
    ps1_dir.push('/');
    ps1_dir.append("PS1");
    proof {
        assert(ps1_dir@ =~= crate::locate::path_join(src@, platform_name()));
    }
    let paths = find_mcds(ps1_dir.as_str(), entries);
    let ghost pv = views_of(paths@);
    let n = paths.len();
    let mut acts: Vec<CopyAction> = Vec::new();
    let ghost mut gs = Seq::<Option<(Seq<char>, Seq<char>)>>::empty();
    let mut k: usize = 0;
    proof {
        assert(pv.take(0) =~= Seq::<Seq<char>>::empty());
        assert(gs.take(0) =~= gs);
        assert(acts@.map_values(|a: CopyAction| action_view(a)) =~= Seq::<
            (Seq<char>, Seq<char>),
        >::empty());
    }
    while k < n
        invariant
            k <= n,
            n == paths@.len(),
            pv == views_of(paths@),
            pv == located(crate::locate::path_join(src@, platform_name()), entries@),
            gs.len() == k,
            run_plan(pv.take(k as int), gs, table@, des@) == Ok::<
                Seq<(Seq<char>, Seq<char>)>,
                MemcardError,
            >(acts@.map_values(|a: CopyAction| action_view(a))),
        decreases n - k,
    {
        let key = folder_key(paths[k].as_str());
        let resolved = match get_info(key.as_str(), conn) {
            Err(_) => {
                return Err(MemcardError::DatasetError);
            },
            Ok(o) => o,
        };
        let ghost g = info_view(resolved);
        let ghost av = acts@.map_values(|a: CopyAction| action_view(a));
        match plan_one(paths[k].as_str(), resolved, table, des) {
            Ok(a) => {
                proof {
                    lemma_run_plan_snoc(pv.take(k as int), gs, table@, des@, pv[k as int], g, av);
                    assert(pv.take(k as int).push(pv[k as int]) =~= pv.take(k + 1));
                    assert(acts@.push(a).map_values(|x: CopyAction| action_view(x)) =~= av.push(
                        action_view(a),
                    ));
                }
                acts.push(a);
                proof {
                    gs = gs.push(g);
                    assert(gs.take(k + 1) =~= gs);
                }
            },
            Err(e) => {
                proof {
                    let full_gs = gs.push(g) + Seq::new((n - k - 1) as nat, |x: int| None);
                    assert(full_gs.len() == n);
                    assert(full_gs.take(k as int) =~= gs);
                    assert(full_gs[k as int] == g);
                    assert(pv.take(n as int) =~= pv);
                    lemma_run_plan_stops(pv, full_gs, table@, des@, k as int, e);
                    assert(full_gs.len() == located(
                        crate::locate::path_join(src@, platform_name()),
                        entries@,
                    ).len());
                    assert(run_plan(
                        located(crate::locate::path_join(src@, platform_name()), entries@),
                        full_gs,
                        table@,
                        des@,
                    ) == Err::<Seq<(Seq<char>, Seq<char>)>, MemcardError>(e));
                }
                return Err(e);
            },
        }
        k += 1;
    }
    proof {
        assert(pv.take(n as int) =~= pv);
        assert(gs.len() == located(
            crate::locate::path_join(src@, platform_name()),
            entries@,
        ).len());
        assert(run_plan(
            located(crate::locate::path_join(src@, platform_name()), entries@),
            gs,
            table@,
            des@,
        ) == Ok::<Seq<(Seq<char>, Seq<char>)>, MemcardError>(
            acts@.map_values(|a: CopyAction| action_view(a)),
        ));
    }
    Ok(acts)
}

} // verus!
