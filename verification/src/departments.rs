//! Department upsert and the department listing.
//!
//! Departments are identified by their code: upserting a draft updates the
//! name of the existing row with that code, or appends a new row with a
//! freshly minted id. No row is ever deleted here.

use vstd::prelude::*;
use vstd::multiset::Multiset;
use crate::store::{Store, dept_table_wf, find_dept_by_code, has_code};
use crate::types::{Department, DepartmentDraft};
use crate::order::{str_lt, str_less, lemma_str_lt_total, lemma_str_lt_trans};

verus! {

/// First index whose row carries this code, or -1 when no row does.
pub open spec fn code_index(deps: Seq<Department>, code: Seq<char>) -> int
    decreases deps.len(),
{
    if deps.len() == 0 {
        -1
    } else if deps[0].code@ == code {
        0
    } else {
        let r = code_index(deps.drop_first(), code);
        if r == -1 {
            -1
        } else {
            r + 1
        }
    }
}

pub proof fn lemma_code_index(deps: Seq<Department>, code: Seq<char>)
    ensures
        code_index(deps, code) == -1 <==> !has_code(deps, code),
        code_index(deps, code) != -1 ==> 0 <= code_index(deps, code) < deps.len()
            && deps[code_index(deps, code)].code@ == code,
    decreases deps.len(),
{
    if deps.len() > 0 && deps[0].code@ != code {
        let rest = deps.drop_first();
        lemma_code_index(rest, code);
        if has_code(deps, code) {
            let i = choose|i: int| 0 <= i < deps.len() && (#[trigger] deps[i]).code@ == code;
            assert(i != 0);
            assert(rest[i - 1] == deps[i]);
            assert(has_code(rest, code));
        }
        if has_code(rest, code) {
            let i = choose|i: int| 0 <= i < rest.len() && (#[trigger] rest[i]).code@ == code;
            assert(deps[i + 1] == rest[i]);
            assert(has_code(deps, code));
        }
    }
}

/// One draft applied to the table: a name update in place, or a new row
/// carrying the next fresh id.
pub open spec fn upsert_step(deps: Seq<Department>, d: DepartmentDraft, next_id: u64) -> (
    Seq<Department>,
    u64,
) {
    let ci = code_index(deps, d.code@);
    if ci >= 0 {
        (deps.update(ci, Department { id: deps[ci].id, code: deps[ci].code, name: d.name }), next_id)
    } else {
        (deps.push(Department { id: next_id, code: d.code, name: d.name }), (next_id + 1) as u64)
    }
}

/// All drafts applied in order, threading the fresh-id counter through.
pub open spec fn upsert_all(deps: Seq<Department>, drafts: Seq<DepartmentDraft>, next_id: u64) -> (
    Seq<Department>,
    u64,
)
    decreases drafts.len(),
{
    if drafts.len() == 0 {
        (deps, next_id)
    } else {
        let p = upsert_all(deps, drafts.drop_last(), next_id);
        upsert_step(p.0, drafts.last(), p.1)
    }
}

/// Upsert keeps the table well formed: ids and codes of existing rows are
/// untouched and stay in place, every draft's code is present afterwards,
/// and no code appears that neither the table nor the drafts carried.
pub proof fn lemma_upsert_wf(deps: Seq<Department>, drafts: Seq<DepartmentDraft>, next_id: u64)
    requires
        dept_table_wf(deps, next_id),
        next_id + drafts.len() <= u64::MAX,
    ensures
        ({
            let p = upsert_all(deps, drafts, next_id);
            &&& dept_table_wf(p.0, p.1)
            &&& next_id <= p.1 <= next_id + drafts.len()
            &&& p.0.len() == deps.len() + (p.1 - next_id)
            &&& forall|i: int|
                0 <= i < deps.len() ==> (#[trigger] p.0[i]).id == deps[i].id && p.0[i].code
                    == deps[i].code
            &&& forall|k: int|
                0 <= k < drafts.len() ==> has_code(p.0, (#[trigger] drafts[k]).code@)
            &&& forall|c: Seq<char>|
                #[trigger] has_code(p.0, c) ==> has_code(deps, c) || exists|k: int|
                    0 <= k < drafts.len() && (#[trigger] drafts[k]).code@ == c
            &&& forall|c: Seq<char>| #[trigger] has_code(deps, c) ==> has_code(p.0, c)
        }),
    decreases drafts.len(),
{
    if drafts.len() > 0 {
        let prev = drafts.drop_last();
        let d = drafts.last();
        lemma_upsert_wf(deps, prev, next_id);
        let p = upsert_all(deps, prev, next_id);
        let q = upsert_step(p.0, d, p.1);
        lemma_code_index(p.0, d.code@);
        let ci = code_index(p.0, d.code@);
        if ci >= 0 {
            assert(q.0 =~= p.0.update(
                ci,
                Department { id: p.0[ci].id, code: p.0[ci].code, name: d.name },
            ));
            assert forall|c: Seq<char>| #[trigger] has_code(q.0, c) implies has_code(p.0, c) by {
                let i = choose|i: int| 0 <= i < q.0.len() && (#[trigger] q.0[i]).code@ == c;
                assert(p.0[i].code@ == c);
            }
            assert forall|c: Seq<char>| #[trigger] has_code(p.0, c) implies has_code(q.0, c) by {
                let i = choose|i: int| 0 <= i < p.0.len() && (#[trigger] p.0[i]).code@ == c;
                assert(q.0[i].code@ == c);
            }
        } else {
            let row = Department { id: p.1, code: d.code, name: d.name };
            assert(q.0 =~= p.0.push(row));
            assert(q.0[p.0.len() as int] == row);
            assert forall|c: Seq<char>| #[trigger] has_code(q.0, c) implies has_code(p.0, c)
                || c == d.code@ by {
                let i = choose|i: int| 0 <= i < q.0.len() && (#[trigger] q.0[i]).code@ == c;
                if i < p.0.len() {
                    assert(p.0[i].code@ == c);
                }
            }
            assert forall|c: Seq<char>| #[trigger] has_code(p.0, c) implies has_code(q.0, c) by {
                let i = choose|i: int| 0 <= i < p.0.len() && (#[trigger] p.0[i]).code@ == c;
                assert(q.0[i].code@ == c);
            }
        }
        assert forall|k: int| 0 <= k < drafts.len() implies has_code(
            q.0,
            (#[trigger] drafts[k]).code@,
        ) by {
            if k < drafts.len() - 1 {
                assert(prev[k] == drafts[k]);
                assert(has_code(p.0, drafts[k].code@));
            } else {
                assert(drafts[k] == d);
                if ci >= 0 {
                    assert(q.0[ci].code@ == d.code@);
                } else {
                    assert(q.0[p.0.len() as int].code@ == d.code@);
                }
            }
        }
        assert forall|c: Seq<char>| #[trigger] has_code(q.0, c) implies has_code(deps, c) || exists|
            k: int,
        | 0 <= k < drafts.len() && (#[trigger] drafts[k]).code@ == c by {
            if !has_code(deps, c) {
                if has_code(p.0, c) {
                    let k = choose|k: int| 0 <= k < prev.len() && (#[trigger] prev[k]).code@ == c;
                    assert(drafts[k] == prev[k]);
                } else {
                    assert(c == d.code@);
                    assert(drafts[drafts.len() - 1].code@ == c);
                }
            }
        }
    }
}

/// Upsert every draft into the department table, in draft order, updating
/// names of codes already present and appending fresh rows for new codes.
pub fn upsert_departments(deps: &mut Vec<Department>, next_id: &mut u64, drafts: &Vec<
    DepartmentDraft,
>)
    requires
        dept_table_wf(old(deps)@, *old(next_id)),
        *old(next_id) + drafts@.len() <= u64::MAX,
    ensures
        (final(deps)@, *final(next_id)) == upsert_all(old(deps)@, drafts@, *old(next_id)),
{
    let n = drafts.len();
    let mut i: usize = 0;
    while i < n
        invariant
            i <= n == drafts@.len(),
            dept_table_wf(old(deps)@, *old(next_id)),
            *old(next_id) + drafts@.len() <= u64::MAX,
            dept_table_wf(deps@, *next_id),
            *next_id + (drafts@.len() - i) <= u64::MAX,
            (deps@, *next_id) == upsert_all(old(deps)@, drafts@.take(i as int), *old(next_id)),
        decreases n - i,
    {
        proof {
            assert(drafts@.take(i + 1).drop_last() =~= drafts@.take(i as int));
            assert(drafts@.take(i + 1).last() == drafts@[i as int]);
        }
        let ghost pre = deps@;
        let ghost pre_nid = *next_id;
        let d = &drafts[i];
        match find_dept_by_code(deps, &d.code) {
            Some(ix) => {
                proof {
                    lemma_code_index(pre, d.code@);
                    let ci = code_index(pre, d.code@);
                    assert(has_code(pre, d.code@));
                    assert(ci >= 0);
                    assert(pre[ci].code@ == d.code@ && pre[ix as int].code@ == d.code@);
                    assert(ci == ix);
                }
                deps[ix].name = d.name.clone();
                proof {
                    assert((deps@, *next_id) == upsert_step(pre, drafts@[i as int], pre_nid));
                }
            },
            None => {
                proof {
                    lemma_code_index(pre, d.code@);
                }
                deps.push(Department { id: *next_id, code: d.code.clone(), name: d.name.clone() });
                *next_id = *next_id + 1;
                proof {
                    assert((deps@, *next_id) == upsert_step(pre, drafts@[i as int], pre_nid));
                }
            },
        }
        proof {
            lemma_upsert_wf(old(deps)@, drafts@.take(i + 1), *old(next_id));
        }
        i = i + 1;
    }
    proof {
        assert(drafts@.take(n as int) =~= drafts@);
    }
}

/// Pairwise distinct codes among drafts.
pub open spec fn draft_codes_distinct(s: Seq<DepartmentDraft>) -> bool {
    forall|i: int, j: int|
        #![trigger s[i], s[j]]
        0 <= i < j < s.len() ==> s[i].code@ != s[j].code@
}

/// Sort drafts into strictly ascending code order. The result holds exactly
/// the given drafts; codes must be pairwise distinct, which makes the order
/// strict and the result unique.
#[verifier::rlimit(100)]
#[verifier::spinoff_prover]
fn sort_dept_drafts(v: Vec<DepartmentDraft>) -> (r: Vec<DepartmentDraft>)
    requires
        draft_codes_distinct(v@),
    ensures
        r@.len() == v@.len(),
        r@.to_multiset() == v@.to_multiset(),
        forall|x: DepartmentDraft| r@.contains(x) <==> v@.contains(x),
        forall|a: int, b: int|
            #![trigger r@[a], r@[b]]
            0 <= a < b < r@.len() ==> str_lt(r@[a].code@, r@[b].code@),
{
    broadcast use vstd::seq_lib::group_to_multiset_ensures;

    let ghost v0 = v@;
    let mut rem = v;
    let mut out: Vec<DepartmentDraft> = Vec::new();
    while rem.len() > 0
        invariant
            out@.to_multiset().add(rem@.to_multiset()) =~= v0.to_multiset(),
            out@.len() + rem@.len() == v0.len(),
            draft_codes_distinct(rem@),
            forall|a: int, b: int|
                #![trigger out@[a], out@[b]]
                0 <= a < b < out@.len() ==> str_lt(out@[a].code@, out@[b].code@),
            forall|i: int, j: int|
                #![trigger out@[i], rem@[j]]
                0 <= i < out@.len() && 0 <= j < rem@.len() ==> str_lt(out@[i].code@, rem@[j].code@),
        decreases rem@.len(),
    {
        let mut m: usize = 0;
        let mut j: usize = 1;
        while j < rem.len()
            invariant
                m < j <= rem@.len(),
                rem@.len() > 0,
                draft_codes_distinct(rem@),
                forall|k: int|
                    0 <= k < j && k != m ==> str_lt(rem@[m as int].code@, (#[trigger] rem@[k]).code@),
            decreases rem@.len() - j,
        {
            if str_less(rem[j].code.as_str(), rem[m].code.as_str()) {
                proof {
                    assert forall|k: int| 0 <= k < j && k != j implies str_lt(
                        rem@[j as int].code@,
                        (#[trigger] rem@[k]).code@,
                    ) by {
                        if k != m {
                            lemma_str_lt_trans(rem@[j as int].code@, rem@[m as int].code@, rem@[k].code@);
                        }
                    }
                }
                m = j;
            } else {
                proof {
                    lemma_str_lt_total(rem@[m as int].code@, rem@[j as int].code@);
                }
            }
            j = j + 1;
        }
        let ghost old_rem = rem@;
        let ghost old_out = out@;
        let x = rem.remove(m);
        out.push(x);
        proof {
            broadcast use vstd::seq_lib::group_to_multiset_ensures;

            assert(out@.to_multiset() =~= old_out.to_multiset().insert(x));
            assert(rem@.to_multiset() =~= old_rem.to_multiset().remove(x));
            assert(old_rem.to_multiset().count(x) > 0);
            assert(out@.to_multiset().add(rem@.to_multiset()) =~= old_out.to_multiset().add(
                old_rem.to_multiset(),
            ));
            old_rem.remove_ensures(m as int);
            assert(draft_codes_distinct(rem@));
            assert forall|i: int, j2: int|
                #![trigger out@[i], rem@[j2]]
                0 <= i < out@.len() && 0 <= j2 < rem@.len() implies str_lt(
                out@[i].code@,
                rem@[j2].code@,
            ) by {
                if i < out@.len() - 1 {
                    assert(old_out[i] == out@[i]);
                }
            }
        }
    }
    proof {
        assert(rem@.to_multiset() =~= Multiset::<DepartmentDraft>::empty());
        assert(out@.to_multiset().add(Multiset::<DepartmentDraft>::empty()) =~= out@.to_multiset());
        assert forall|x: DepartmentDraft| out@.contains(x) <==> v0.contains(x) by {
            assert(out@.contains(x) <==> out@.to_multiset().count(x) > 0);
            assert(v0.contains(x) <==> v0.to_multiset().count(x) > 0);
        }
    }
    out
}

/// The draft a department row lists as: its code and name.
pub open spec fn draft_of(d: Department) -> DepartmentDraft {
    DepartmentDraft { code: d.code, name: d.name }
}

/// The department list: exactly the code and name of every department, one
/// entry per department, sorted by code in strictly ascending lexicographic
/// order.
#[verifier::rlimit(100)]
#[verifier::spinoff_prover]
pub fn get_departments(store: &Store) -> (r: Vec<DepartmentDraft>)
    requires
        store.wf(),
    ensures
        r@.len() == store.departments@.len(),
        r@.to_multiset() == store.departments@.map_values(
            |d: Department| draft_of(d),
        ).to_multiset(),
        forall|a: int, b: int|
            #![trigger r@[a], r@[b]]
            0 <= a < b < r@.len() ==> str_lt(r@[a].code@, r@[b].code@),
{
    let mut v: Vec<DepartmentDraft> = Vec::new();
    let mut i: usize = 0;
    while i < store.departments.len()
        invariant
            store.wf(),
            i <= store.departments@.len(),
            v@.len() == i,
            forall|k: int| 0 <= k < i ==> #[trigger] v@[k] == draft_of(store.departments@[k]),
        decreases store.departments@.len() - i,
    {
        v.push(
            DepartmentDraft {
                code: store.departments[i].code.clone(),
                name: store.departments[i].name.clone(),
            },
        );
        i = i + 1;
    }
    proof {
        assert forall|a: int, b: int|
            #![trigger v@[a], v@[b]]
            0 <= a < b < v@.len() implies v@[a].code@ != v@[b].code@ by {
            assert(store.departments@[a].code@ != store.departments@[b].code@);
        }
        assert(v@ =~= store.departments@.map_values(|d: Department| draft_of(d)));
    }
    let r = sort_dept_drafts(v);
    r
}

/// In the table an upsert leaves behind, every row carrying a draft's code
/// carries that draft's name — provided no two drafts share a code.
proof fn lemma_upsert_names(deps: Seq<Department>, drafts: Seq<DepartmentDraft>, next_id: u64)
    requires
        dept_table_wf(deps, next_id),
        next_id + drafts.len() <= u64::MAX,
        forall|a: int, b: int|
            #![trigger drafts[a], drafts[b]]
            0 <= a < b < drafts.len() ==> drafts[a].code@ != drafts[b].code@,
    ensures
        ({
            let p = upsert_all(deps, drafts, next_id);
            forall|k: int, i: int|
                #![trigger drafts[k], p.0[i]]
                0 <= k < drafts.len() && 0 <= i < p.0.len() && p.0[i].code@ == drafts[k].code@
                    ==> p.0[i].name == drafts[k].name
        }),
    decreases drafts.len(),
{
    if drafts.len() > 0 {
        let prev = drafts.drop_last();
        let d = drafts.last();
        lemma_upsert_names(deps, prev, next_id);
        lemma_upsert_wf(deps, prev, next_id);
        let p = upsert_all(deps, prev, next_id);
        let q = upsert_all(deps, drafts, next_id);
        lemma_code_index(p.0, d.code@);
        let ci = code_index(p.0, d.code@);
        assert forall|k: int, i: int|
            #![trigger drafts[k], q.0[i]]
            0 <= k < drafts.len() && 0 <= i < q.0.len() && q.0[i].code@
                == drafts[k].code@ implies q.0[i].name == drafts[k].name by {
            if k < drafts.len() - 1 {
                assert(prev[k] == drafts[k]);
                if ci >= 0 {
                    // only the row with `d`'s code changed, and its code differs
                    if i == ci {
                        assert(p.0[ci].code@ == d.code@);
                        assert(drafts[k].code@ != d.code@);
                        assert(false);
                    } else {
                        assert(q.0[i] == p.0[i]);
                    }
                } else {
                    if i < p.0.len() {
                        assert(q.0[i] == p.0[i]);
                    } else {
                        assert(q.0[i].code@ == d.code@);
                        assert(drafts[k].code@ != d.code@);
                        assert(false);
                    }
                }
            } else {
                assert(drafts[k] == d);
                if ci >= 0 {
                    if i == ci {
                        assert(q.0[i].name == d.name);
                    } else {
                        // a second row with the same code cannot exist
                        assert(q.0[i] == p.0[i]);
                        assert(p.0[i].code@ == d.code@ && p.0[ci].code@ == d.code@);
                        assert(false);
                    }
                } else {
                    if i < p.0.len() {
                        assert(q.0[i] == p.0[i]);
                        assert(has_code(p.0, d.code@));
                        assert(false);
                    } else {
                        assert(q.0[i].name == d.name);
                    }
                }
            }
        }
    }
}

/// Upserting the same drafts twice is the same as upserting them once:
/// the second pass rewrites names that are already in place and appends no
/// row, so no duplicate department can arise from a repeated call.
pub proof fn upsert_idempotent(deps: Seq<Department>, drafts: Seq<DepartmentDraft>, next_id: u64)
    requires
        dept_table_wf(deps, next_id),
        next_id + drafts.len() <= u64::MAX,
        forall|a: int, b: int|
            #![trigger drafts[a], drafts[b]]
            0 <= a < b < drafts.len() ==> drafts[a].code@ != drafts[b].code@,
    ensures
        ({
            let p = upsert_all(deps, drafts, next_id);
            upsert_all(p.0, drafts, p.1) == p
        }),
{
    let p = upsert_all(deps, drafts, next_id);
    lemma_upsert_wf(deps, drafts, next_id);
    lemma_upsert_names(deps, drafts, next_id);
    assert forall|k: int| 0 <= k <= drafts.len() implies upsert_all(p.0, drafts.take(k), p.1)
        == p by {
        lemma_upsert_prefix_fixed(deps, drafts, next_id, k);
    }
    assert(drafts.take(drafts.len() as int) =~= drafts);
}

/// Helper for `upsert_idempotent`: each prefix of the second pass leaves the
/// once-upserted table untouched.
proof fn lemma_upsert_prefix_fixed(
    deps: Seq<Department>,
    drafts: Seq<DepartmentDraft>,
    next_id: u64,
    k: int,
)
    requires
        dept_table_wf(deps, next_id),
        next_id + drafts.len() <= u64::MAX,
        forall|a: int, b: int|
            #![trigger drafts[a], drafts[b]]
            0 <= a < b < drafts.len() ==> drafts[a].code@ != drafts[b].code@,
        0 <= k <= drafts.len(),
    ensures
        upsert_all(upsert_all(deps, drafts, next_id).0, drafts.take(k), upsert_all(
            deps,
            drafts,
            next_id,
        ).1) == upsert_all(deps, drafts, next_id),
    decreases k,
{
    let p = upsert_all(deps, drafts, next_id);
    lemma_upsert_wf(deps, drafts, next_id);
    lemma_upsert_names(deps, drafts, next_id);
    if k > 0 {
        lemma_upsert_prefix_fixed(deps, drafts, next_id, k - 1);
        assert(drafts.take(k).drop_last() =~= drafts.take(k - 1));
        assert(drafts.take(k).last() == drafts[k - 1]);
        let d = drafts[k - 1];
        lemma_code_index(p.0, d.code@);
        let ci = code_index(p.0, d.code@);
        assert(has_code(p.0, d.code@));
        assert(ci >= 0);
        assert(p.0[ci].name == d.name);
        assert(p.0.update(ci, Department { id: p.0[ci].id, code: p.0[ci].code, name: d.name })
            =~= p.0);
    }
}

} // verus!
