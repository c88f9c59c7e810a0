//! The resolution engine: plans deduplicated, batched fetches for the two
//! backends, merges fetched values back onto the entries in declaration
//! order, enforces the required/optional policy, and applies overrides.

use vstd::prelude::*;

use crate::error::Error;
use crate::expand::replace_placeholders;
use crate::expand::spec_expand;
use crate::omap::omap_entries;
use crate::omap::omap_insert;
use crate::omap::omap_new;
use crate::omap::omap_pairs;
use crate::omap::pairs_lookup;
use crate::omap::upsert_pair;
use crate::parser::EntryView;
use crate::parser::EnvEntries;
use crate::parser::ProviderView;
use crate::parser::SecretProviderConfig;
use indexmap::IndexMap;

verus! {

/// The most identifiers one bulk-store call may carry.
pub const SM_BATCH_LIMIT: usize = 20;

/// The most identifiers one parameter-store call may carry.
pub const PS_BATCH_LIMIT: usize = 10;

/// The planned fetches for one resolution: per backend, the entry-index /
/// expanded-identifier pairs in declaration order, and the deduplicated
/// identifier batches to send.
pub struct FetchPlan {
    pub sm_requests: Vec<(usize, String)>,
    pub sm_batches: Vec<Vec<String>>,
    pub ps_requests: Vec<(usize, String)>,
    pub ps_batches: Vec<Vec<String>>,
}

// ---------------------------------------------------------------------------
// Planning.
// ---------------------------------------------------------------------------

/// Walks the entries from `i` on, expanding each directive's pattern and
/// collecting (entry index, identifier) pairs per backend; fails with the
/// first missing placeholder name.
pub open spec fn plan_from(
    entries: Seq<EntryView>,
    i: int,
    ph: Seq<(Seq<char>, Seq<char>)>,
    sm: Seq<(usize, Seq<char>)>,
    ps: Seq<(usize, Seq<char>)>,
) -> Result<(Seq<(usize, Seq<char>)>, Seq<(usize, Seq<char>)>), Seq<char>>
    decreases entries.len() - i,
{
    if i < 0 || i >= entries.len() {
        Ok((sm, ps))
    } else {
        match entries[i].secret {
            None => plan_from(entries, i + 1, ph, sm, ps),
            Some(sc) => match sc.provider_config {
                ProviderView::AwsSm(pat) => match spec_expand(pat, ph) {
                    Ok(x) => plan_from(entries, i + 1, ph, sm.push((i as usize, x)), ps),
                    Err(n) => Err(n),
                },
                ProviderView::AwsPs(pat) => match spec_expand(pat, ph) {
                    Ok(x) => plan_from(entries, i + 1, ph, sm, ps.push((i as usize, x))),
                    Err(n) => Err(n),
                },
            },
        }
    }
}

/// The per-backend request pairs for `entries`, or the first missing
/// placeholder name.
pub open spec fn spec_plan(entries: Seq<EntryView>, ph: Seq<(Seq<char>, Seq<char>)>) -> Result<
    (Seq<(usize, Seq<char>)>, Seq<(usize, Seq<char>)>),
    Seq<char>,
> {
    plan_from(entries, 0, ph, Seq::empty(), Seq::empty())
}

/// The identifiers of the request pairs, in order.
pub open spec fn ids_of(reqs: Seq<(usize, Seq<char>)>) -> Seq<Seq<char>> {
    reqs.map_values(|p: (usize, Seq<char>)| p.1)
}

/// Keeps the first occurrence of each identifier, in order.
pub open spec fn dedup_from(ids: Seq<Seq<char>>, i: int, acc: Seq<Seq<char>>) -> Seq<Seq<char>>
    decreases ids.len() - i,
{
    if i < 0 || i >= ids.len() {
        acc
    } else if acc.contains(ids[i]) {
        dedup_from(ids, i + 1, acc)
    } else {
        dedup_from(ids, i + 1, acc.push(ids[i]))
    }
}

/// The distinct identifiers of `ids`, in first-seen order.
pub open spec fn dedup_ids(ids: Seq<Seq<char>>) -> Seq<Seq<char>> {
    dedup_from(ids, 0, Seq::empty())
}

/// Cuts `ids` from `i` on into consecutive chunks of at most `limit`.
pub open spec fn chunks_from(ids: Seq<Seq<char>>, i: int, limit: int) -> Seq<Seq<Seq<char>>>
    decreases ids.len() - i,
{
    if limit < 1 || i < 0 || i >= ids.len() {
        Seq::empty()
    } else {
        let e = if i + limit < ids.len() {
            i + limit
        } else {
            ids.len() as int
        };
        seq![ids.subrange(i, e)] + chunks_from(ids, e, limit)
    }
}

/// The batches a backend is sent for the identifiers of `ids`: the
/// distinct identifiers, in first-seen order, cut into chunks of at most
/// `limit`.
pub open spec fn batches_of(ids: Seq<Seq<char>>, limit: int) -> Seq<Seq<Seq<char>>> {
    chunks_from(dedup_ids(ids), 0, limit)
}

/// True when `v` holds a string whose characters are `s`.
fn contains_string(v: &Vec<String>, s: &String) -> (r: bool)
    ensures
        r == v.deep_view().contains(s@),
{
    let n = v.len();
    for j in 0..n
        invariant
            n == v@.len(),
            forall|k: int| 0 <= k < j ==> v.deep_view()[k] != s@,
    {
        proof {
            assert(v.deep_view()[j as int] == v@[j as int]@);
        }
        if v[j] == *s {
            proof {
                assert(v.deep_view()[j as int] == s@);
            }
            return true;
        }
    }
    proof {
        if v.deep_view().contains(s@) {
            let k = choose|k: int| 0 <= k < v.deep_view().len() && v.deep_view()[k] == s@;
            assert(v.deep_view()[k] != s@);
        }
    }
    false
}

/// Executable form of [`dedup_ids`].
pub fn dedup_strings(ids: &Vec<String>) -> (r: Vec<String>)
    ensures
        r.deep_view() == dedup_ids(ids.deep_view()),
{
    let ghost iv = ids.deep_view();
    let mut out: Vec<String> = Vec::new();
    proof {
        assert(out.deep_view() =~= Seq::<Seq<char>>::empty());
    }
    let n = ids.len();
    for i in 0..n
        invariant
            n == ids@.len(),
            iv == ids.deep_view(),
            iv.len() == ids@.len(),
            dedup_from(iv, i as int, out.deep_view()) == dedup_ids(iv),
    {
        proof {
            assert(iv[i as int] == ids@[i as int]@);
        }
        if !contains_string(&out, &ids[i]) {
            let ghost pre = out.deep_view();
            out.push(ids[i].clone());
            proof {
                assert(out.deep_view() =~= pre.push(iv[i as int]));
            }
        }
    }
    out
}

/// Executable form of [`chunks_from`], starting at zero.
pub fn chunk_strings(ids: &Vec<String>, limit: usize) -> (r: Vec<Vec<String>>)
    requires
        limit >= 1,
    ensures
        r.deep_view() == chunks_from(ids.deep_view(), 0, limit as int),
{
    let ghost iv = ids.deep_view();
    let mut out: Vec<Vec<String>> = Vec::new();
    let mut i: usize = 0;
    proof {
        assert(out.deep_view() =~~= Seq::<Seq<Seq<char>>>::empty());
    }
    while i < ids.len()
        invariant
            i <= ids@.len(),
            limit >= 1,
            iv == ids.deep_view(),
            iv.len() == ids@.len(),
            out.deep_view() + chunks_from(iv, i as int, limit as int) == chunks_from(
                iv,
                0,
                limit as int,
            ),
        decreases ids@.len() - i,
    {
        let e = if ids.len() - i > limit {
            i + limit
        } else {
            ids.len()
        };
        let mut batch: Vec<String> = Vec::new();
        proof {
            assert(batch.deep_view() =~= iv.subrange(i as int, i as int));
        }
        let mut k = i;
        while k < e
            invariant
                i <= k <= e <= ids@.len(),
                iv == ids.deep_view(),
                iv.len() == ids@.len(),
                batch.deep_view() == iv.subrange(i as int, k as int),
            decreases e - k,
        {
            let ghost pre = batch.deep_view();
            batch.push(ids[k].clone());
            proof {
                assert(ids@[k as int]@ == iv[k as int]);
                assert(batch.deep_view() =~= pre.push(iv[k as int]));
                assert(batch.deep_view() =~= iv.subrange(i as int, k + 1));
            }
            k += 1;
        }
        let ghost pre_out = out.deep_view();
        out.push(batch);
        proof {
            assert(out.deep_view() =~~= pre_out.push(iv.subrange(i as int, e as int)));
            assert(chunks_from(iv, i as int, limit as int) == seq![
                iv.subrange(i as int, e as int),
            ] + chunks_from(iv, e as int, limit as int));
            assert(pre_out + (seq![iv.subrange(i as int, e as int)] + chunks_from(
                iv,
                e as int,
                limit as int,
            )) =~= out.deep_view() + chunks_from(iv, e as int, limit as int));
        }
        i = e;
    }
    out
}

/// Partitions the entries that carry a directive by backend, expanding
/// each identifier pattern with the placeholder pairs, and cuts the
/// distinct identifiers of each group into batches the backend accepts.
/// Fails with [`Error::PlaceholderMissing`] on the first pattern, in
/// declaration order, that references an unbound placeholder.
pub fn plan_requests(entries: &EnvEntries, placeholders: &Vec<(String, String)>) -> (r: Result<
    FetchPlan,
    Error,
>)
    ensures
        match r {
            Ok(plan) => {
                &&& spec_plan(entries.deep_view(), placeholders.deep_view()) == Ok::<_, Seq<char>>(
                    (plan.sm_requests.deep_view(), plan.ps_requests.deep_view()),
                )
                &&& plan.sm_batches.deep_view() == batches_of(
                    ids_of(plan.sm_requests.deep_view()),
                    SM_BATCH_LIMIT as int,
                )
                &&& plan.ps_batches.deep_view() == batches_of(
                    ids_of(plan.ps_requests.deep_view()),
                    PS_BATCH_LIMIT as int,
                )
                &&& forall|j: int|
                    0 <= j < plan.sm_requests@.len() ==> (#[trigger] plan.sm_requests@[j]).0
                        < entries@.len()
                &&& forall|j: int|
                    0 <= j < plan.ps_requests@.len() ==> (#[trigger] plan.ps_requests@[j]).0
                        < entries@.len()
            },
            Err(e) => {
                &&& e matches Error::PlaceholderMissing(n)
                &&& spec_plan(entries.deep_view(), placeholders.deep_view()) == Err::<
                    (Seq<(usize, Seq<char>)>, Seq<(usize, Seq<char>)>),
                    _,
                >(n@)
            },
        },
{
    let ghost ev = entries.deep_view();
    let ghost phv = placeholders.deep_view();
    let mut sm_requests: Vec<(usize, String)> = Vec::new();
    let mut ps_requests: Vec<(usize, String)> = Vec::new();
    let mut sm_ids: Vec<String> = Vec::new();
    let mut ps_ids: Vec<String> = Vec::new();
    proof {
        assert(sm_requests.deep_view() =~= Seq::<(usize, Seq<char>)>::empty());
        assert(ps_requests.deep_view() =~= Seq::<(usize, Seq<char>)>::empty());
        assert(sm_ids.deep_view() =~= ids_of(sm_requests.deep_view()));
        assert(ps_ids.deep_view() =~= ids_of(ps_requests.deep_view()));
    }
    let n = entries.len();
    for i in 0..n
        invariant
            n == entries@.len(),
            ev == entries.deep_view(),
            phv == placeholders.deep_view(),
            ev.len() == entries@.len(),
            plan_from(ev, i as int, phv, sm_requests.deep_view(), ps_requests.deep_view())
                == spec_plan(ev, phv),
            sm_ids.deep_view() == ids_of(sm_requests.deep_view()),
            ps_ids.deep_view() == ids_of(ps_requests.deep_view()),
            forall|j: int|
                0 <= j < sm_requests@.len() ==> (#[trigger] sm_requests@[j]).0 < entries@.len(),
            forall|j: int|
                0 <= j < ps_requests@.len() ==> (#[trigger] ps_requests@[j]).0 < entries@.len(),
    {
        proof {
            assert(ev[i as int] == entries@[i as int].deep_view());
        }
        match &entries[i].secret {
            None => {},
            Some(sc) => {
                match &sc.provider_config {
                    SecretProviderConfig::AwsSm(pat) => {
                        let x = match replace_placeholders(pat.as_str(), placeholders) {
                            Ok(x) => x,
                            Err(e) => {
                                return Err(e);
                            },
                        };
                        let ghost pre = sm_requests.deep_view();
                        let ghost pre_ids = sm_ids.deep_view();
                        sm_ids.push(x.clone());
                        sm_requests.push((i, x));
                        proof {
                            assert(sm_requests.deep_view() =~= pre.push((i, x@)));
                            assert(sm_ids.deep_view() =~= pre_ids.push(x@));
                            assert(sm_ids.deep_view() =~= ids_of(sm_requests.deep_view()));
                        }
                    },
                    SecretProviderConfig::AwsPs(pat) => {
                        let x = match replace_placeholders(pat.as_str(), placeholders) {
                            Ok(x) => x,
                            Err(e) => {
                                return Err(e);
                            },
                        };
                        let ghost pre = ps_requests.deep_view();
                        let ghost pre_ids = ps_ids.deep_view();
                        ps_ids.push(x.clone());
                        ps_requests.push((i, x));
                        proof {
                            assert(ps_requests.deep_view() =~= pre.push((i, x@)));
                            assert(ps_ids.deep_view() =~= pre_ids.push(x@));
                            assert(ps_ids.deep_view() =~= ids_of(ps_requests.deep_view()));
                        }
                    },
                }
            },
        }
    }
    let sm_unique = dedup_strings(&sm_ids);
    let ps_unique = dedup_strings(&ps_ids);
    let sm_batches = chunk_strings(&sm_unique, SM_BATCH_LIMIT);
    let ps_batches = chunk_strings(&ps_unique, PS_BATCH_LIMIT);
    Ok(FetchPlan { sm_requests, sm_batches, ps_requests, ps_batches })
}

// ---------------------------------------------------------------------------
// Merging fetched values back onto the entries.
// ---------------------------------------------------------------------------

/// The value bound to `k` in the fetched table; the latest binding wins,
/// as a later batch response overwrites an earlier one.
pub open spec fn lookup_value(tbl: Seq<(Seq<char>, Seq<char>)>, k: Seq<char>) -> Option<Seq<char>>
    decreases tbl.len(),
{
    if tbl.len() == 0 {
        None
    } else if tbl.last().0 == k {
        Some(tbl.last().1)
    } else {
        lookup_value(tbl.drop_last(), k)
    }
}

/// Executable form of [`lookup_value`].
fn lookup_last(tbl: &Vec<(String, String)>, k: &String) -> (r: Option<String>)
    ensures
        match r {
            Some(v) => lookup_value(tbl.deep_view(), k@) == Some(v@),
            None => lookup_value(tbl.deep_view(), k@) == None::<Seq<char>>,
        },
{
    let ghost tv = tbl.deep_view();
    let mut j = tbl.len();
    proof {
        assert(tv.subrange(0, j as int) =~= tv);
    }
    while j > 0
        invariant
            j <= tbl@.len(),
            tv == tbl.deep_view(),
            tv.len() == tbl@.len(),
            lookup_value(tv, k@) == lookup_value(tv.subrange(0, j as int), k@),
        decreases j,
    {
        proof {
            assert(tv[j - 1] == tbl@[j - 1].deep_view());
            assert(tv.subrange(0, j as int).last() == tv[j - 1]);
        }
        if tbl[j - 1].0 == *k {
            return Some(tbl[j - 1].1.clone());
        }
        proof {
            assert(tv.subrange(0, j as int).drop_last() =~= tv.subrange(0, j - 1));
        }
        j -= 1;
    }
    proof {
        assert(tv.subrange(0, 0) =~= Seq::<(Seq<char>, Seq<char>)>::empty());
    }
    None
}

/// Walks the request pairs from `j` on: a fetched value replaces the
/// entry's value; a missing identifier fails when the entry's directive is
/// required, and otherwise leaves the entry's default in place.
pub open spec fn apply_from(
    entries: Seq<EntryView>,
    vals: Seq<Option<Seq<char>>>,
    reqs: Seq<(usize, Seq<char>)>,
    tbl: Seq<(Seq<char>, Seq<char>)>,
    j: int,
) -> Result<Seq<Option<Seq<char>>>, Seq<char>>
    decreases reqs.len() - j,
{
    if j < 0 || j >= reqs.len() {
        Ok(vals)
    } else {
        let idx = reqs[j].0 as int;
        let id = reqs[j].1;
        match lookup_value(tbl, id) {
            Some(v) => apply_from(entries, vals.update(idx, Some(v)), reqs, tbl, j + 1),
            None => match entries[idx].secret {
                Some(sc) => if sc.required {
                    Err(id)
                } else {
                    apply_from(entries, vals, reqs, tbl, j + 1)
                },
                None => apply_from(entries, vals, reqs, tbl, j + 1),
            },
        }
    }
}

/// Merges one backend group's fetched table into the per-entry values:
/// for each request pair, a value found for its identifier replaces the
/// entry's value; an identifier absent from the table fails with
/// [`Error::ParameterNotFound`] naming it when the entry's directive is
/// required, and otherwise changes nothing.
/// Copies a vector of optional values.
fn clone_values(v: &Vec<Option<String>>) -> (r: Vec<Option<String>>)
    ensures
        r.deep_view() == v.deep_view(),
        r@.len() == v@.len(),
{
    let ghost vv = v.deep_view();
    let mut r: Vec<Option<String>> = Vec::new();
    let n = v.len();
    for i in 0..n
        invariant
            n == v@.len(),
            vv == v.deep_view(),
            vv.len() == v@.len(),
            r.deep_view() == vv.subrange(0, i as int),
    {
        proof {
            assert(vv[i as int] == v@[i as int].deep_view());
        }
        let ghost pre = r.deep_view();
        match &v[i] {
            Some(s) => {
                r.push(Some(s.clone()));
            },
            None => {
                r.push(None);
            },
        }
        proof {
            assert(r.deep_view() =~= pre.push(vv[i as int]));
            assert(r.deep_view() =~= vv.subrange(0, i + 1));
        }
    }
    proof {
        assert(vv.subrange(0, vv.len() as int) =~= vv);
    }
    r
}

pub fn apply_results(
    entries: &EnvEntries,
    vals: &Vec<Option<String>>,
    requests: &Vec<(usize, String)>,
    found: &Vec<(String, String)>,
) -> (r: Result<Vec<Option<String>>, Error>)
    requires
        vals@.len() == entries@.len(),
        forall|j: int|
            0 <= j < requests@.len() ==> (#[trigger] requests@[j]).0 < entries@.len(),
    ensures
        match r {
            Ok(out) => apply_from(
                entries.deep_view(),
                vals.deep_view(),
                requests.deep_view(),
                found.deep_view(),
                0,
            ) == Ok::<_, Seq<char>>(out.deep_view()) && out@.len() == entries@.len(),
            Err(e) => {
                &&& e matches Error::ParameterNotFound(id)
                &&& apply_from(
                    entries.deep_view(),
                    vals.deep_view(),
                    requests.deep_view(),
                    found.deep_view(),
                    0,
                ) == Err::<Seq<Option<Seq<char>>>, _>(id@)
            },
        },
{
    let ghost ev = entries.deep_view();
    let ghost v0 = vals.deep_view();
    let ghost rv = requests.deep_view();
    let ghost tv = found.deep_view();
    let mut cur = clone_values(vals);
    let n = requests.len();
    for j in 0..n
        invariant
            n == requests@.len(),
            ev == entries.deep_view(),
            v0 == vals.deep_view(),
            rv == requests.deep_view(),
            tv == found.deep_view(),
            rv.len() == requests@.len(),
            ev.len() == entries@.len(),
            cur@.len() == entries@.len(),
            forall|m: int| 0 <= m < requests@.len() ==> (#[trigger] requests@[m]).0
                < entries@.len(),
            apply_from(ev, cur.deep_view(), rv, tv, j as int) == apply_from(ev, v0, rv, tv, 0),
    {
        proof {
            assert(rv[j as int] == requests@[j as int].deep_view());
        }
        let req = &requests[j];
        let idx = req.0;
        match lookup_last(found, &req.1) {
            Some(v) => {
                let ghost pre = cur.deep_view();
                let ghost vs = v@;
                cur[idx] = Some(v);
                proof {
                    assert(cur.deep_view() =~= pre.update(idx as int, Some(vs)));
                }
            },
            None => {
                proof {
                    assert(ev[idx as int] == entries@[idx as int].deep_view());
                }
                let required = match &entries[idx].secret {
                    Some(sc) => sc.required,
                    None => false,
                };
                if required {
                    proof {
                        assert(apply_from(ev, cur.deep_view(), rv, tv, j as int) == Err::<
                            Seq<Option<Seq<char>>>,
                            _,
                        >(rv[j as int].1));
                    }
                    return Err(Error::ParameterNotFound(req.1.clone()));
                }
            },
        }
    }
    Ok(cur)
}

// ---------------------------------------------------------------------------
// Building the final ordered mapping.
// ---------------------------------------------------------------------------

/// Folds the entries that ended with a value into an ordered pair
/// sequence, in declaration order, each key bound once.
pub open spec fn fold_valued(
    entries: Seq<EntryView>,
    vals: Seq<Option<Seq<char>>>,
    i: int,
    acc: Seq<(Seq<char>, Seq<char>)>,
) -> Seq<(Seq<char>, Seq<char>)>
    decreases entries.len() - i,
{
    if i < 0 || i >= entries.len() {
        acc
    } else {
        match vals[i] {
            Some(v) => fold_valued(entries, vals, i + 1, upsert_pair(acc, entries[i].key, v)),
            None => fold_valued(entries, vals, i + 1, acc),
        }
    }
}

/// Folds the overrides, in their order, over the resolved pairs.
pub open spec fn fold_overrides(
    ovs: Seq<(Seq<char>, Seq<char>)>,
    i: int,
    acc: Seq<(Seq<char>, Seq<char>)>,
) -> Seq<(Seq<char>, Seq<char>)>
    decreases ovs.len() - i,
{
    if i < 0 || i >= ovs.len() {
        acc
    } else {
        fold_overrides(ovs, i + 1, upsert_pair(acc, ovs[i].0, ovs[i].1))
    }
}

/// The final ordered mapping: entries with a present value in declaration
/// order, the overrides applied last, each insertion keeping a present
/// key's place.
pub open spec fn spec_finalize(
    entries: Seq<EntryView>,
    vals: Seq<Option<Seq<char>>>,
    ovs: Seq<(Seq<char>, Seq<char>)>,
) -> Seq<(Seq<char>, Seq<char>)> {
    fold_overrides(ovs, 0, fold_valued(entries, vals, 0, Seq::empty()))
}

/// Builds the final ordered mapping from the entries, their resolved
/// values, and the overrides: entries whose value is absent are dropped;
/// overrides replace a present key's value in place or are appended last,
/// in their own order, and never touch the backends.
pub fn finalize(
    entries: &EnvEntries,
    vals: &Vec<Option<String>>,
    overrides: &IndexMap<String, String>,
) -> (m: IndexMap<String, String>)
    requires
        vals@.len() == entries@.len(),
    ensures
        omap_pairs(m) == spec_finalize(
            entries.deep_view(),
            vals.deep_view(),
            omap_pairs(*overrides),
        ),
{
    let ghost ev = entries.deep_view();
    let ghost vv = vals.deep_view();
    let ghost ovv = omap_pairs(*overrides);
    let mut m = omap_new();
    let n = entries.len();
    for i in 0..n
        invariant
            n == entries@.len(),
            ev == entries.deep_view(),
            vv == vals.deep_view(),
            ovv == omap_pairs(*overrides),
            ev.len() == entries@.len(),
            vv.len() == entries@.len(),
            fold_valued(ev, vv, i as int, omap_pairs(m)) == fold_valued(ev, vv, 0, Seq::empty()),
    {
        proof {
            assert(vv[i as int] == vals@[i as int].deep_view());
            assert(ev[i as int] == entries@[i as int].deep_view());
        }
        match &vals[i] {
            Some(v) => {
                omap_insert(&mut m, entries[i].key.clone(), v.clone());
            },
            None => {},
        }
    }
    let ovs = omap_entries(overrides);
    let k = ovs.len();
    for j in 0..k
        invariant
            k == ovs@.len(),
            ev == entries.deep_view(),
            vv == vals.deep_view(),
            ovv == omap_pairs(*overrides),
            ovs.deep_view() == ovv,
            ovv.len() == ovs@.len(),
            fold_overrides(ovv, j as int, omap_pairs(m)) == spec_finalize(ev, vv, ovv),
    {
        proof {
            assert(ovv[j as int] == ovs@[j as int].deep_view());
        }
        let p = &ovs[j];
        omap_insert(&mut m, p.0.clone(), p.1.clone());
    }
    m
}

// ---------------------------------------------------------------------------
// Normalizing one bulk-store batch response.
// ---------------------------------------------------------------------------

/// One per-item error reported inside a bulk-store batch response.
#[derive(Debug, PartialEq, Eq, Clone)]
pub struct SmBatchIssue {
    pub code: Option<String>,
    pub message: String,
}

/// Spec-level image of an [`SmBatchIssue`].
pub struct SmIssueView {
    pub code: Option<Seq<char>>,
    pub message: Seq<char>,
}

impl View for SmBatchIssue {
    type V = SmIssueView;

    open spec fn view(&self) -> SmIssueView {
        SmIssueView { code: self.code.deep_view(), message: self.message@ }
    }
}

impl DeepView for SmBatchIssue {
    type V = SmIssueView;

    open spec fn deep_view(&self) -> SmIssueView {
        self.view()
    }
}

/// The error code that only means an identifier was absent.
pub open spec fn not_found_code() -> Seq<char> {
    "ResourceNotFoundException"@
}

/// The first issue from `j` on whose code is anything other than the
/// missing-identifier code, or `-1`.
pub open spec fn first_blocking(errors: Seq<SmIssueView>, j: int) -> int
    decreases errors.len() - j,
{
    if j < 0 || j >= errors.len() {
        -1
    } else if errors[j].code != Some(not_found_code()) {
        j
    } else {
        first_blocking(errors, j + 1)
    }
}

/// Checks the per-item errors of one bulk-store batch response: an error
/// whose code is not the missing-identifier code aborts the resolution
/// with [`Error::AwsSmApiError`] carrying that error's detail; errors that
/// only report a missing identifier pass.
pub fn check_sm_batch_errors(errors: &Vec<SmBatchIssue>) -> (r: Result<(), Error>)
    ensures
        match r {
            Ok(_) => first_blocking(errors.deep_view(), 0) == -1,
            Err(e) => {
                &&& first_blocking(errors.deep_view(), 0) >= 0
                &&& e matches Error::AwsSmApiError(msg)
                &&& msg@ == errors.deep_view()[first_blocking(errors.deep_view(), 0)].message
            },
        },
{
    let ghost evs = errors.deep_view();
    let nf = String::from_str("ResourceNotFoundException");
    let n = errors.len();
    for j in 0..n
        invariant
            n == errors@.len(),
            evs == errors.deep_view(),
            evs.len() == errors@.len(),
            nf@ == not_found_code(),
            first_blocking(evs, 0) == first_blocking(evs, j as int),
    {
        proof {
            assert(evs[j as int] == errors@[j as int].deep_view());
        }
        let blocking = match &errors[j].code {
            Some(c) => !(*c == nf),
            None => true,
        };
        if blocking {
            return Err(Error::AwsSmApiError(errors[j].message.clone()));
        }
    }
    Ok(())
}

// ---------------------------------------------------------------------------
// Laws of the engine.
// ---------------------------------------------------------------------------

/// True when the entry a request points at carries a required directive.
pub open spec fn required_at(
    entries: Seq<EntryView>,
    reqs: Seq<(usize, Seq<char>)>,
    m: int,
) -> bool {
    match entries[reqs[m].0 as int].secret {
        Some(sc) => sc.required,
        None => false,
    }
}

proof fn lemma_apply_fails_from(
    entries: Seq<EntryView>,
    vals: Seq<Option<Seq<char>>>,
    reqs: Seq<(usize, Seq<char>)>,
    tbl: Seq<(Seq<char>, Seq<char>)>,
    i: int,
    j: int,
)
    requires
        0 <= i <= j < reqs.len(),
        forall|m: int|
            i <= m < j ==> (lookup_value(tbl, (#[trigger] reqs[m]).1) is Some || !required_at(
                entries,
                reqs,
                m,
            )),
        lookup_value(tbl, reqs[j].1) is None,
        required_at(entries, reqs, j),
    ensures
        apply_from(entries, vals, reqs, tbl, i) == Err::<Seq<Option<Seq<char>>>, _>(reqs[j].1),
    decreases j - i,
{
    if i < j {
        match lookup_value(tbl, reqs[i].1) {
            Some(v) => {
                lemma_apply_fails_from(
                    entries,
                    vals.update(reqs[i].0 as int, Some(v)),
                    reqs,
                    tbl,
                    i + 1,
                    j,
                );
            },
            None => {
                lemma_apply_fails_from(entries, vals, reqs, tbl, i + 1, j);
            },
        }
    }
}

/// A required directive whose identifier the backend reported absent —
/// the first such, after any requests that either found a value or were
/// optional — fails the whole merge with exactly that identifier.
pub proof fn lemma_required_missing_fails(
    entries: Seq<EntryView>,
    vals: Seq<Option<Seq<char>>>,
    reqs: Seq<(usize, Seq<char>)>,
    tbl: Seq<(Seq<char>, Seq<char>)>,
    j: int,
)
    requires
        0 <= j < reqs.len(),
        forall|m: int|
            0 <= m < j ==> (lookup_value(tbl, (#[trigger] reqs[m]).1) is Some || !required_at(
                entries,
                reqs,
                m,
            )),
        lookup_value(tbl, reqs[j].1) is None,
        required_at(entries, reqs, j),
    ensures
        apply_from(entries, vals, reqs, tbl, 0) == Err::<Seq<Option<Seq<char>>>, _>(reqs[j].1),
{
    lemma_apply_fails_from(entries, vals, reqs, tbl, 0, j);
}

proof fn lemma_apply_ok_from(
    entries: Seq<EntryView>,
    vals: Seq<Option<Seq<char>>>,
    reqs: Seq<(usize, Seq<char>)>,
    tbl: Seq<(Seq<char>, Seq<char>)>,
    i: int,
)
    requires
        0 <= i <= reqs.len(),
        forall|m: int| 0 <= m < reqs.len() ==> (#[trigger] reqs[m]).0 < vals.len(),
        forall|m: int|
            i <= m < reqs.len() ==> (lookup_value(tbl, (#[trigger] reqs[m]).1) is Some
                || !required_at(entries, reqs, m)),
    ensures
        apply_from(entries, vals, reqs, tbl, i) is Ok,
        forall|idx: int|
            0 <= idx < vals.len() && (forall|m: int|
                i <= m < reqs.len() ==> !((#[trigger] reqs[m]).0 == idx && lookup_value(
                    tbl,
                    reqs[m].1,
                ) is Some)) ==> apply_from(entries, vals, reqs, tbl, i)->Ok_0[idx] == #[trigger]
                vals[idx],
        apply_from(entries, vals, reqs, tbl, i)->Ok_0.len() == vals.len(),
    decreases reqs.len() - i,
{
    if i < reqs.len() {
        match lookup_value(tbl, reqs[i].1) {
            Some(v) => {
                let vals2 = vals.update(reqs[i].0 as int, Some(v));
                assert(vals2.len() == vals.len());
                lemma_apply_ok_from(entries, vals2, reqs, tbl, i + 1);
                let r = apply_from(entries, vals, reqs, tbl, i);
                assert(r == apply_from(entries, vals2, reqs, tbl, i + 1));
                assert forall|idx: int|
                    0 <= idx < vals.len() && (forall|m: int|
                        i <= m < reqs.len() ==> !((#[trigger] reqs[m]).0 == idx && lookup_value(
                            tbl,
                            reqs[m].1,
                        ) is Some)) implies r->Ok_0[idx] == vals[idx] by {
                    assert(!(reqs[i].0 == idx && lookup_value(tbl, reqs[i].1) is Some));
                    assert(vals2[idx] == vals[idx]);
                }
            },
            None => {
                lemma_apply_ok_from(entries, vals, reqs, tbl, i + 1);
            },
        }
    }
}

/// When every identifier the backend reported absent belongs to an
/// optional directive, the merge succeeds; and an entry for which no
/// request found a value keeps the value it had — its default.
pub proof fn lemma_optional_missing_succeeds(
    entries: Seq<EntryView>,
    vals: Seq<Option<Seq<char>>>,
    reqs: Seq<(usize, Seq<char>)>,
    tbl: Seq<(Seq<char>, Seq<char>)>,
)
    requires
        forall|m: int| 0 <= m < reqs.len() ==> (#[trigger] reqs[m]).0 < vals.len(),
        forall|m: int|
            0 <= m < reqs.len() ==> (lookup_value(tbl, (#[trigger] reqs[m]).1) is Some
                || !required_at(entries, reqs, m)),
    ensures
        apply_from(entries, vals, reqs, tbl, 0) is Ok,
        forall|idx: int|
            0 <= idx < vals.len() && (forall|m: int|
                0 <= m < reqs.len() ==> !((#[trigger] reqs[m]).0 == idx && lookup_value(
                    tbl,
                    reqs[m].1,
                ) is Some)) ==> apply_from(entries, vals, reqs, tbl, 0)->Ok_0[idx] == #[trigger]
                vals[idx],
{
    lemma_apply_ok_from(entries, vals, reqs, tbl, 0);
}

/// True when no two identifiers are equal.
pub open spec fn distinct_ids(s: Seq<Seq<char>>) -> bool {
    forall|i: int, j: int| 0 <= i < j < s.len() ==> s[i] != s[j]
}

proof fn lemma_dedup_props(ids: Seq<Seq<char>>, i: int, acc: Seq<Seq<char>>)
    requires
        0 <= i <= ids.len(),
        distinct_ids(acc),
    ensures
        ({
            let r = dedup_from(ids, i, acc);
            &&& distinct_ids(r)
            &&& forall|x: Seq<char>|
                #[trigger] r.contains(x) <==> acc.contains(x) || (exists|m: int|
                    i <= m < ids.len() && ids[m] == x)
        }),
    decreases ids.len() - i,
{
    if i < ids.len() {
        if acc.contains(ids[i]) {
            lemma_dedup_props(ids, i + 1, acc);
        } else {
            let acc2 = acc.push(ids[i]);
            assert forall|x: Seq<char>| #[trigger]
                acc2.contains(x) <==> acc.contains(x) || ids[i] == x by {
                if acc.contains(x) {
                    let w = choose|w: int| 0 <= w < acc.len() && acc[w] == x;
                    assert(acc2[w] == x);
                }
                if ids[i] == x {
                    assert(acc2[acc.len() as int] == x);
                }
                if acc2.contains(x) {
                    let w = choose|w: int| 0 <= w < acc2.len() && acc2[w] == x;
                    if w < acc.len() {
                        assert(acc[w] == x);
                    }
                }
            }
            assert(distinct_ids(acc2)) by {
                assert forall|a: int, b: int| 0 <= a < b < acc2.len() implies acc2[a] != acc2[
                    b] by {
                    if b == acc.len() {
                        assert(acc2[b] == ids[i]);
                        assert(acc2[a] == acc[a]);
                        if acc2[a] == ids[i] {
                            assert(acc.contains(ids[i])) by {
                                assert(acc[a] == ids[i]);
                            }
                        }
                    }
                }
            }
            lemma_dedup_props(ids, i + 1, acc2);
        }
    }
}

proof fn lemma_chunks_flatten(ids: Seq<Seq<char>>, i: int, limit: int)
    requires
        limit >= 1,
        0 <= i <= ids.len(),
    ensures
        ({
            let cs = chunks_from(ids, i, limit);
            &&& cs.flatten() == ids.subrange(i, ids.len() as int)
            &&& forall|b: int| 0 <= b < cs.len() ==> 1 <= (#[trigger] cs[b]).len() <= limit
        }),
    decreases ids.len() - i,
{
    let cs = chunks_from(ids, i, limit);
    if i >= ids.len() {
        assert(cs.flatten() =~= ids.subrange(i, ids.len() as int));
    } else {
        let e = if i + limit < ids.len() {
            i + limit
        } else {
            ids.len() as int
        };
        lemma_chunks_flatten(ids, e, limit);
        let rest = chunks_from(ids, e, limit);
        let head = ids.subrange(i, e);
        assert(cs == seq![head] + rest);
        assert(cs.first() == head);
        assert(cs.drop_first() =~= rest);
        assert(cs.flatten() == head + rest.flatten());
        assert(head + ids.subrange(e, ids.len() as int) =~= ids.subrange(i, ids.len() as int));
        assert forall|b: int| 0 <= b < cs.len() implies 1 <= (#[trigger] cs[b]).len() <= limit by {
            if b > 0 {
                assert(cs[b] == rest[b - 1]);
            }
        }
    }
}

/// The batches sent for `ids` carry each referenced identifier exactly
/// once — the flattened batches are duplicate-free and hold precisely the
/// identifiers referenced — in chunks of at most `limit`.
pub proof fn lemma_each_identifier_fetched_once(ids: Seq<Seq<char>>, limit: int)
    requires
        limit >= 1,
    ensures
        ({
            let bs = batches_of(ids, limit);
            &&& distinct_ids(bs.flatten())
            &&& forall|x: Seq<char>| #[trigger] bs.flatten().contains(x) <==> ids.contains(x)
            &&& forall|b: int| 0 <= b < bs.len() ==> (#[trigger] bs[b]).len() <= limit
        }),
{
    let d = dedup_ids(ids);
    lemma_dedup_props(ids, 0, Seq::empty());
    lemma_chunks_flatten(d, 0, limit);
    let bs = batches_of(ids, limit);
    assert(bs.flatten() =~= d);
    assert forall|x: Seq<char>| #[trigger] bs.flatten().contains(x) <==> ids.contains(x) by {
        assert(!Seq::<Seq<char>>::empty().contains(x));
        if ids.contains(x) {
            let w = choose|w: int| 0 <= w < ids.len() && ids[w] == x;
            assert(d.contains(x));
        }
        if d.contains(x) {
            assert(Seq::<Seq<char>>::empty().contains(x) || (exists|m: int|
                0 <= m < ids.len() && ids[m] == x));
        }
    }
}

proof fn lemma_fold_overrides_other(
    ovs: Seq<(Seq<char>, Seq<char>)>,
    i: int,
    acc: Seq<(Seq<char>, Seq<char>)>,
    k: Seq<char>,
)
    requires
        0 <= i <= ovs.len(),
        forall|m: int| i <= m < ovs.len() ==> (#[trigger] ovs[m]).0 != k,
    ensures
        pairs_lookup(fold_overrides(ovs, i, acc), k) == pairs_lookup(acc, k),
    decreases ovs.len() - i,
{
    if i < ovs.len() {
        crate::omap::lemma_upsert_other_key(acc, ovs[i].0, ovs[i].1, k);
        lemma_fold_overrides_other(ovs, i + 1, upsert_pair(acc, ovs[i].0, ovs[i].1), k);
    }
}

proof fn lemma_fold_overrides_last(
    ovs: Seq<(Seq<char>, Seq<char>)>,
    i: int,
    acc: Seq<(Seq<char>, Seq<char>)>,
    j: int,
)
    requires
        0 <= i <= j < ovs.len(),
        forall|m: int| j < m < ovs.len() ==> (#[trigger] ovs[m]).0 != ovs[j].0,
    ensures
        pairs_lookup(fold_overrides(ovs, i, acc), ovs[j].0) == Some(ovs[j].1),
    decreases ovs.len() - i,
{
    if i == j {
        crate::omap::lemma_upsert_same_key(acc, ovs[j].0, ovs[j].1);
        lemma_fold_overrides_other(
            ovs,
            j + 1,
            upsert_pair(acc, ovs[j].0, ovs[j].1),
            ovs[j].0,
        );
    } else {
        lemma_fold_overrides_last(ovs, i + 1, upsert_pair(acc, ovs[i].0, ovs[i].1), j);
    }
}

/// Overrides take precedence over fetched and default values alike,
/// whatever the declaration order: in the final mapping, an override key
/// is bound to its last override value.
pub proof fn lemma_overrides_take_precedence(
    entries: Seq<EntryView>,
    vals: Seq<Option<Seq<char>>>,
    ovs: Seq<(Seq<char>, Seq<char>)>,
    j: int,
)
    requires
        0 <= j < ovs.len(),
        forall|m: int| j < m < ovs.len() ==> (#[trigger] ovs[m]).0 != ovs[j].0,
    ensures
        pairs_lookup(spec_finalize(entries, vals, ovs), ovs[j].0) == Some(ovs[j].1),
{
    lemma_fold_overrides_last(ovs, 0, fold_valued(entries, vals, 0, Seq::empty()), j);
}

/// Appends one batch's fetched name/value pairs to the running table.
pub fn extend_table(table: &mut Vec<(String, String)>, values: &Vec<(String, String)>)
    ensures
        final(table).deep_view() == old(table).deep_view() + values.deep_view(),
{
    let ghost t0 = old(table).deep_view();
    let ghost wv = values.deep_view();
    let n = values.len();
    for i in 0..n
        invariant
            n == values@.len(),
            wv == values.deep_view(),
            wv.len() == values@.len(),
            table.deep_view() == t0 + wv.subrange(0, i as int),
    {
        proof {
            assert(wv[i as int] == values@[i as int].deep_view());
        }
        let ghost pre = table.deep_view();
        let p = &values[i];
        table.push((p.0.clone(), p.1.clone()));
        proof {
            assert(table.deep_view() =~= pre.push(wv[i as int]));
            assert(table.deep_view() =~= t0 + wv.subrange(0, i + 1));
        }
    }
    proof {
        assert(wv.subrange(0, wv.len() as int) =~= wv);
    }
}

} // verus!
