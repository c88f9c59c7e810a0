//! The insertion-ordered map that holds the resolved output, from the
//! `indexmap` crate, behind trusted contracts.

use vstd::prelude::*;

verus! {

#[verifier::external_type_specification]
#[verifier::external_body]
#[verifier::reject_recursive_types(K)]
#[verifier::reject_recursive_types(V)]
#[verifier::reject_recursive_types(S)]
pub struct ExIndexMap<K, V, S>(indexmap::IndexMap<K, V, S>);

/// The key/value pairs the map holds, in its insertion order.
pub uninterp spec fn omap_pairs(m: indexmap::IndexMap<String, String>) -> Seq<
    (Seq<char>, Seq<char>),
>;

/// The first index at or after `j` whose pair has key `k`, or `-1`.
pub open spec fn find_pair_from(s: Seq<(Seq<char>, Seq<char>)>, k: Seq<char>, j: int) -> int
    decreases s.len() - j,
{
    if j < 0 || j >= s.len() {
        -1
    } else if s[j].0 == k {
        j
    } else {
        find_pair_from(s, k, j + 1)
    }
}

/// The first index whose pair has key `k`, or `-1`.
pub open spec fn find_pair(s: Seq<(Seq<char>, Seq<char>)>, k: Seq<char>) -> int {
    find_pair_from(s, k, 0)
}

/// Binds `k` to `v` in an ordered pair sequence as the map does: a present
/// key keeps its place and its value is replaced, a new key is appended.
pub open spec fn upsert_pair(
    s: Seq<(Seq<char>, Seq<char>)>,
    k: Seq<char>,
    v: Seq<char>,
) -> Seq<(Seq<char>, Seq<char>)> {
    let j = find_pair(s, k);
    if j < 0 {
        s.push((k, v))
    } else {
        s.update(j, (k, v))
    }
}

/// The value bound to `k` in an ordered pair sequence, going by the first
/// pair with that key.
pub open spec fn pairs_lookup(s: Seq<(Seq<char>, Seq<char>)>, k: Seq<char>) -> Option<Seq<char>> {
    let j = find_pair(s, k);
    if j < 0 {
        None
    } else {
        Some(s[j].1)
    }
}

/// Characterizes [`find_pair_from`]: a miss means no pair from `j` on has
/// the key; a hit is the first such pair.
pub proof fn lemma_find_pair_props(s: Seq<(Seq<char>, Seq<char>)>, k: Seq<char>, j: int)
    requires
        0 <= j <= s.len(),
    ensures
        ({
            let r = find_pair_from(s, k, j);
            &&& (r == -1 ==> forall|m: int| j <= m < s.len() ==> (#[trigger] s[m]).0 != k)
            &&& (r != -1 ==> j <= r < s.len() && s[r].0 == k && (forall|m: int|
                j <= m < r ==> (#[trigger] s[m]).0 != k))
        }),
    decreases s.len() - j,
{
    if j < s.len() && s[j].0 != k {
        lemma_find_pair_props(s, k, j + 1);
    }
}

/// The first index with key `k` when all pairs before `m` miss and `m`
/// hits.
proof fn lemma_find_pair_found(s: Seq<(Seq<char>, Seq<char>)>, k: Seq<char>, j: int, m: int)
    requires
        0 <= j <= m < s.len(),
        s[m].0 == k,
        forall|x: int| j <= x < m ==> (#[trigger] s[x]).0 != k,
    ensures
        find_pair_from(s, k, j) == m,
    decreases s.len() - j,
{
    if j < m {
        lemma_find_pair_found(s, k, j + 1, m);
    }
}

/// A miss when no pair from `j` on has the key.
proof fn lemma_find_pair_absent(s: Seq<(Seq<char>, Seq<char>)>, k: Seq<char>, j: int)
    requires
        0 <= j <= s.len(),
        forall|m: int| j <= m < s.len() ==> (#[trigger] s[m]).0 != k,
    ensures
        find_pair_from(s, k, j) == -1,
    decreases s.len() - j,
{
    if j < s.len() {
        lemma_find_pair_absent(s, k, j + 1);
    }
}

/// After binding `k` to `v`, looking `k` up yields `v`.
pub proof fn lemma_upsert_same_key(s: Seq<(Seq<char>, Seq<char>)>, k: Seq<char>, v: Seq<char>)
    ensures
        pairs_lookup(upsert_pair(s, k, v), k) == Some(v),
{
    let f = find_pair(s, k);
    lemma_find_pair_props(s, k, 0);
    let r = upsert_pair(s, k, v);
    if f < 0 {
        assert(r == s.push((k, v)));
        assert(r[s.len() as int].0 == k);
        assert(forall|x: int| 0 <= x < s.len() ==> (#[trigger] r[x]).0 != k);
        lemma_find_pair_found(r, k, 0, s.len() as int);
    } else {
        assert(r == s.update(f, (k, v)));
        assert(r[f].0 == k);
        assert(forall|x: int| 0 <= x < f ==> (#[trigger] r[x]).0 != k);
        lemma_find_pair_found(r, k, 0, f);
    }
}

/// Binding another key leaves `k`'s binding unchanged.
pub proof fn lemma_upsert_other_key(
    s: Seq<(Seq<char>, Seq<char>)>,
    k2: Seq<char>,
    v2: Seq<char>,
    k: Seq<char>,
)
    requires
        k2 != k,
    ensures
        pairs_lookup(upsert_pair(s, k2, v2), k) == pairs_lookup(s, k),
{
    let f = find_pair(s, k2);
    let g = find_pair(s, k);
    lemma_find_pair_props(s, k2, 0);
    lemma_find_pair_props(s, k, 0);
    let r = upsert_pair(s, k2, v2);
    if g == -1 {
        assert(forall|m: int| 0 <= m < r.len() ==> (#[trigger] r[m]).0 != k) by {
            assert(forall|m: int| 0 <= m < s.len() ==> (#[trigger] s[m]).0 != k);
        }
        lemma_find_pair_absent(r, k, 0);
    } else {
        assert(s[g].0 == k);
        if f >= 0 {
            assert(s[f].0 == k2);
            assert(g != f);
        }
        assert(r[g].0 == k);
        assert(forall|x: int| 0 <= x < g ==> (#[trigger] r[x]).0 != k) by {
            assert(forall|x: int| 0 <= x < g ==> (#[trigger] s[x]).0 != k);
        }
        lemma_find_pair_found(r, k, 0, g);
        assert(r[g].1 == s[g].1);
    }
}

/// Relies on `indexmap::IndexMap::new`: makes an empty map.
#[verifier::external_body]
pub(crate) fn omap_new() -> (m: indexmap::IndexMap<String, String>)
    ensures
        omap_pairs(m) == Seq::<(Seq<char>, Seq<char>)>::empty(),
{
    indexmap::IndexMap::new()
}

/// Relies on `indexmap::IndexMap::insert`: an existing key keeps its place
/// in the order and only its value is replaced; a new key is appended last.
#[verifier::external_body]
pub(crate) fn omap_insert(m: &mut indexmap::IndexMap<String, String>, k: String, v: String)
    ensures
        omap_pairs(*final(m)) == upsert_pair(omap_pairs(*old(m)), k@, v@),
{
    m.insert(k, v);
}

/// Relies on `indexmap::IndexMap::iter`: yields the pairs in their
/// insertion order.
#[verifier::external_body]
pub(crate) fn omap_entries(m: &indexmap::IndexMap<String, String>) -> (r: Vec<(String, String)>)
    ensures
        r.deep_view() == omap_pairs(*m),
{
    let mut r: Vec<(String, String)> = Vec::new();
    for (k, v) in m.iter() {
        r.push((k.clone(), v.clone()));
    }
    r
}

} // verus!
