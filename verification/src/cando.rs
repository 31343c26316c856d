//! The inheritance-aware authorization graph.
//!
//! Grantees and actions live in two arenas; edges between nodes are stored as
//! arena positions on both endpoints.  Two entry tables map caller-chosen
//! `u64` identifiers to positions.  Every public operation is specified
//! against the id-level [`GraphModel`](crate::model::GraphModel).

use vstd::prelude::*;
use crate::arena::Arena;
use crate::model::{GraphModel, GranteeModel, new_grantee};

verus! {

/// A grantee node: inheritance edges in both directions, direct grants, and
/// the root mark that protects it from compaction.
pub struct Grantee {
    /// Positions of the grantees this one inherits rights from.
    pub grantee_of: Vec<usize>,
    /// Positions of the grantees that inherit rights from this one.
    pub grantees: Vec<usize>,
    /// Positions of the actions granted to this grantee directly.
    pub actions: Vec<usize>,
    /// Roots are not removed when compacting.
    pub is_root: bool,
}

/// An action node: direct holders and super/sub-action edges in both
/// directions.
pub struct Action {
    /// Positions of the grantees granted this action directly.
    pub grantees: Vec<usize>,
    /// Positions of the actions this one is a super-action of.
    pub main_action_of: Vec<usize>,
    /// Positions of the super-actions of this one.
    pub sub_action_of: Vec<usize>,
}

/// A lookup for a strict-mode operation failed.
#[derive(Debug, PartialEq, Eq, Structural, Clone, Copy)]
pub enum CanDoError {
    GranteeNotFound,
    ActionNotFound,
}

/// One reconstruction step emitted by [`CanDo::compact`]: replaying all of
/// them into an empty graph rebuilds the compacted state.
#[derive(Debug, PartialEq, Eq, Structural, Clone, Copy, Hash)]
pub enum Replay {
    /// Grantee, action.
    Grant(u64, u64),
    /// Grantee, grantee it inherits from.
    ConnectGrantees(u64, u64),
    /// Main action, sub action.
    ConnectActions(u64, u64),
    /// Root grantee.
    Root(u64),
}

impl Grantee {
    /// A fresh node with no edges, as created on first reference.
    pub fn new() -> (g: Grantee)
        ensures
            g.grantee_of@ =~= Seq::<usize>::empty(),
            g.grantees@ =~= Seq::<usize>::empty(),
            g.actions@ =~= Seq::<usize>::empty(),
            !g.is_root,
    {
        Grantee { grantee_of: Vec::new(), grantees: Vec::new(), actions: Vec::new(), is_root: false }
    }
}

impl Action {
    /// A fresh node with no edges, as created on first reference.
    pub fn new() -> (a: Action)
        ensures
            a.grantees@ =~= Seq::<usize>::empty(),
            a.main_action_of@ =~= Seq::<usize>::empty(),
            a.sub_action_of@ =~= Seq::<usize>::empty(),
    {
        Action { grantees: Vec::new(), main_action_of: Vec::new(), sub_action_of: Vec::new() }
    }
}

// ---------------------------------------------------------------------------
// Spec helpers over entry tables and edge lists
// ---------------------------------------------------------------------------

/// `list` holds position `i`.
pub open spec fn list_has(list: Seq<usize>, i: int) -> bool {
    exists|l: int| 0 <= l < list.len() && ((#[trigger] list[l]) as int) == i
}

/// Some entry maps `id`.
pub open spec fn has_key(es: Seq<(u64, usize)>, id: u64) -> bool {
    exists|k: int| 0 <= k < es.len() && (#[trigger] es[k]).0 == id
}

/// Some entry maps to position `i`.
pub open spec fn has_val(es: Seq<(u64, usize)>, i: int) -> bool {
    exists|k: int| 0 <= k < es.len() && ((#[trigger] es[k]).1 as int) == i
}

/// The position that `id` maps to.
pub open spec fn idx_of(es: Seq<(u64, usize)>, id: u64) -> int
    recommends
        has_key(es, id),
{
    let k = choose|k: int| 0 <= k < es.len() && (#[trigger] es[k]).0 == id;
    es[k].1 as int
}

/// The id that maps to position `i`.
pub open spec fn key_of(es: Seq<(u64, usize)>, i: int) -> u64
    recommends
        has_val(es, i),
{
    let k = choose|k: int| 0 <= k < es.len() && ((#[trigger] es[k]).1 as int) == i;
    es[k].0
}

/// No id occurs twice and no position occurs twice.
pub open spec fn entries_unique(es: Seq<(u64, usize)>) -> bool {
    forall|j: int, k: int|
        #![trigger es[j], es[k]]
        0 <= j < k < es.len() ==> es[j].0 != es[k].0 && es[j].1 != es[k].1
}

/// The ids of the entries whose position occurs in `list`.
pub open spec fn ids_of(es: Seq<(u64, usize)>, list: Seq<usize>) -> Set<u64> {
    Set::new(
        |id: u64|
            exists|k: int|
                0 <= k < es.len() && (#[trigger] es[k]).0 == id && list_has(list, es[k].1 as int),
    )
}

/// Membership in a pushed list.
pub proof fn lemma_list_has_push(list: Seq<usize>, y: usize)
    ensures
        forall|i: int| #[trigger] list_has(list.push(y), i) <==> list_has(list, i) || i == y as int,
{
    assert forall|i: int| #[trigger] list_has(list.push(y), i) implies list_has(list, i) || i
        == y as int by {
        let l = choose|l: int|
            0 <= l < list.push(y).len() && ((#[trigger] list.push(y)[l]) as int) == i;
        if l < list.len() {
            assert((list[l] as int) == i);
        }
    }
    assert forall|i: int| list_has(list, i) || i == y as int implies #[trigger] list_has(
        list.push(y),
        i,
    ) by {
        if list_has(list, i) {
            let l = choose|l: int| 0 <= l < list.len() && ((#[trigger] list[l]) as int) == i;
            assert((list.push(y)[l] as int) == i);
        } else {
            assert((list.push(y)[list.len() as int] as int) == i);
        }
    }
}

/// Translating a pushed list adds exactly the id of the pushed position.
pub proof fn lemma_ids_of_push_elem(es: Seq<(u64, usize)>, list: Seq<usize>, x: usize)
    requires
        entries_unique(es),
        has_val(es, x as int),
    ensures
        ids_of(es, list.push(x)) =~= ids_of(es, list).insert(key_of(es, x as int)),
{
    lemma_list_has_push(list, x);
    lemma_entries_bijective(es);
    let target = ids_of(es, list).insert(key_of(es, x as int));
    assert forall|id: u64| ids_of(es, list.push(x)).contains(id) implies target.contains(id) by {
        let k = choose|k: int|
            0 <= k < es.len() && (#[trigger] es[k]).0 == id && list_has(
                list.push(x),
                es[k].1 as int,
            );
        if list_has(list, es[k].1 as int) {
            assert(ids_of(es, list).contains(id));
        } else {
            assert((es[k].1 as int) == x as int);
            assert(has_key(es, id));
            let kk = choose|kk: int| 0 <= kk < es.len() && ((#[trigger] es[kk]).1 as int) == x as int;
            assert(kk == k);
            assert(key_of(es, x as int) == id);
        }
    }
    assert forall|id: u64| target.contains(id) implies ids_of(es, list.push(x)).contains(id) by {
        if ids_of(es, list).contains(id) {
            let k = choose|k: int|
                0 <= k < es.len() && (#[trigger] es[k]).0 == id && list_has(list, es[k].1 as int);
            assert(es[k].0 == id && list_has(list.push(x), es[k].1 as int));
        } else {
            assert(id == key_of(es, x as int));
            let k = choose|k: int| 0 <= k < es.len() && ((#[trigger] es[k]).1 as int) == x as int;
            assert(es[k].0 == id && list_has(list.push(x), es[k].1 as int));
        }
    }
}

/// Removes every occurrence of `target` from a list of positions, keeping
/// the order of the remaining elements.
fn remove_all(list: &mut Vec<usize>, target: usize)
    ensures
        forall|i: int| #[trigger]
            list_has(final(list)@, i) <==> list_has(old(list)@, i) && i != target as int,
{
    let n = list.len();
    let mut out: Vec<usize> = Vec::new();
    let mut k: usize = 0;
    while k < n
        invariant
            list@ == old(list)@,
            n == list@.len(),
            k <= n,
            forall|i: int| #[trigger]
                list_has(out@, i) <==> list_has(list@.subrange(0, k as int), i) && i
                    != target as int,
        decreases n - k,
    {
        let x = list[k];
        proof {
            assert(list@.subrange(0, k as int + 1) =~= list@.subrange(0, k as int).push(x));
            lemma_list_has_push(list@.subrange(0, k as int), x);
        }
        if x != target {
            let ghost o0 = out@;
            out.push(x);
            proof {
                lemma_list_has_push(o0, x);
            }
        }
        k = k + 1;
    }
    proof {
        assert(list@.subrange(0, n as int) =~= list@);
    }
    *list = out;
}

/// Translating two lists with the same membership yields the same ids.
pub proof fn lemma_ids_of_same_membership(es: Seq<(u64, usize)>, l1: Seq<usize>, l2: Seq<usize>)
    requires
        forall|i: int| #[trigger] list_has(l1, i) <==> list_has(l2, i),
    ensures
        ids_of(es, l1) =~= ids_of(es, l2),
{
    assert forall|id: u64| ids_of(es, l1).contains(id) implies ids_of(es, l2).contains(id) by {
        let k = choose|k: int|
            0 <= k < es.len() && (#[trigger] es[k]).0 == id && list_has(l1, es[k].1 as int);
        assert(list_has(l2, es[k].1 as int));
    }
    assert forall|id: u64| ids_of(es, l2).contains(id) implies ids_of(es, l1).contains(id) by {
        let k = choose|k: int|
            0 <= k < es.len() && (#[trigger] es[k]).0 == id && list_has(l2, es[k].1 as int);
        assert(list_has(l1, es[k].1 as int));
    }
}

/// Translating a list filtered of position `x` removes exactly the id of
/// `x` from the translation.
pub proof fn lemma_ids_of_filter_elem(
    es: Seq<(u64, usize)>,
    list: Seq<usize>,
    list2: Seq<usize>,
    x: usize,
)
    requires
        entries_unique(es),
        has_val(es, x as int),
        forall|i: int| #[trigger] list_has(list2, i) <==> list_has(list, i) && i != x as int,
    ensures
        ids_of(es, list2) =~= ids_of(es, list).remove(key_of(es, x as int)),
{
    lemma_entries_bijective(es);
    let key = key_of(es, x as int);
    let kk = choose|kk: int| 0 <= kk < es.len() && ((#[trigger] es[kk]).1 as int) == x as int;
    assert forall|id: u64| ids_of(es, list2).contains(id) implies ids_of(es, list).remove(
        key,
    ).contains(id) by {
        let k = choose|k: int|
            0 <= k < es.len() && (#[trigger] es[k]).0 == id && list_has(list2, es[k].1 as int);
        assert(list_has(list, es[k].1 as int));
        assert(ids_of(es, list).contains(id));
        if id == key {
            assert(k == kk);
            assert(false);
        }
    }
    assert forall|id: u64| ids_of(es, list).remove(key).contains(id) implies ids_of(
        es,
        list2,
    ).contains(id) by {
        let k = choose|k: int|
            0 <= k < es.len() && (#[trigger] es[k]).0 == id && list_has(list, es[k].1 as int);
        assert(id != key);
        if (es[k].1 as int) == x as int {
            assert(k == kk);
            assert(false);
        }
        assert(list_has(list2, es[k].1 as int));
    }
}

/// Returns a copy of a list of positions.
fn copy_list(v: &Vec<usize>) -> (r: Vec<usize>)
    ensures
        r@ == v@,
{
    let mut r: Vec<usize> = Vec::new();
    let mut k: usize = 0;
    while k < v.len()
        invariant
            k <= v@.len(),
            r@ == v@.subrange(0, k as int),
        decreases v@.len() - k,
    {
        r.push(v[k]);
        proof {
            assert(r@ =~= v@.subrange(0, k as int + 1));
        }
        k = k + 1;
    }
    proof {
        assert(v@.subrange(0, v@.len() as int) =~= v@);
    }
    r
}

/// Removing the entry at `k` keeps every other lookup intact.
pub proof fn lemma_entry_remove(es: Seq<(u64, usize)>, k: int)
    requires
        entries_unique(es),
        0 <= k < es.len(),
    ensures
        entries_unique(es.remove(k)),
        forall|id: u64|
            id != es[k].0 ==> (#[trigger] has_key(es.remove(k), id) <==> has_key(es, id)),
        forall|id: u64|
            id != es[k].0 && has_key(es, id) ==> #[trigger] idx_of(es.remove(k), id) == idx_of(
                es,
                id,
            ),
        !has_key(es.remove(k), es[k].0),
        forall|i: int|
            i != es[k].1 as int ==> (#[trigger] has_val(es.remove(k), i) <==> has_val(es, i)),
        !has_val(es.remove(k), es[k].1 as int),
{
    let es2 = es.remove(k);
    assert forall|j: int| 0 <= j < es2.len() implies #[trigger] es2[j] == (if j < k {
        es[j]
    } else {
        es[j + 1]
    }) by {}
    assert forall|id: u64|
        id != es[k].0 && #[trigger] has_key(es2, id) implies has_key(es, id) by {
        let j = choose|j: int| 0 <= j < es2.len() && (#[trigger] es2[j]).0 == id;
        if j < k {
            assert(es[j].0 == id);
        } else {
            assert(es[j + 1].0 == id);
        }
    }
    assert forall|id: u64|
        id != es[k].0 && has_key(es, id) implies #[trigger] has_key(es2, id) by {
        let j = choose|j: int| 0 <= j < es.len() && (#[trigger] es[j]).0 == id;
        assert(j != k);
        if j < k {
            assert(es2[j].0 == id);
        } else {
            assert(es2[j - 1].0 == id);
        }
    }
    assert forall|id: u64|
        id != es[k].0 && has_key(es, id) implies has_key(es2, id) && #[trigger] idx_of(
        es2,
        id,
    ) == idx_of(es, id) by {
        let j = choose|j: int| 0 <= j < es.len() && (#[trigger] es[j]).0 == id;
        assert(j != k);
        if j < k {
            assert(es2[j].0 == id);
        } else {
            assert(es2[j - 1].0 == id);
        }
        assert(has_key(es2, id));
        let j1 = choose|j1: int| 0 <= j1 < es.len() && (#[trigger] es[j1]).0 == id;
        let j2 = choose|j2: int| 0 <= j2 < es2.len() && (#[trigger] es2[j2]).0 == id;
        assert(j1 == j);
        if j2 < k {
            assert(es[j2].0 == id);
            assert(j2 == j);
        } else {
            assert(es[j2 + 1].0 == id);
            assert(j2 + 1 == j);
        }
    }
    if has_key(es2, es[k].0) {
        let j = choose|j: int| 0 <= j < es2.len() && (#[trigger] es2[j]).0 == es[k].0;
        if j < k {
            assert(es[j].0 == es[k].0);
        } else {
            assert(es[j + 1].0 == es[k].0);
        }
        assert(false);
    }
    assert forall|i: int|
        i != es[k].1 as int && #[trigger] has_val(es2, i) implies has_val(es, i) by {
        let j = choose|j: int| 0 <= j < es2.len() && ((#[trigger] es2[j]).1 as int) == i;
        if j < k {
            assert((es[j].1 as int) == i);
        } else {
            assert((es[j + 1].1 as int) == i);
        }
    }
    assert forall|i: int|
        i != es[k].1 as int && has_val(es, i) implies #[trigger] has_val(es2, i) by {
        let j = choose|j: int| 0 <= j < es.len() && ((#[trigger] es[j]).1 as int) == i;
        assert(j != k);
        if j < k {
            assert((es2[j].1 as int) == i);
        } else {
            assert((es2[j - 1].1 as int) == i);
        }
    }
    if has_val(es2, es[k].1 as int) {
        let j = choose|j: int| 0 <= j < es2.len() && ((#[trigger] es2[j]).1 as int) == es[k].1 as int;
        if j < k {
            assert(es[j].1 == es[k].1);
        } else {
            assert(es[j + 1].1 == es[k].1);
        }
        assert(false);
    }
}

/// Removing entry `k` and filtering its position out of a list removes
/// exactly its id from the translation.
pub proof fn lemma_ids_of_remove_entry(
    es: Seq<(u64, usize)>,
    k: int,
    list: Seq<usize>,
    list2: Seq<usize>,
)
    requires
        entries_unique(es),
        0 <= k < es.len(),
        forall|i: int| #[trigger] list_has(list2, i) <==> list_has(list, i) && i != es[k].1 as int,
    ensures
        ids_of(es.remove(k), list2) =~= ids_of(es, list).remove(es[k].0),
{
    let es2 = es.remove(k);
    assert forall|j: int| 0 <= j < es2.len() implies #[trigger] es2[j] == (if j < k {
        es[j]
    } else {
        es[j + 1]
    }) by {}
    assert forall|id: u64| ids_of(es2, list2).contains(id) implies ids_of(es, list).remove(
        es[k].0,
    ).contains(id) by {
        let j = choose|j: int|
            0 <= j < es2.len() && (#[trigger] es2[j]).0 == id && list_has(list2, es2[j].1 as int);
        let j0: int = if j < k {
            j
        } else {
            j + 1
        };
        assert(es[j0].0 == id && list_has(list2, es[j0].1 as int));
        assert(list_has(list, es[j0].1 as int));
        assert(ids_of(es, list).contains(id));
        assert(id != es[k].0) by {
            if id == es[k].0 {
                assert(j0 != k);
                assert(es[j0].0 != es[k].0);
            }
        }
    }
    assert forall|id: u64| ids_of(es, list).remove(es[k].0).contains(id) implies ids_of(
        es2,
        list2,
    ).contains(id) by {
        let j = choose|j: int|
            0 <= j < es.len() && (#[trigger] es[j]).0 == id && list_has(list, es[j].1 as int);
        assert(id != es[k].0);
        assert(j != k);
        assert((es[j].1 as int) != es[k].1 as int);
        assert(list_has(list2, es[j].1 as int));
        if j < k {
            assert(es2[j].0 == id && list_has(list2, es2[j].1 as int));
        } else {
            assert(es2[j - 1].0 == id && list_has(list2, es2[j - 1].1 as int));
        }
    }
}

/// With unique entries, the table is a bijection: lookups invert each other.
pub proof fn lemma_entries_bijective(es: Seq<(u64, usize)>)
    requires
        entries_unique(es),
    ensures
        forall|id: u64| #[trigger] has_key(es, id) ==> has_val(es, idx_of(es, id)) && key_of(
            es,
            idx_of(es, id),
        ) == id,
        forall|i: int| #[trigger] has_val(es, i) ==> has_key(es, key_of(es, i)) && idx_of(
            es,
            key_of(es, i),
        ) == i,
{
    assert forall|id: u64| #[trigger] has_key(es, id) implies has_val(es, idx_of(es, id))
        && key_of(es, idx_of(es, id)) == id by {
        let k = choose|k: int| 0 <= k < es.len() && (#[trigger] es[k]).0 == id;
        let i = es[k].1 as int;
        assert(has_val(es, i));
        let k2 = choose|k2: int| 0 <= k2 < es.len() && ((#[trigger] es[k2]).1 as int) == i;
        assert(k2 == k);
    }
    assert forall|i: int| #[trigger] has_val(es, i) implies has_key(es, key_of(es, i)) && idx_of(
        es,
        key_of(es, i),
    ) == i by {
        let k = choose|k: int| 0 <= k < es.len() && ((#[trigger] es[k]).1 as int) == i;
        let id = es[k].0;
        assert(has_key(es, id));
        let k2 = choose|k2: int| 0 <= k2 < es.len() && (#[trigger] es[k2]).0 == id;
        assert(k2 == k);
    }
}

/// Translating an empty edge list yields the empty id set.
pub proof fn lemma_ids_of_empty(es: Seq<(u64, usize)>)
    ensures
        ids_of(es, Seq::<usize>::empty()) =~= Set::<u64>::empty(),
{
    assert forall|id: u64| !ids_of(es, Seq::<usize>::empty()).contains(id) by {
        if ids_of(es, Seq::<usize>::empty()).contains(id) {
            let k = choose|k: int|
                0 <= k < es.len() && (#[trigger] es[k]).0 == id && list_has(
                    Seq::<usize>::empty(),
                    es[k].1 as int,
                );
            assert(false);
        }
    }
}

/// Appending an entry whose position no list element holds does not change a
/// translation.
pub proof fn lemma_ids_of_push_entry(es: Seq<(u64, usize)>, e: (u64, usize), list: Seq<usize>)
    requires
        !list_has(list, e.1 as int),
    ensures
        ids_of(es.push(e), list) =~= ids_of(es, list),
{
    let es2 = es.push(e);
    assert forall|id: u64| ids_of(es2, list).contains(id) implies ids_of(es, list).contains(
        id,
    ) by {
        let k = choose|k: int|
            0 <= k < es2.len() && (#[trigger] es2[k]).0 == id && list_has(list, es2[k].1 as int);
        assert(k < es.len());
        assert(es[k].0 == id && list_has(list, es[k].1 as int));
    }
    assert forall|id: u64| ids_of(es, list).contains(id) implies ids_of(es2, list).contains(
        id,
    ) by {
        let k = choose|k: int|
            0 <= k < es.len() && (#[trigger] es[k]).0 == id && list_has(list, es[k].1 as int);
        assert(es2[k].0 == id && list_has(list, es2[k].1 as int));
    }
}

/// Appending an entry keeps every old lookup, and the new id resolves to the
/// new position.
pub proof fn lemma_idx_of_push(es: Seq<(u64, usize)>, e: (u64, usize))
    requires
        entries_unique(es),
        !has_key(es, e.0),
    ensures
        forall|id: u64| #[trigger] has_key(es, id) ==> has_key(es.push(e), id) && idx_of(
            es.push(e),
            id,
        ) == idx_of(es, id),
        has_key(es.push(e), e.0),
        idx_of(es.push(e), e.0) == e.1 as int,
        forall|id: u64| #[trigger] has_key(es.push(e), id) ==> id == e.0 || has_key(es, id),
{
    let es2 = es.push(e);
    assert forall|id: u64| #[trigger] has_key(es, id) implies has_key(es2, id) && idx_of(
        es2,
        id,
    ) == idx_of(es, id) by {
        let k = choose|k: int| 0 <= k < es.len() && (#[trigger] es[k]).0 == id;
        assert(es2[k].0 == id);
        assert(has_key(es2, id));
        let k1 = choose|k1: int| 0 <= k1 < es.len() && (#[trigger] es[k1]).0 == id;
        let k2 = choose|k2: int| 0 <= k2 < es2.len() && (#[trigger] es2[k2]).0 == id;
        assert(id != e.0);
        assert(k2 < es.len());
        assert(k1 == k2);
    }
    assert(es2[es.len() as int].0 == e.0);
    assert(has_key(es2, e.0));
    let k3 = choose|k3: int| 0 <= k3 < es2.len() && (#[trigger] es2[k3]).0 == e.0;
    assert(k3 == es.len());
    assert forall|id: u64| #[trigger] has_key(es2, id) implies id == e.0 || has_key(es, id) by {
        let k = choose|k: int| 0 <= k < es2.len() && (#[trigger] es2[k]).0 == id;
        if k < es.len() {
            assert(es[k].0 == id);
        }
    }
}

/// Finds the position of the entry for `id` in an entry table.
fn entry_position(es: &Vec<(u64, usize)>, id: u64) -> (r: Option<usize>)
    ensures
        r is Some <==> has_key(es@, id),
        r matches Some(k) ==> k < es@.len() && es@[k as int].0 == id,
{
    let n = es.len();
    let mut k: usize = 0;
    while k < n
        invariant
            n == es@.len(),
            k <= n,
            forall|j: int| 0 <= j < k ==> (#[trigger] es@[j]).0 != id,
        decreases n - k,
    {
        let (eid, _) = es[k];
        if eid == id {
            return Some(k);
        }
        k = k + 1;
    }
    None
}

/// How many entries of `s` are set.
pub open spec fn count_marked(s: Seq<bool>) -> nat
    decreases s.len(),
{
    if s.len() == 0 {
        0
    } else {
        count_marked(s.drop_last()) + if s.last() {
            1nat
        } else {
            0nat
        }
    }
}

/// Marking one unmarked entry raises the count by one; the count never
/// exceeds the length.
pub proof fn lemma_count_marked_set(s: Seq<bool>, i: int)
    requires
        0 <= i < s.len(),
        !s[i],
    ensures
        count_marked(s.update(i, true)) == count_marked(s) + 1,
    decreases s.len(),
{
    let t = s.update(i, true);
    if i == s.len() - 1 {
        assert(t.drop_last() =~= s.drop_last());
    } else {
        lemma_count_marked_set(s.drop_last(), i);
        assert(t.drop_last() =~= s.drop_last().update(i, true));
        assert(t.last() == s.last());
    }
}

/// The count of marked entries is at most the length.
pub proof fn lemma_count_marked_le(s: Seq<bool>)
    ensures
        count_marked(s) <= s.len(),
    decreases s.len(),
{
    if s.len() > 0 {
        lemma_count_marked_le(s.drop_last());
    }
}

/// What one replay record asserts of a graph: replaying all records of a
/// compacted graph into an empty one rebuilds it.
pub open spec fn replay_valid(m: crate::model::GraphModel, e: Replay) -> bool {
    match e {
        Replay::Grant(g, a) => m.grantees.dom().contains(g) && m.grantees[g].acts.contains(a),
        Replay::ConnectGrantees(g, h) => m.grantees.dom().contains(g) && !m.grantees[g].root
            && m.grantees[g].parents.contains(h),
        Replay::ConnectActions(mn, sb) => m.actions.dom().contains(sb) && m.actions[sb].contains(
            mn,
        ),
        Replay::Root(g) => m.grantees.dom().contains(g) && m.grantees[g].root,
    }
}

/// The emission phase a replay record belongs to: inheritance edges come
/// first, then super-action edges, then grants, then roots.
pub open spec fn replay_kind_rank(e: Replay) -> int {
    match e {
        Replay::ConnectGrantees(_, _) => 0,
        Replay::ConnectActions(_, _) => 1,
        Replay::Grant(_, _) => 2,
        Replay::Root(_) => 3,
    }
}

/// Pushing a fresh element keeps a sequence duplicate-free.
pub proof fn lemma_no_dup_push<A>(s: Seq<A>, x: A)
    requires
        s.no_duplicates(),
        !s.contains(x),
    ensures
        s.push(x).no_duplicates(),
{
    assert forall|i: int, j: int|
        0 <= i < s.push(x).len() && 0 <= j < s.push(x).len() && i != j implies s.push(x)[i]
        != s.push(x)[j] by {
        if i < s.len() && j < s.len() {
            assert(s[i] == s.push(x)[i] && s[j] == s.push(x)[j]);
        } else if i < s.len() {
            if s[i] == x {
                assert(s.contains(x));
            }
        } else if j < s.len() {
            if s[j] == x {
                assert(s.contains(x));
            }
        }
    }
}

/// Whether position `l` holds the first occurrence of its value in `list`.
fn first_occurrence(list: &Vec<usize>, l: usize) -> (r: bool)
    requires
        l < list@.len(),
    ensures
        r <==> !list_has(list@.subrange(0, l as int), list@[l as int] as int),
{
    let target = list[l];
    let mut j: usize = 0;
    while j < l
        invariant
            j <= l,
            l < list@.len(),
            target == list@[l as int],
            forall|j2: int| 0 <= j2 < j ==> (#[trigger] list@[j2]) != target,
        decreases l - j,
    {
        if list[j] == target {
            proof {
                assert(list@.subrange(0, l as int)[j as int] == target);
                assert(list_has(list@.subrange(0, l as int), target as int));
            }
            return false;
        }
        j = j + 1;
    }
    proof {
        if list_has(list@.subrange(0, l as int), target as int) {
            let j2 = choose|j2: int|
                0 <= j2 < list@.subrange(0, l as int).len() && ((#[trigger] list@.subrange(
                    0,
                    l as int,
                )[j2]) as int) == target as int;
            assert(list@[j2] == target);
            assert(false);
        }
    }
    true
}

/// Membership in a pushed sequence.
pub proof fn lemma_contains_push<A>(s: Seq<A>, x: A)
    ensures
        forall|e: A| #[trigger] s.push(x).contains(e) <==> s.contains(e) || e == x,
{
    assert forall|e: A| #[trigger] s.push(x).contains(e) implies s.contains(e) || e == x by {
        let i = choose|i: int| 0 <= i < s.push(x).len() && s.push(x)[i] == e;
        if i < s.len() {
            assert(s[i] == e);
        }
    }
    assert forall|e: A| s.contains(e) || e == x implies #[trigger] s.push(x).contains(e) by {
        if s.contains(e) {
            let i = choose|i: int| 0 <= i < s.len() && s[i] == e;
            assert(s.push(x)[i] == e);
        } else {
            assert(s.push(x)[s.len() as int] == e);
        }
    }
}

// ---------------------------------------------------------------------------
// The graph
// ---------------------------------------------------------------------------

/// The authorization graph: can grantee `G` perform action `A`?
pub struct CanDo {
    grantees: Vec<(u64, usize)>,
    grantees_arena: Arena<Grantee>,
    actions: Vec<(u64, usize)>,
    actions_arena: Arena<Action>,
}

impl CanDo {
    /// The grantee entry table.
    pub closed spec fn gmap(&self) -> Seq<(u64, usize)> {
        self.grantees@
    }

    /// The action entry table.
    pub closed spec fn amap(&self) -> Seq<(u64, usize)> {
        self.actions@
    }

    /// The grantee arena slots.
    pub closed spec fn gslots(&self) -> Seq<Option<Grantee>> {
        self.grantees_arena.slots()
    }

    /// The action arena slots.
    pub closed spec fn aslots(&self) -> Seq<Option<Action>> {
        self.actions_arena.slots()
    }

    /// Position `i` of the grantee arena holds a live node.
    pub open spec fn glive(&self, i: int) -> bool {
        0 <= i < self.gslots().len() && self.gslots()[i] is Some
    }

    /// Position `i` of the action arena holds a live node.
    pub open spec fn alive(&self, i: int) -> bool {
        0 <= i < self.aslots().len() && self.aslots()[i] is Some
    }

    /// The grantee node at live position `i`.
    pub open spec fn gnode(&self, i: int) -> Grantee
        recommends
            self.glive(i),
    {
        self.gslots()[i].unwrap()
    }

    /// The action node at live position `i`.
    pub open spec fn anode(&self, i: int) -> Action
        recommends
            self.alive(i),
    {
        self.aslots()[i].unwrap()
    }

    /// An entry table and its arena agree: entries are unique, every entry
    /// points at a live slot, and every live slot is pointed at.
    pub open spec fn table_ok<N>(es: Seq<(u64, usize)>, slots: Seq<Option<N>>) -> bool {
        &&& entries_unique(es)
        &&& forall|k: int|
            0 <= k < es.len() ==> ((#[trigger] es[k]).1 as int) < slots.len()
                && slots[es[k].1 as int] is Some
        &&& forall|i: int|
            0 <= i < slots.len() && (#[trigger] slots[i]) is Some ==> has_val(es, i)
    }

    /// Every edge list of every live node points at live partners, and the
    /// partner's inverse list reflects the edge.
    pub open spec fn edges_ok(&self) -> bool {
        &&& forall|i: int, j: int|
            self.glive(i) && 0 <= j < self.gnode(i).grantee_of@.len() ==> {
                let x = (#[trigger] self.gnode(i).grantee_of@[j]) as int;
                x != i && self.glive(x) && list_has(self.gnode(x).grantees@, i)
            }
        &&& forall|i: int, j: int|
            self.glive(i) && 0 <= j < self.gnode(i).grantees@.len() ==> {
                let x = (#[trigger] self.gnode(i).grantees@[j]) as int;
                x != i && self.glive(x) && list_has(self.gnode(x).grantee_of@, i)
            }
        &&& forall|i: int, j: int|
            self.glive(i) && 0 <= j < self.gnode(i).actions@.len() ==> {
                let x = (#[trigger] self.gnode(i).actions@[j]) as int;
                self.alive(x) && list_has(self.anode(x).grantees@, i)
            }
        &&& forall|i: int, j: int|
            self.alive(i) && 0 <= j < self.anode(i).grantees@.len() ==> {
                let x = (#[trigger] self.anode(i).grantees@[j]) as int;
                self.glive(x) && list_has(self.gnode(x).actions@, i)
            }
        &&& forall|i: int, j: int|
            self.alive(i) && 0 <= j < self.anode(i).main_action_of@.len() ==> {
                let x = (#[trigger] self.anode(i).main_action_of@[j]) as int;
                x != i && self.alive(x) && list_has(self.anode(x).sub_action_of@, i)
            }
        &&& forall|i: int, j: int|
            self.alive(i) && 0 <= j < self.anode(i).sub_action_of@.len() ==> {
                let x = (#[trigger] self.anode(i).sub_action_of@[j]) as int;
                x != i && self.alive(x) && list_has(self.anode(x).main_action_of@, i)
            }
    }

    /// The representation invariant.
    pub closed spec fn wf(&self) -> bool {
        &&& self.grantees_arena.wf()
        &&& self.actions_arena.wf()
        &&& Self::table_ok(self.gmap(), self.gslots())
        &&& Self::table_ok(self.amap(), self.aslots())
        &&& self.edges_ok()
    }

    /// The grantee model entry extracted for the grantee at position `i`.
    pub open spec fn grantee_model_at(&self, i: int) -> GranteeModel
        recommends
            self.glive(i),
    {
        GranteeModel {
            parents: ids_of(self.gmap(), self.gnode(i).grantee_of@),
            acts: ids_of(self.amap(), self.gnode(i).actions@),
            root: self.gnode(i).is_root,
        }
    }

    /// The id-level model of this graph.
    pub open spec fn model(&self) -> GraphModel {
        GraphModel {
            grantees: Map::new(
                |g: u64| has_key(self.gmap(), g),
                |g: u64| self.grantee_model_at(idx_of(self.gmap(), g)),
            ),
            actions: Map::new(
                |a: u64| has_key(self.amap(), a),
                |a: u64| ids_of(self.amap(), self.anode(idx_of(self.amap(), a)).sub_action_of@),
            ),
        }
    }

    /// Returns a new empty graph.
    pub fn new() -> (c: CanDo)
        ensures
            c.wf(),
            c.model() == GraphModel::empty(),
    {
        let c = CanDo {
            grantees: Vec::new(),
            grantees_arena: Arena::new(),
            actions: Vec::new(),
            actions_arena: Arena::new(),
        };
        proof {
            assert(c.model().grantees =~= GraphModel::empty().grantees);
            assert(c.model().actions =~= GraphModel::empty().actions);
            assert(c.model() =~= GraphModel::empty());
        }
        c
    }

    /// Forgets all grants and inheritances.
    pub fn clear(&mut self)
        ensures
            final(self).wf(),
            final(self).model() == GraphModel::empty(),
    {
        *self = CanDo::new();
    }

    /// The number of grantees currently known.
    pub fn grantee_count(&self) -> (n: usize)
        ensures
            n == self.gmap().len(),
    {
        self.grantees.len()
    }

    /// The number of actions currently known.
    pub fn action_count(&self) -> (n: usize)
        ensures
            n == self.amap().len(),
    {
        self.actions.len()
    }

    /// Looks up the arena position of a grantee id.
    fn lookup_grantee(&self, grantee_id: u64) -> (r: Option<usize>)
        requires
            self.wf(),
        ensures
            r is Some <==> has_key(self.gmap(), grantee_id),
            r matches Some(i) ==> (i as int) == idx_of(self.gmap(), grantee_id) && self.glive(
                i as int,
            ),
    {
        let n = self.grantees.len();
        let mut k: usize = 0;
        while k < n
            invariant
                n == self.gmap().len(),
                k <= n,
                self.wf(),
                forall|j: int| 0 <= j < k ==> (#[trigger] self.gmap()[j]).0 != grantee_id,
            decreases n - k,
        {
            let (id, idx) = self.grantees[k];
            if id == grantee_id {
                proof {
                    let kk = choose|kk: int|
                        0 <= kk < self.gmap().len() && (#[trigger] self.gmap()[kk]).0
                            == grantee_id;
                    assert(kk == k);
                }
                return Some(idx);
            }
            k = k + 1;
        }
        None
    }

    /// Looks up the arena position of an action id.
    fn lookup_action(&self, action_id: u64) -> (r: Option<usize>)
        requires
            self.wf(),
        ensures
            r is Some <==> has_key(self.amap(), action_id),
            r matches Some(i) ==> (i as int) == idx_of(self.amap(), action_id) && self.alive(
                i as int,
            ),
    {
        let n = self.actions.len();
        let mut k: usize = 0;
        while k < n
            invariant
                n == self.amap().len(),
                k <= n,
                self.wf(),
                forall|j: int| 0 <= j < k ==> (#[trigger] self.amap()[j]).0 != action_id,
            decreases n - k,
        {
            let (id, idx) = self.actions[k];
            if id == action_id {
                proof {
                    let kk = choose|kk: int|
                        0 <= kk < self.amap().len() && (#[trigger] self.amap()[kk]).0 == action_id;
                    assert(kk == k);
                }
                return Some(idx);
            }
            k = k + 1;
        }
        None
    }

    /// Returns the position of `grantee_id`, creating a fresh node first if
    /// the id is unknown.
    fn get_grantee(&mut self, grantee_id: u64) -> (idx: usize)
        requires
            old(self).wf(),
        ensures
            final(self).wf(),
            final(self).model() == old(self).model().ensure_grantee(grantee_id),
            has_key(final(self).gmap(), grantee_id),
            (idx as int) == idx_of(final(self).gmap(), grantee_id),
            final(self).glive(idx as int),
            final(self).amap() == old(self).amap(),
            final(self).aslots() == old(self).aslots(),
            forall|i: int|
                old(self).glive(i) ==> final(self).glive(i) && final(self).gnode(i) == old(
                    self,
                ).gnode(i),
            has_key(old(self).gmap(), grantee_id) ==> final(self).gmap() == old(self).gmap()
                && final(self).gslots() == old(self).gslots(),
            !has_key(old(self).gmap(), grantee_id) ==> final(self).gmap() == old(
                self,
            ).gmap().push((grantee_id, idx)) && !old(self).glive(idx as int) && final(self).gnode(
                idx as int,
            ).grantee_of@.len() == 0 && final(self).gnode(idx as int).grantees@.len() == 0
                && final(self).gnode(idx as int).actions@.len() == 0 && !final(self).gnode(
                idx as int,
            ).is_root,
            forall|i: int|
                final(self).glive(i) ==> old(self).glive(i) || i == idx as int,
    {
        match self.lookup_grantee(grantee_id) {
            Some(idx) => {
                proof {
                    assert(old(self).model().ensure_grantee(grantee_id) =~= old(self).model());
                }
                idx
            },
            None => {
                let idx = self.grantees_arena.insert(Grantee::new());
                self.grantees.push((grantee_id, idx));
                proof {
                    self.lemma_after_new_grantee(*old(self), grantee_id, idx);
                }
                idx
            },
        }
    }

    /// The state change of creating a fresh grantee: representation
    /// invariant, lookups and the id-level model.
    proof fn lemma_after_new_grantee(&self, pre: CanDo, grantee_id: u64, idx: usize)
        requires
            pre.wf(),
            !has_key(pre.gmap(), grantee_id),
            !pre.glive(idx as int),
            self.gmap() == pre.gmap().push((grantee_id, idx)),
            self.amap() == pre.amap(),
            self.aslots() == pre.aslots(),
            self.glive(idx as int),
            self.gnode(idx as int).grantee_of@.len() == 0,
            self.gnode(idx as int).grantees@.len() == 0,
            self.gnode(idx as int).actions@.len() == 0,
            !self.gnode(idx as int).is_root,
            self.grantees_arena.wf(),
            self.actions_arena.wf(),
            pre.gslots().len() <= self.gslots().len() <= pre.gslots().len() + 1,
            forall|i: int|
                0 <= i < self.gslots().len() && i != idx as int ==> #[trigger] self.gslots()[i]
                    == if i < pre.gslots().len() {
                    pre.gslots()[i]
                } else {
                    Option::<Grantee>::None
                },
        ensures
            self.wf(),
            self.model() == pre.model().ensure_grantee(grantee_id),
            (idx as int) == idx_of(self.gmap(), grantee_id),
    {
        let es = pre.gmap();
        let es2 = self.gmap();
        let e = (grantee_id, idx);
        lemma_idx_of_push(es, e);

        // The entry table and the arena still agree.
        assert forall|j: int, k: int|
            #![trigger es2[j], es2[k]]
            0 <= j < k < es2.len() implies es2[j].0 != es2[k].0 && es2[j].1 != es2[k].1 by {
            if k == es.len() {
                assert(es[j].0 != grantee_id) by {
                    if es[j].0 == grantee_id {
                        assert(has_key(es, grantee_id));
                    }
                }
                assert(pre.glive(es[j].1 as int));
            }
        }
        assert forall|k: int|
            0 <= k < es2.len() implies ((#[trigger] es2[k]).1 as int) < self.gslots().len()
            && self.gslots()[es2[k].1 as int] is Some by {
            if k < es.len() {
                assert(pre.glive(es[k].1 as int));
                assert((es[k].1 as int) != idx as int);
            }
        }
        assert forall|i: int|
            0 <= i < self.gslots().len() && (#[trigger] self.gslots()[i]) is Some implies has_val(
            es2,
            i,
        ) by {
            if i != idx as int {
                assert(pre.glive(i));
                let k = choose|k: int| 0 <= k < es.len() && ((#[trigger] es[k]).1 as int) == i;
                assert((es2[k].1 as int) == i);
            } else {
                assert((es2[es.len() as int].1 as int) == i);
            }
        }

        // Old nodes and their edges are untouched; the new node has none.
        assert forall|i: int| pre.glive(i) implies self.glive(i) && self.gnode(i) == pre.gnode(
            i,
        ) by {
            assert((i as int) != idx as int);
        }
        assert(self.edges_ok()) by {
            assert forall|i: int, j: int|
                self.glive(i) && 0 <= j < self.gnode(i).grantee_of@.len() implies {
                let x = (#[trigger] self.gnode(i).grantee_of@[j]) as int;
                x != i && self.glive(x) && list_has(self.gnode(x).grantees@, i)
            } by {
                if i != idx as int {
                    assert(pre.glive(i));
                    assert(self.gnode(i) == pre.gnode(i));
                    let x = (self.gnode(i).grantee_of@[j]) as int;
                    assert(pre.glive(x) && list_has(pre.gnode(x).grantees@, i));
                    assert(x != idx as int);
                }
            }
            assert forall|i: int, j: int|
                self.glive(i) && 0 <= j < self.gnode(i).grantees@.len() implies {
                let x = (#[trigger] self.gnode(i).grantees@[j]) as int;
                x != i && self.glive(x) && list_has(self.gnode(x).grantee_of@, i)
            } by {
                if i != idx as int {
                    assert(pre.glive(i));
                    let x = (self.gnode(i).grantees@[j]) as int;
                    assert(pre.glive(x) && list_has(pre.gnode(x).grantee_of@, i));
                    assert(x != idx as int);
                }
            }
            assert forall|i: int, j: int|
                self.glive(i) && 0 <= j < self.gnode(i).actions@.len() implies {
                let x = (#[trigger] self.gnode(i).actions@[j]) as int;
                self.alive(x) && list_has(self.anode(x).grantees@, i)
            } by {
                if i != idx as int {
                    assert(pre.glive(i));
                    let x = (self.gnode(i).actions@[j]) as int;
                    assert(pre.alive(x) && list_has(pre.anode(x).grantees@, i));
                }
            }
            assert forall|i: int, j: int|
                self.alive(i) && 0 <= j < self.anode(i).grantees@.len() implies {
                let x = (#[trigger] self.anode(i).grantees@[j]) as int;
                self.glive(x) && list_has(self.gnode(x).actions@, i)
            } by {
                assert(pre.alive(i));
                assert(self.anode(i) == pre.anode(i));
                let x = (pre.anode(i).grantees@[j]) as int;
                assert(pre.glive(x) && list_has(pre.gnode(x).actions@, i));
                assert(x != idx as int);
            }
            assert forall|i: int, j: int|
                self.alive(i) && 0 <= j < self.anode(i).main_action_of@.len() implies {
                let x = (#[trigger] self.anode(i).main_action_of@[j]) as int;
                x != i && self.alive(x) && list_has(self.anode(x).sub_action_of@, i)
            } by {
                assert(pre.alive(i));
                assert(self.anode(i) == pre.anode(i));
                let x = (pre.anode(i).main_action_of@[j]) as int;
                assert(pre.alive(x) && list_has(pre.anode(x).sub_action_of@, i));
            }
            assert forall|i: int, j: int|
                self.alive(i) && 0 <= j < self.anode(i).sub_action_of@.len() implies {
                let x = (#[trigger] self.anode(i).sub_action_of@[j]) as int;
                x != i && self.alive(x) && list_has(self.anode(x).main_action_of@, i)
            } by {
                assert(pre.alive(i));
                assert(self.anode(i) == pre.anode(i));
                let x = (pre.anode(i).sub_action_of@[j]) as int;
                assert(pre.alive(x) && list_has(pre.anode(x).main_action_of@, i));
            }
        }

        // The model gained exactly the fresh grantee.
        let m1 = self.model();
        let m2 = pre.model().ensure_grantee(grantee_id);
        assert forall|g: u64| #[trigger]
            m1.grantees.dom().contains(g) <==> m2.grantees.dom().contains(g) by {}
        assert forall|g: u64| m1.grantees.dom().contains(g) implies #[trigger] m1.grantees[g]
            =~= m2.grantees[g] by {
            if g == grantee_id {
                lemma_ids_of_empty(es2);
                lemma_ids_of_empty(self.amap());
                assert(m1.grantees[g].parents =~= Set::<u64>::empty());
                assert(m1.grantees[g].acts =~= Set::<u64>::empty());
            } else {
                let i = idx_of(es, g);
                assert(has_key(es, g));
                lemma_entries_bijective(es);
                assert(pre.glive(i));
                assert(idx_of(es2, g) == i);
                assert(self.gnode(i) == pre.gnode(i));
                assert(!list_has(pre.gnode(i).grantee_of@, idx as int)) by {
                    if list_has(pre.gnode(i).grantee_of@, idx as int) {
                        let l = choose|l: int|
                            0 <= l < pre.gnode(i).grantee_of@.len() && ((#[trigger] pre.gnode(
                                i,
                            ).grantee_of@[l]) as int) == idx as int;
                        assert(pre.glive(idx as int));
                    }
                }
                lemma_ids_of_push_entry(es, e, pre.gnode(i).grantee_of@);
                assert(m1.grantees[g].parents =~= m2.grantees[g].parents);
                assert(m1.grantees[g].acts =~= m2.grantees[g].acts);
            }
        }
        assert(m1.grantees =~= m2.grantees);
        assert forall|a: u64| m1.actions.dom().contains(a) implies #[trigger] m1.actions[a]
            =~= m2.actions[a] by {
            let i = idx_of(self.amap(), a);
            assert(has_key(self.amap(), a));
        }
        assert(m1.actions =~= m2.actions);
        assert(m1 =~= m2);
    }

    /// Returns the position of `action_id`, creating a fresh node first if
    /// the id is unknown.
    fn get_action(&mut self, action_id: u64) -> (idx: usize)
        requires
            old(self).wf(),
        ensures
            final(self).wf(),
            final(self).model() == old(self).model().ensure_action(action_id),
            has_key(final(self).amap(), action_id),
            (idx as int) == idx_of(final(self).amap(), action_id),
            final(self).alive(idx as int),
            final(self).gmap() == old(self).gmap(),
            final(self).gslots() == old(self).gslots(),
            forall|i: int|
                old(self).alive(i) ==> final(self).alive(i) && final(self).anode(i) == old(
                    self,
                ).anode(i),
            has_key(old(self).amap(), action_id) ==> final(self).amap() == old(self).amap()
                && final(self).aslots() == old(self).aslots(),
            !has_key(old(self).amap(), action_id) ==> final(self).amap() == old(
                self,
            ).amap().push((action_id, idx)) && !old(self).alive(idx as int) && final(self).anode(
                idx as int,
            ).grantees@.len() == 0 && final(self).anode(idx as int).main_action_of@.len() == 0
                && final(self).anode(idx as int).sub_action_of@.len() == 0,
            forall|i: int|
                final(self).alive(i) ==> old(self).alive(i) || i == idx as int,
    {
        match self.lookup_action(action_id) {
            Some(idx) => {
                proof {
                    assert(old(self).model().ensure_action(action_id) =~= old(self).model());
                }
                idx
            },
            None => {
                let idx = self.actions_arena.insert(Action::new());
                self.actions.push((action_id, idx));
                proof {
                    self.lemma_after_new_action(*old(self), action_id, idx);
                }
                idx
            },
        }
    }

    /// The state change of creating a fresh action: representation
    /// invariant, lookups and the id-level model.
    proof fn lemma_after_new_action(&self, pre: CanDo, action_id: u64, idx: usize)
        requires
            pre.wf(),
            !has_key(pre.amap(), action_id),
            !pre.alive(idx as int),
            self.amap() == pre.amap().push((action_id, idx)),
            self.gmap() == pre.gmap(),
            self.gslots() == pre.gslots(),
            self.alive(idx as int),
            self.anode(idx as int).grantees@.len() == 0,
            self.anode(idx as int).main_action_of@.len() == 0,
            self.anode(idx as int).sub_action_of@.len() == 0,
            self.grantees_arena.wf(),
            self.actions_arena.wf(),
            pre.aslots().len() <= self.aslots().len() <= pre.aslots().len() + 1,
            forall|i: int|
                0 <= i < self.aslots().len() && i != idx as int ==> #[trigger] self.aslots()[i]
                    == if i < pre.aslots().len() {
                    pre.aslots()[i]
                } else {
                    Option::<Action>::None
                },
        ensures
            self.wf(),
            self.model() == pre.model().ensure_action(action_id),
            (idx as int) == idx_of(self.amap(), action_id),
    {
        let es = pre.amap();
        let es2 = self.amap();
        let e = (action_id, idx);
        lemma_idx_of_push(es, e);

        assert forall|j: int, k: int|
            #![trigger es2[j], es2[k]]
            0 <= j < k < es2.len() implies es2[j].0 != es2[k].0 && es2[j].1 != es2[k].1 by {
            if k == es.len() {
                assert(es[j].0 != action_id) by {
                    if es[j].0 == action_id {
                        assert(has_key(es, action_id));
                    }
                }
                assert(pre.alive(es[j].1 as int));
            }
        }
        assert forall|k: int|
            0 <= k < es2.len() implies ((#[trigger] es2[k]).1 as int) < self.aslots().len()
            && self.aslots()[es2[k].1 as int] is Some by {
            if k < es.len() {
                assert(pre.alive(es[k].1 as int));
                assert((es[k].1 as int) != idx as int);
            }
        }
        assert forall|i: int|
            0 <= i < self.aslots().len() && (#[trigger] self.aslots()[i]) is Some implies has_val(
            es2,
            i,
        ) by {
            if i != idx as int {
                assert(pre.alive(i));
                let k = choose|k: int| 0 <= k < es.len() && ((#[trigger] es[k]).1 as int) == i;
                assert((es2[k].1 as int) == i);
            } else {
                assert((es2[es.len() as int].1 as int) == i);
            }
        }

        assert forall|i: int| pre.alive(i) implies self.alive(i) && self.anode(i) == pre.anode(
            i,
        ) by {
            assert(i != idx as int);
        }
        assert(self.edges_ok()) by {
            assert forall|i: int, j: int|
                self.glive(i) && 0 <= j < self.gnode(i).grantee_of@.len() implies {
                let x = (#[trigger] self.gnode(i).grantee_of@[j]) as int;
                x != i && self.glive(x) && list_has(self.gnode(x).grantees@, i)
            } by {
                assert(pre.glive(i));
                assert(self.gnode(i) == pre.gnode(i));
                let x = (pre.gnode(i).grantee_of@[j]) as int;
                assert(pre.glive(x) && list_has(pre.gnode(x).grantees@, i));
            }
            assert forall|i: int, j: int|
                self.glive(i) && 0 <= j < self.gnode(i).grantees@.len() implies {
                let x = (#[trigger] self.gnode(i).grantees@[j]) as int;
                x != i && self.glive(x) && list_has(self.gnode(x).grantee_of@, i)
            } by {
                assert(pre.glive(i));
                assert(self.gnode(i) == pre.gnode(i));
                let x = (pre.gnode(i).grantees@[j]) as int;
                assert(pre.glive(x) && list_has(pre.gnode(x).grantee_of@, i));
            }
            assert forall|i: int, j: int|
                self.glive(i) && 0 <= j < self.gnode(i).actions@.len() implies {
                let x = (#[trigger] self.gnode(i).actions@[j]) as int;
                self.alive(x) && list_has(self.anode(x).grantees@, i)
            } by {
                assert(pre.glive(i));
                assert(self.gnode(i) == pre.gnode(i));
                let x = (pre.gnode(i).actions@[j]) as int;
                assert(pre.alive(x) && list_has(pre.anode(x).grantees@, i));
                assert(x != idx as int);
            }
            assert forall|i: int, j: int|
                self.alive(i) && 0 <= j < self.anode(i).grantees@.len() implies {
                let x = (#[trigger] self.anode(i).grantees@[j]) as int;
                self.glive(x) && list_has(self.gnode(x).actions@, i)
            } by {
                if i != idx as int {
                    assert(pre.alive(i));
                    assert(self.anode(i) == pre.anode(i));
                    let x = (pre.anode(i).grantees@[j]) as int;
                    assert(pre.glive(x) && list_has(pre.gnode(x).actions@, i));
                }
            }
            assert forall|i: int, j: int|
                self.alive(i) && 0 <= j < self.anode(i).main_action_of@.len() implies {
                let x = (#[trigger] self.anode(i).main_action_of@[j]) as int;
                x != i && self.alive(x) && list_has(self.anode(x).sub_action_of@, i)
            } by {
                if i != idx as int {
                    assert(pre.alive(i));
                    assert(self.anode(i) == pre.anode(i));
                    let x = (pre.anode(i).main_action_of@[j]) as int;
                    assert(pre.alive(x) && list_has(pre.anode(x).sub_action_of@, i));
                    assert(x != idx as int);
                }
            }
            assert forall|i: int, j: int|
                self.alive(i) && 0 <= j < self.anode(i).sub_action_of@.len() implies {
                let x = (#[trigger] self.anode(i).sub_action_of@[j]) as int;
                x != i && self.alive(x) && list_has(self.anode(x).main_action_of@, i)
            } by {
                if i != idx as int {
                    assert(pre.alive(i));
                    assert(self.anode(i) == pre.anode(i));
                    let x = (pre.anode(i).sub_action_of@[j]) as int;
                    assert(pre.alive(x) && list_has(pre.anode(x).main_action_of@, i));
                    assert(x != idx as int);
                }
            }
        }

        let m1 = self.model();
        let m2 = pre.model().ensure_action(action_id);
        assert forall|g: u64| m1.grantees.dom().contains(g) implies #[trigger] m1.grantees[g]
            =~= m2.grantees[g] by {
            let i = idx_of(pre.gmap(), g);
            assert(has_key(pre.gmap(), g));
            lemma_entries_bijective(pre.gmap());
            assert(pre.glive(i));
            assert(self.gnode(i) == pre.gnode(i));
            assert(!list_has(pre.gnode(i).actions@, idx as int)) by {
                if list_has(pre.gnode(i).actions@, idx as int) {
                    let l = choose|l: int|
                        0 <= l < pre.gnode(i).actions@.len() && ((#[trigger] pre.gnode(
                            i,
                        ).actions@[l]) as int) == idx as int;
                    assert(pre.alive(idx as int));
                }
            }
            lemma_ids_of_push_entry(es, e, pre.gnode(i).actions@);
            assert(m1.grantees[g].acts =~= m2.grantees[g].acts);
            assert(m1.grantees[g].parents =~= m2.grantees[g].parents);
        }
        assert(m1.grantees =~= m2.grantees);
        assert forall|a: u64| m1.actions.dom().contains(a) implies #[trigger] m1.actions[a]
            =~= m2.actions[a] by {
            if a == action_id {
                lemma_ids_of_empty(es2);
                assert(self.anode(idx as int).sub_action_of@ =~= Seq::<usize>::empty());
                assert(m1.actions[a] =~= Set::<u64>::empty());
            } else {
                let i = idx_of(es, a);
                assert(has_key(es, a));
                lemma_entries_bijective(es);
                assert(pre.alive(i));
                assert(idx_of(es2, a) == i);
                assert(self.anode(i) == pre.anode(i));
                assert(!list_has(pre.anode(i).sub_action_of@, idx as int)) by {
                    if list_has(pre.anode(i).sub_action_of@, idx as int) {
                        let l = choose|l: int|
                            0 <= l < pre.anode(i).sub_action_of@.len() && ((#[trigger] pre.anode(
                                i,
                            ).sub_action_of@[l]) as int) == idx as int;
                        assert(pre.alive(idx as int));
                    }
                }
                lemma_ids_of_push_entry(es, e, pre.anode(i).sub_action_of@);
                assert(m1.actions[a] =~= m2.actions[a]);
            }
        }
        assert(m1.actions =~= m2.actions);
        assert(m1 =~= m2);
    }

    /// Grants `action_id` to `grantee_id` directly, creating either node if
    /// it does not exist yet.
    pub fn add_grant(&mut self, grantee_id: u64, action_id: u64)
        requires
            old(self).wf(),
        ensures
            final(self).wf(),
            final(self).model() == old(self).model().add_grant_m(grantee_id, action_id),
    {
        let gi = self.get_grantee(grantee_id);
        let ai = self.get_action(action_id);
        let ghost mid = *self;
        self.actions_arena.get_mut(ai).grantees.push(gi);
        self.grantees_arena.get_mut(gi).actions.push(ai);
        proof {
            assert(idx_of(mid.gmap(), grantee_id) == gi as int);
            self.lemma_after_add_grant(mid, gi, ai, grantee_id, action_id);
            assert(old(self).model().add_grant_m(grantee_id, action_id) == mid
                .model().add_grant_m(grantee_id, action_id));
        }
    }

    /// The state change of pushing a grant edge onto both endpoints.
    proof fn lemma_after_add_grant(&self, pre: CanDo, gi: usize, ai: usize, g: u64, a: u64)
        requires
            pre.wf(),
            has_key(pre.gmap(), g),
            idx_of(pre.gmap(), g) == gi as int,
            pre.glive(gi as int),
            has_key(pre.amap(), a),
            idx_of(pre.amap(), a) == ai as int,
            pre.alive(ai as int),
            self.gmap() == pre.gmap(),
            self.amap() == pre.amap(),
            self.grantees_arena.wf(),
            self.actions_arena.wf(),
            self.gslots().len() == pre.gslots().len(),
            self.aslots().len() == pre.aslots().len(),
            self.glive(gi as int),
            self.alive(ai as int),
            self.gnode(gi as int).grantee_of@ == pre.gnode(gi as int).grantee_of@,
            self.gnode(gi as int).grantees@ == pre.gnode(gi as int).grantees@,
            self.gnode(gi as int).actions@ == pre.gnode(gi as int).actions@.push(ai),
            self.gnode(gi as int).is_root == pre.gnode(gi as int).is_root,
            self.anode(ai as int).grantees@ == pre.anode(ai as int).grantees@.push(gi),
            self.anode(ai as int).main_action_of@ == pre.anode(ai as int).main_action_of@,
            self.anode(ai as int).sub_action_of@ == pre.anode(ai as int).sub_action_of@,
            forall|i: int|
                0 <= i < self.gslots().len() && i != gi as int ==> #[trigger] self.gslots()[i]
                    == pre.gslots()[i],
            forall|i: int|
                0 <= i < self.aslots().len() && i != ai as int ==> #[trigger] self.aslots()[i]
                    == pre.aslots()[i],
        ensures
            self.wf(),
            self.model() == pre.model().add_grant_m(g, a),
    {
        let es = pre.gmap();
        let aes = pre.amap();
        lemma_entries_bijective(es);
        lemma_entries_bijective(aes);
        lemma_list_has_push(pre.gnode(gi as int).actions@, ai);
        lemma_list_has_push(pre.anode(ai as int).grantees@, gi);

        assert forall|i: int| pre.glive(i) implies self.glive(i) by {}
        assert forall|i: int| self.glive(i) implies pre.glive(i) by {}
        assert forall|i: int| pre.alive(i) implies self.alive(i) by {}
        assert forall|i: int| self.alive(i) implies pre.alive(i) by {}
        assert forall|i: int| self.glive(i) && i != gi as int implies self.gnode(i) == pre.gnode(
            i,
        ) by {}
        assert forall|i: int| self.alive(i) && i != ai as int implies self.anode(i) == pre.anode(
            i,
        ) by {}

        assert(Self::table_ok(self.gmap(), self.gslots())) by {
            assert forall|i: int|
                0 <= i < self.gslots().len() && (#[trigger] self.gslots()[i]) is Some
                implies has_val(es, i) by {
                assert(pre.glive(i));
            }
        }
        assert(Self::table_ok(self.amap(), self.aslots())) by {
            assert forall|i: int|
                0 <= i < self.aslots().len() && (#[trigger] self.aslots()[i]) is Some
                implies has_val(aes, i) by {
                assert(pre.alive(i));
            }
        }

        assert(self.edges_ok()) by {
            assert forall|i: int, j: int|
                self.glive(i) && 0 <= j < self.gnode(i).grantee_of@.len() implies {
                let x = (#[trigger] self.gnode(i).grantee_of@[j]) as int;
                x != i && self.glive(x) && list_has(self.gnode(x).grantees@, i)
            } by {
                assert(self.gnode(i).grantee_of@ == pre.gnode(i).grantee_of@);
                let x = (pre.gnode(i).grantee_of@[j]) as int;
                assert(pre.glive(x) && list_has(pre.gnode(x).grantees@, i));
                assert(self.gnode(x).grantees@ == pre.gnode(x).grantees@);
            }
            assert forall|i: int, j: int|
                self.glive(i) && 0 <= j < self.gnode(i).grantees@.len() implies {
                let x = (#[trigger] self.gnode(i).grantees@[j]) as int;
                x != i && self.glive(x) && list_has(self.gnode(x).grantee_of@, i)
            } by {
                assert(self.gnode(i).grantees@ == pre.gnode(i).grantees@);
                let x = (pre.gnode(i).grantees@[j]) as int;
                assert(pre.glive(x) && list_has(pre.gnode(x).grantee_of@, i));
                assert(self.gnode(x).grantee_of@ == pre.gnode(x).grantee_of@);
            }
            assert forall|i: int, j: int|
                self.glive(i) && 0 <= j < self.gnode(i).actions@.len() implies {
                let x = (#[trigger] self.gnode(i).actions@[j]) as int;
                self.alive(x) && list_has(self.anode(x).grantees@, i)
            } by {
                if i == gi as int && j == pre.gnode(gi as int).actions@.len() {
                    assert((self.gnode(i).actions@[j] as int) == ai as int);
                    assert(list_has(self.anode(ai as int).grantees@, gi as int));
                } else {
                    let x = (pre.gnode(i).actions@[j]) as int;
                    assert(self.gnode(i).actions@[j] == pre.gnode(i).actions@[j]);
                    assert(pre.alive(x) && list_has(pre.anode(x).grantees@, i));
                    if x == ai as int {
                        assert(list_has(self.anode(x).grantees@, i));
                    } else {
                        assert(self.anode(x).grantees@ == pre.anode(x).grantees@);
                    }
                }
            }
            assert forall|i: int, j: int|
                self.alive(i) && 0 <= j < self.anode(i).grantees@.len() implies {
                let x = (#[trigger] self.anode(i).grantees@[j]) as int;
                self.glive(x) && list_has(self.gnode(x).actions@, i)
            } by {
                if i == ai as int && j == pre.anode(ai as int).grantees@.len() {
                    assert((self.anode(i).grantees@[j] as int) == gi as int);
                    assert(list_has(self.gnode(gi as int).actions@, ai as int));
                } else {
                    let x = (pre.anode(i).grantees@[j]) as int;
                    assert(self.anode(i).grantees@[j] == pre.anode(i).grantees@[j]);
                    assert(pre.glive(x) && list_has(pre.gnode(x).actions@, i));
                    if x == gi as int {
                        assert(list_has(self.gnode(x).actions@, i));
                    } else {
                        assert(self.gnode(x).actions@ == pre.gnode(x).actions@);
                    }
                }
            }
            assert forall|i: int, j: int|
                self.alive(i) && 0 <= j < self.anode(i).main_action_of@.len() implies {
                let x = (#[trigger] self.anode(i).main_action_of@[j]) as int;
                x != i && self.alive(x) && list_has(self.anode(x).sub_action_of@, i)
            } by {
                assert(self.anode(i).main_action_of@ == pre.anode(i).main_action_of@);
                let x = (pre.anode(i).main_action_of@[j]) as int;
                assert(pre.alive(x) && list_has(pre.anode(x).sub_action_of@, i));
                assert(self.anode(x).sub_action_of@ == pre.anode(x).sub_action_of@);
            }
            assert forall|i: int, j: int|
                self.alive(i) && 0 <= j < self.anode(i).sub_action_of@.len() implies {
                let x = (#[trigger] self.anode(i).sub_action_of@[j]) as int;
                x != i && self.alive(x) && list_has(self.anode(x).main_action_of@, i)
            } by {
                assert(self.anode(i).sub_action_of@ == pre.anode(i).sub_action_of@);
                let x = (pre.anode(i).sub_action_of@[j]) as int;
                assert(pre.alive(x) && list_has(pre.anode(x).main_action_of@, i));
                assert(self.anode(x).main_action_of@ == pre.anode(x).main_action_of@);
            }
        }

        let m1 = self.model();
        let m2 = pre.model().add_grant_m(g, a);
        assert(pre.model().ensure_grantee(g) == pre.model());
        assert(pre.model().ensure_action(a) == pre.model());
        lemma_ids_of_push_elem(aes, pre.gnode(gi as int).actions@, ai);
        assert(key_of(aes, ai as int) == a);
        assert forall|g2: u64| m1.grantees.dom().contains(g2) implies #[trigger] m1.grantees[g2]
            =~= m2.grantees[g2] by {
            let i = idx_of(es, g2);
            assert(has_key(es, g2));
            assert(pre.glive(i));
            if g2 == g {
                assert(i == gi as int);
                assert(m1.grantees[g2].acts =~= m2.grantees[g2].acts);
                assert(m1.grantees[g2].parents =~= m2.grantees[g2].parents);
            } else {
                assert(i != gi as int) by {
                    if i == gi as int {
                        lemma_entries_bijective(es);
                        assert(key_of(es, i) == g2 && key_of(es, gi as int) == g);
                    }
                }
                assert(self.gnode(i) == pre.gnode(i));
            }
        }
        assert(m1.grantees =~= m2.grantees);
        assert forall|a2: u64| m1.actions.dom().contains(a2) implies #[trigger] m1.actions[a2]
            =~= m2.actions[a2] by {
            let i = idx_of(aes, a2);
            assert(has_key(aes, a2));
            assert(pre.alive(i));
            assert(self.anode(i).sub_action_of@ == pre.anode(i).sub_action_of@);
        }
        assert(m1.actions =~= m2.actions);
        assert(m1 =~= m2);
    }

    /// Makes `grantee_id` inherit the rights of `grantee_of_id`, creating
    /// either grantee if it does not exist yet.  A self-connection is
    /// silently ignored.
    pub fn connect_grantees(&mut self, grantee_id: u64, grantee_of_id: u64)
        requires
            old(self).wf(),
        ensures
            final(self).wf(),
            final(self).model() == old(self).model().connect_grantees_m(
                grantee_id,
                grantee_of_id,
            ),
    {
        let gi = self.get_grantee(grantee_id);
        let hi = self.get_grantee(grantee_of_id);
        if gi == hi {
            proof {
                if grantee_id != grantee_of_id {
                    lemma_entries_bijective(self.gmap());
                    assert(key_of(self.gmap(), gi as int) == grantee_id);
                    assert(key_of(self.gmap(), hi as int) == grantee_of_id);
                    assert(false);
                }
            }
            return ;
        }
        let ghost mid = *self;
        self.grantees_arena.get_mut(gi).grantee_of.push(hi);
        self.grantees_arena.get_mut(hi).grantees.push(gi);
        proof {
            assert(grantee_id != grantee_of_id) by {
                if grantee_id == grantee_of_id {
                    assert(idx_of(mid.gmap(), grantee_id) == gi as int);
                }
            }
            self.lemma_after_connect_grantees(mid, gi, hi, grantee_id, grantee_of_id);
        }
    }

    /// The state change of pushing an inheritance edge onto both endpoints.
    proof fn lemma_after_connect_grantees(
        &self,
        pre: CanDo,
        gi: usize,
        hi: usize,
        g: u64,
        h: u64,
    )
        requires
            pre.wf(),
            g != h,
            gi != hi,
            has_key(pre.gmap(), g),
            idx_of(pre.gmap(), g) == gi as int,
            pre.glive(gi as int),
            has_key(pre.gmap(), h),
            idx_of(pre.gmap(), h) == hi as int,
            pre.glive(hi as int),
            self.gmap() == pre.gmap(),
            self.amap() == pre.amap(),
            self.aslots() == pre.aslots(),
            self.grantees_arena.wf(),
            self.actions_arena.wf(),
            self.gslots().len() == pre.gslots().len(),
            self.glive(gi as int),
            self.glive(hi as int),
            self.gnode(gi as int).grantee_of@ == pre.gnode(gi as int).grantee_of@.push(hi),
            self.gnode(gi as int).grantees@ == pre.gnode(gi as int).grantees@,
            self.gnode(gi as int).actions@ == pre.gnode(gi as int).actions@,
            self.gnode(gi as int).is_root == pre.gnode(gi as int).is_root,
            self.gnode(hi as int).grantee_of@ == pre.gnode(hi as int).grantee_of@,
            self.gnode(hi as int).grantees@ == pre.gnode(hi as int).grantees@.push(gi),
            self.gnode(hi as int).actions@ == pre.gnode(hi as int).actions@,
            self.gnode(hi as int).is_root == pre.gnode(hi as int).is_root,
            forall|i: int|
                0 <= i < self.gslots().len() && i != gi as int && i != hi as int
                    ==> #[trigger] self.gslots()[i] == pre.gslots()[i],
        ensures
            self.wf(),
            self.model() == pre.model().connect_grantees_m(g, h),
    {
        let es = pre.gmap();
        lemma_entries_bijective(es);
        lemma_list_has_push(pre.gnode(gi as int).grantee_of@, hi);
        lemma_list_has_push(pre.gnode(hi as int).grantees@, gi);

        assert forall|i: int| pre.glive(i) implies self.glive(i) by {}
        assert forall|i: int| self.glive(i) implies pre.glive(i) by {}
        assert forall|i: int|
            self.glive(i) && i != gi as int && i != hi as int implies self.gnode(i) == pre.gnode(
            i,
        ) by {}

        assert(Self::table_ok(self.gmap(), self.gslots())) by {
            assert forall|i: int|
                0 <= i < self.gslots().len() && (#[trigger] self.gslots()[i]) is Some
                implies has_val(es, i) by {
                assert(pre.glive(i));
            }
        }
        assert(Self::table_ok(self.amap(), self.aslots())) by {
            assert forall|i: int|
                0 <= i < self.aslots().len() && (#[trigger] self.aslots()[i]) is Some
                implies has_val(pre.amap(), i) by {
                assert(pre.alive(i));
            }
        }

        assert(self.edges_ok()) by {
            assert forall|i: int, j: int|
                self.glive(i) && 0 <= j < self.gnode(i).grantee_of@.len() implies {
                let x = (#[trigger] self.gnode(i).grantee_of@[j]) as int;
                x != i && self.glive(x) && list_has(self.gnode(x).grantees@, i)
            } by {
                if i == gi as int && j == pre.gnode(gi as int).grantee_of@.len() {
                    assert((self.gnode(i).grantee_of@[j] as int) == hi as int);
                    assert(list_has(self.gnode(hi as int).grantees@, gi as int));
                } else {
                    let x = (pre.gnode(i).grantee_of@[j]) as int;
                    assert(self.gnode(i).grantee_of@[j] == pre.gnode(i).grantee_of@[j]);
                    assert(pre.glive(x) && list_has(pre.gnode(x).grantees@, i));
                    if x == hi as int {
                        assert(list_has(self.gnode(x).grantees@, i));
                    } else {
                        assert(self.gnode(x).grantees@ == pre.gnode(x).grantees@);
                    }
                }
            }
            assert forall|i: int, j: int|
                self.glive(i) && 0 <= j < self.gnode(i).grantees@.len() implies {
                let x = (#[trigger] self.gnode(i).grantees@[j]) as int;
                x != i && self.glive(x) && list_has(self.gnode(x).grantee_of@, i)
            } by {
                if i == hi as int && j == pre.gnode(hi as int).grantees@.len() {
                    assert((self.gnode(i).grantees@[j] as int) == gi as int);
                    assert(list_has(self.gnode(gi as int).grantee_of@, hi as int));
                } else {
                    let x = (pre.gnode(i).grantees@[j]) as int;
                    assert(self.gnode(i).grantees@[j] == pre.gnode(i).grantees@[j]);
                    assert(pre.glive(x) && list_has(pre.gnode(x).grantee_of@, i));
                    if x == gi as int {
                        assert(list_has(self.gnode(x).grantee_of@, i));
                    } else {
                        assert(self.gnode(x).grantee_of@ == pre.gnode(x).grantee_of@);
                    }
                }
            }
            assert forall|i: int, j: int|
                self.glive(i) && 0 <= j < self.gnode(i).actions@.len() implies {
                let x = (#[trigger] self.gnode(i).actions@[j]) as int;
                self.alive(x) && list_has(self.anode(x).grantees@, i)
            } by {
                assert(self.gnode(i).actions@ == pre.gnode(i).actions@);
                let x = (pre.gnode(i).actions@[j]) as int;
                assert(pre.alive(x) && list_has(pre.anode(x).grantees@, i));
                assert(self.anode(x) == pre.anode(x));
            }
            assert forall|i: int, j: int|
                self.alive(i) && 0 <= j < self.anode(i).grantees@.len() implies {
                let x = (#[trigger] self.anode(i).grantees@[j]) as int;
                self.glive(x) && list_has(self.gnode(x).actions@, i)
            } by {
                assert(self.anode(i) == pre.anode(i));
                let x = (pre.anode(i).grantees@[j]) as int;
                assert(pre.glive(x) && list_has(pre.gnode(x).actions@, i));
                assert(self.gnode(x).actions@ == pre.gnode(x).actions@);
            }
            assert forall|i: int, j: int|
                self.alive(i) && 0 <= j < self.anode(i).main_action_of@.len() implies {
                let x = (#[trigger] self.anode(i).main_action_of@[j]) as int;
                x != i && self.alive(x) && list_has(self.anode(x).sub_action_of@, i)
            } by {
                assert(self.anode(i) == pre.anode(i));
                let x = (pre.anode(i).main_action_of@[j]) as int;
                assert(pre.alive(x) && list_has(pre.anode(x).sub_action_of@, i));
                assert(self.anode(x) == pre.anode(x));
            }
            assert forall|i: int, j: int|
                self.alive(i) && 0 <= j < self.anode(i).sub_action_of@.len() implies {
                let x = (#[trigger] self.anode(i).sub_action_of@[j]) as int;
                x != i && self.alive(x) && list_has(self.anode(x).main_action_of@, i)
            } by {
                assert(self.anode(i) == pre.anode(i));
                let x = (pre.anode(i).sub_action_of@[j]) as int;
                assert(pre.alive(x) && list_has(pre.anode(x).main_action_of@, i));
                assert(self.anode(x) == pre.anode(x));
            }
        }

        let m1 = self.model();
        let m2 = pre.model().connect_grantees_m(g, h);
        assert(pre.model().ensure_grantee(g) == pre.model());
        assert(pre.model().ensure_grantee(h) == pre.model());
        lemma_ids_of_push_elem(es, pre.gnode(gi as int).grantee_of@, hi);
        assert(key_of(es, hi as int) == h);
        assert forall|g2: u64| m1.grantees.dom().contains(g2) implies #[trigger] m1.grantees[g2]
            =~= m2.grantees[g2] by {
            let i = idx_of(es, g2);
            assert(has_key(es, g2));
            assert(pre.glive(i));
            assert(key_of(es, i) == g2);
            if g2 == g {
                assert(i == gi as int);
                assert(m1.grantees[g2].parents =~= m2.grantees[g2].parents);
                assert(m1.grantees[g2].acts =~= m2.grantees[g2].acts);
            } else if g2 == h {
                assert(i == hi as int);
                assert(self.gnode(i).grantee_of@ == pre.gnode(i).grantee_of@);
                assert(self.gnode(i).actions@ == pre.gnode(i).actions@);
            } else {
                assert(i != gi as int && i != hi as int);
                assert(self.gnode(i) == pre.gnode(i));
            }
        }
        assert(m1.grantees =~= m2.grantees);
        assert forall|a2: u64| m1.actions.dom().contains(a2) implies #[trigger] m1.actions[a2]
            =~= m2.actions[a2] by {
            let i = idx_of(pre.amap(), a2);
            assert(has_key(pre.amap(), a2));
            assert(pre.alive(i));
            assert(self.anode(i) == pre.anode(i));
        }
        assert(m1.actions =~= m2.actions);
        assert(m1 =~= m2);
    }

    /// Makes `main_action_id` a super-action of `sub_action_id`: whoever may
    /// perform the main action may also perform the sub action.  Either
    /// action is created if it does not exist yet; a self-connection is
    /// silently ignored.
    pub fn connect_actions(&mut self, main_action_id: u64, sub_action_id: u64)
        requires
            old(self).wf(),
        ensures
            final(self).wf(),
            final(self).model() == old(self).model().connect_actions_m(
                main_action_id,
                sub_action_id,
            ),
    {
        let mi = self.get_action(main_action_id);
        let si = self.get_action(sub_action_id);
        if mi == si {
            proof {
                if main_action_id != sub_action_id {
                    lemma_entries_bijective(self.amap());
                    assert(key_of(self.amap(), mi as int) == main_action_id);
                    assert(key_of(self.amap(), si as int) == sub_action_id);
                    assert(false);
                }
            }
            return ;
        }
        let ghost mid = *self;
        self.actions_arena.get_mut(si).sub_action_of.push(mi);
        self.actions_arena.get_mut(mi).main_action_of.push(si);
        proof {
            assert(main_action_id != sub_action_id) by {
                if main_action_id == sub_action_id {
                    assert(idx_of(mid.amap(), main_action_id) == mi as int);
                }
            }
            self.lemma_after_connect_actions(mid, mi, si, main_action_id, sub_action_id);
        }
    }

    /// The state change of pushing a super-action edge onto both endpoints.
    proof fn lemma_after_connect_actions(
        &self,
        pre: CanDo,
        mi: usize,
        si: usize,
        main: u64,
        sub: u64,
    )
        requires
            pre.wf(),
            main != sub,
            mi != si,
            has_key(pre.amap(), main),
            idx_of(pre.amap(), main) == mi as int,
            pre.alive(mi as int),
            has_key(pre.amap(), sub),
            idx_of(pre.amap(), sub) == si as int,
            pre.alive(si as int),
            self.gmap() == pre.gmap(),
            self.amap() == pre.amap(),
            self.gslots() == pre.gslots(),
            self.grantees_arena.wf(),
            self.actions_arena.wf(),
            self.aslots().len() == pre.aslots().len(),
            self.alive(mi as int),
            self.alive(si as int),
            self.anode(si as int).sub_action_of@ == pre.anode(si as int).sub_action_of@.push(mi),
            self.anode(si as int).main_action_of@ == pre.anode(si as int).main_action_of@,
            self.anode(si as int).grantees@ == pre.anode(si as int).grantees@,
            self.anode(mi as int).main_action_of@ == pre.anode(mi as int).main_action_of@.push(
                si,
            ),
            self.anode(mi as int).sub_action_of@ == pre.anode(mi as int).sub_action_of@,
            self.anode(mi as int).grantees@ == pre.anode(mi as int).grantees@,
            forall|i: int|
                0 <= i < self.aslots().len() && i != mi as int && i != si as int
                    ==> #[trigger] self.aslots()[i] == pre.aslots()[i],
        ensures
            self.wf(),
            self.model() == pre.model().connect_actions_m(main, sub),
    {
        let aes = pre.amap();
        lemma_entries_bijective(aes);
        lemma_list_has_push(pre.anode(si as int).sub_action_of@, mi);
        lemma_list_has_push(pre.anode(mi as int).main_action_of@, si);

        assert forall|i: int| pre.alive(i) implies self.alive(i) by {}
        assert forall|i: int| self.alive(i) implies pre.alive(i) by {}
        assert forall|i: int|
            self.alive(i) && i != mi as int && i != si as int implies self.anode(i) == pre.anode(
            i,
        ) by {}

        assert(Self::table_ok(self.gmap(), self.gslots())) by {
            assert forall|i: int|
                0 <= i < self.gslots().len() && (#[trigger] self.gslots()[i]) is Some
                implies has_val(pre.gmap(), i) by {
                assert(pre.glive(i));
            }
        }
        assert(Self::table_ok(self.amap(), self.aslots())) by {
            assert forall|i: int|
                0 <= i < self.aslots().len() && (#[trigger] self.aslots()[i]) is Some
                implies has_val(aes, i) by {
                assert(pre.alive(i));
            }
        }

        assert(self.edges_ok()) by {
            assert forall|i: int, j: int|
                self.glive(i) && 0 <= j < self.gnode(i).grantee_of@.len() implies {
                let x = (#[trigger] self.gnode(i).grantee_of@[j]) as int;
                x != i && self.glive(x) && list_has(self.gnode(x).grantees@, i)
            } by {
                assert(self.gnode(i) == pre.gnode(i));
                let x = (pre.gnode(i).grantee_of@[j]) as int;
                assert(pre.glive(x) && list_has(pre.gnode(x).grantees@, i));
            }
            assert forall|i: int, j: int|
                self.glive(i) && 0 <= j < self.gnode(i).grantees@.len() implies {
                let x = (#[trigger] self.gnode(i).grantees@[j]) as int;
                x != i && self.glive(x) && list_has(self.gnode(x).grantee_of@, i)
            } by {
                assert(self.gnode(i) == pre.gnode(i));
                let x = (pre.gnode(i).grantees@[j]) as int;
                assert(pre.glive(x) && list_has(pre.gnode(x).grantee_of@, i));
            }
            assert forall|i: int, j: int|
                self.glive(i) && 0 <= j < self.gnode(i).actions@.len() implies {
                let x = (#[trigger] self.gnode(i).actions@[j]) as int;
                self.alive(x) && list_has(self.anode(x).grantees@, i)
            } by {
                assert(self.gnode(i) == pre.gnode(i));
                let x = (pre.gnode(i).actions@[j]) as int;
                assert(pre.alive(x) && list_has(pre.anode(x).grantees@, i));
                assert(self.anode(x).grantees@ == pre.anode(x).grantees@);
            }
            assert forall|i: int, j: int|
                self.alive(i) && 0 <= j < self.anode(i).grantees@.len() implies {
                let x = (#[trigger] self.anode(i).grantees@[j]) as int;
                self.glive(x) && list_has(self.gnode(x).actions@, i)
            } by {
                assert(self.anode(i).grantees@ == pre.anode(i).grantees@);
                let x = (pre.anode(i).grantees@[j]) as int;
                assert(pre.glive(x) && list_has(pre.gnode(x).actions@, i));
                assert(self.gnode(x) == pre.gnode(x));
            }
            assert forall|i: int, j: int|
                self.alive(i) && 0 <= j < self.anode(i).main_action_of@.len() implies {
                let x = (#[trigger] self.anode(i).main_action_of@[j]) as int;
                x != i && self.alive(x) && list_has(self.anode(x).sub_action_of@, i)
            } by {
                if i == mi as int && j == pre.anode(mi as int).main_action_of@.len() {
                    assert((self.anode(i).main_action_of@[j] as int) == si as int);
                    assert(list_has(self.anode(si as int).sub_action_of@, mi as int));
                } else {
                    let x = (pre.anode(i).main_action_of@[j]) as int;
                    assert(self.anode(i).main_action_of@[j] == pre.anode(i).main_action_of@[j]);
                    assert(pre.alive(x) && list_has(pre.anode(x).sub_action_of@, i));
                    if x == si as int {
                        assert(list_has(self.anode(x).sub_action_of@, i));
                    } else {
                        assert(self.anode(x).sub_action_of@ == pre.anode(x).sub_action_of@);
                    }
                }
            }
            assert forall|i: int, j: int|
                self.alive(i) && 0 <= j < self.anode(i).sub_action_of@.len() implies {
                let x = (#[trigger] self.anode(i).sub_action_of@[j]) as int;
                x != i && self.alive(x) && list_has(self.anode(x).main_action_of@, i)
            } by {
                if i == si as int && j == pre.anode(si as int).sub_action_of@.len() {
                    assert((self.anode(i).sub_action_of@[j] as int) == mi as int);
                    assert(list_has(self.anode(mi as int).main_action_of@, si as int));
                } else {
                    let x = (pre.anode(i).sub_action_of@[j]) as int;
                    assert(self.anode(i).sub_action_of@[j] == pre.anode(i).sub_action_of@[j]);
                    assert(pre.alive(x) && list_has(pre.anode(x).main_action_of@, i));
                    if x == mi as int {
                        assert(list_has(self.anode(x).main_action_of@, i));
                    } else {
                        assert(self.anode(x).main_action_of@ == pre.anode(x).main_action_of@);
                    }
                }
            }
        }

        let m1 = self.model();
        let m2 = pre.model().connect_actions_m(main, sub);
        assert(pre.model().ensure_action(main) == pre.model());
        assert(pre.model().ensure_action(sub) == pre.model());
        lemma_ids_of_push_elem(aes, pre.anode(si as int).sub_action_of@, mi);
        assert(key_of(aes, mi as int) == main);
        assert forall|g2: u64| m1.grantees.dom().contains(g2) implies #[trigger] m1.grantees[g2]
            =~= m2.grantees[g2] by {
            let i = idx_of(pre.gmap(), g2);
            assert(has_key(pre.gmap(), g2));
            assert(pre.glive(i));
            assert(self.gnode(i) == pre.gnode(i));
        }
        assert(m1.grantees =~= m2.grantees);
        assert forall|a2: u64| m1.actions.dom().contains(a2) implies #[trigger] m1.actions[a2]
            =~= m2.actions[a2] by {
            let i = idx_of(aes, a2);
            assert(has_key(aes, a2));
            assert(pre.alive(i));
            assert(key_of(aes, i) == a2);
            if a2 == sub {
                assert(i == si as int);
                assert(m1.actions[a2] =~= m2.actions[a2]);
            } else {
                assert(i != si as int);
                assert(self.anode(i).sub_action_of@ == pre.anode(i).sub_action_of@);
            }
        }
        assert(m1.actions =~= m2.actions);
        assert(m1 =~= m2);
    }

    /// Marks `grantee_id` as a root, creating it if it does not exist yet.
    /// Roots are not removed when compacting.
    pub fn add_root(&mut self, grantee_id: u64)
        requires
            old(self).wf(),
        ensures
            final(self).wf(),
            final(self).model() == old(self).model().add_root_m(grantee_id),
    {
        let gi = self.get_grantee(grantee_id);
        let ghost mid = *self;
        self.grantees_arena.get_mut(gi).is_root = true;
        proof {
            self.lemma_after_set_root(mid, gi, grantee_id, true);
        }
    }

    /// Removes the root mark of `grantee_id`, creating it if it does not
    /// exist yet.
    pub fn remove_root(&mut self, grantee_id: u64)
        requires
            old(self).wf(),
        ensures
            final(self).wf(),
            final(self).model() == old(self).model().remove_root_m(grantee_id),
    {
        let gi = self.get_grantee(grantee_id);
        let ghost mid = *self;
        self.grantees_arena.get_mut(gi).is_root = false;
        proof {
            self.lemma_after_set_root(mid, gi, grantee_id, false);
        }
    }

    /// The state change of flipping a root mark: the edge structure, and so
    /// everything of the model except one root flag, is untouched.
    proof fn lemma_after_set_root(&self, pre: CanDo, gi: usize, g: u64, root: bool)
        requires
            pre.wf(),
            has_key(pre.gmap(), g),
            idx_of(pre.gmap(), g) == gi as int,
            pre.glive(gi as int),
            self.gmap() == pre.gmap(),
            self.amap() == pre.amap(),
            self.aslots() == pre.aslots(),
            self.grantees_arena.wf(),
            self.actions_arena.wf(),
            self.gslots().len() == pre.gslots().len(),
            self.glive(gi as int),
            self.gnode(gi as int).grantee_of@ == pre.gnode(gi as int).grantee_of@,
            self.gnode(gi as int).grantees@ == pre.gnode(gi as int).grantees@,
            self.gnode(gi as int).actions@ == pre.gnode(gi as int).actions@,
            self.gnode(gi as int).is_root == root,
            forall|i: int|
                0 <= i < self.gslots().len() && i != gi as int ==> #[trigger] self.gslots()[i]
                    == pre.gslots()[i],
        ensures
            self.wf(),
            root ==> self.model() == pre.model().add_root_m(g),
            !root ==> self.model() == pre.model().remove_root_m(g),
    {
        let es = pre.gmap();
        lemma_entries_bijective(es);

        assert forall|i: int| pre.glive(i) implies self.glive(i) by {}
        assert forall|i: int| self.glive(i) implies pre.glive(i) by {}
        assert forall|i: int| self.glive(i) && i != gi as int implies self.gnode(i) == pre.gnode(
            i,
        ) by {}

        assert(Self::table_ok(self.gmap(), self.gslots())) by {
            assert forall|i: int|
                0 <= i < self.gslots().len() && (#[trigger] self.gslots()[i]) is Some
                implies has_val(es, i) by {
                assert(pre.glive(i));
            }
        }
        assert(Self::table_ok(self.amap(), self.aslots())) by {
            assert forall|i: int|
                0 <= i < self.aslots().len() && (#[trigger] self.aslots()[i]) is Some
                implies has_val(pre.amap(), i) by {
                assert(pre.alive(i));
            }
        }

        assert(self.edges_ok()) by {
            assert forall|i: int, j: int|
                self.glive(i) && 0 <= j < self.gnode(i).grantee_of@.len() implies {
                let x = (#[trigger] self.gnode(i).grantee_of@[j]) as int;
                x != i && self.glive(x) && list_has(self.gnode(x).grantees@, i)
            } by {
                assert(self.gnode(i).grantee_of@ == pre.gnode(i).grantee_of@);
                let x = (pre.gnode(i).grantee_of@[j]) as int;
                assert(pre.glive(x) && list_has(pre.gnode(x).grantees@, i));
                assert(self.gnode(x).grantees@ == pre.gnode(x).grantees@);
            }
            assert forall|i: int, j: int|
                self.glive(i) && 0 <= j < self.gnode(i).grantees@.len() implies {
                let x = (#[trigger] self.gnode(i).grantees@[j]) as int;
                x != i && self.glive(x) && list_has(self.gnode(x).grantee_of@, i)
            } by {
                assert(self.gnode(i).grantees@ == pre.gnode(i).grantees@);
                let x = (pre.gnode(i).grantees@[j]) as int;
                assert(pre.glive(x) && list_has(pre.gnode(x).grantee_of@, i));
                assert(self.gnode(x).grantee_of@ == pre.gnode(x).grantee_of@);
            }
            assert forall|i: int, j: int|
                self.glive(i) && 0 <= j < self.gnode(i).actions@.len() implies {
                let x = (#[trigger] self.gnode(i).actions@[j]) as int;
                self.alive(x) && list_has(self.anode(x).grantees@, i)
            } by {
                assert(self.gnode(i).actions@ == pre.gnode(i).actions@);
                let x = (pre.gnode(i).actions@[j]) as int;
                assert(pre.alive(x) && list_has(pre.anode(x).grantees@, i));
                assert(self.anode(x) == pre.anode(x));
            }
            assert forall|i: int, j: int|
                self.alive(i) && 0 <= j < self.anode(i).grantees@.len() implies {
                let x = (#[trigger] self.anode(i).grantees@[j]) as int;
                self.glive(x) && list_has(self.gnode(x).actions@, i)
            } by {
                assert(self.anode(i) == pre.anode(i));
                let x = (pre.anode(i).grantees@[j]) as int;
                assert(pre.glive(x) && list_has(pre.gnode(x).actions@, i));
                assert(self.gnode(x).actions@ == pre.gnode(x).actions@);
            }
            assert forall|i: int, j: int|
                self.alive(i) && 0 <= j < self.anode(i).main_action_of@.len() implies {
                let x = (#[trigger] self.anode(i).main_action_of@[j]) as int;
                x != i && self.alive(x) && list_has(self.anode(x).sub_action_of@, i)
            } by {
                assert(self.anode(i) == pre.anode(i));
                let x = (pre.anode(i).main_action_of@[j]) as int;
                assert(pre.alive(x) && list_has(pre.anode(x).sub_action_of@, i));
                assert(self.anode(x) == pre.anode(x));
            }
            assert forall|i: int, j: int|
                self.alive(i) && 0 <= j < self.anode(i).sub_action_of@.len() implies {
                let x = (#[trigger] self.anode(i).sub_action_of@[j]) as int;
                x != i && self.alive(x) && list_has(self.anode(x).main_action_of@, i)
            } by {
                assert(self.anode(i) == pre.anode(i));
                let x = (pre.anode(i).sub_action_of@[j]) as int;
                assert(pre.alive(x) && list_has(pre.anode(x).main_action_of@, i));
                assert(self.anode(x) == pre.anode(x));
            }
        }

        let m1 = self.model();
        let m2 = if root {
            pre.model().add_root_m(g)
        } else {
            pre.model().remove_root_m(g)
        };
        assert(pre.model().ensure_grantee(g) == pre.model());
        assert forall|g2: u64| m1.grantees.dom().contains(g2) implies #[trigger] m1.grantees[g2]
            =~= m2.grantees[g2] by {
            let i = idx_of(es, g2);
            assert(has_key(es, g2));
            assert(pre.glive(i));
            assert(key_of(es, i) == g2);
            if g2 == g {
                assert(i == gi as int);
                assert(m1.grantees[g2].parents =~= m2.grantees[g2].parents);
                assert(m1.grantees[g2].acts =~= m2.grantees[g2].acts);
            } else {
                assert(i != gi as int);
                assert(self.gnode(i) == pre.gnode(i));
            }
        }
        assert(m1.grantees =~= m2.grantees);
        assert forall|a2: u64| m1.actions.dom().contains(a2) implies #[trigger] m1.actions[a2]
            =~= m2.actions[a2] by {
            let i = idx_of(pre.amap(), a2);
            assert(has_key(pre.amap(), a2));
            assert(pre.alive(i));
            assert(self.anode(i) == pre.anode(i));
        }
        assert(m1.actions =~= m2.actions);
        assert(m1 =~= m2);
    }

    /// Revokes the direct grant of `action_id` to `grantee_id`.  Fails if
    /// either id is unknown; removing an absent grant is not an error.
    pub fn remove_grant(&mut self, grantee_id: u64, action_id: u64) -> (r: Result<
        (),
        CanDoError,
    >)
        requires
            old(self).wf(),
        ensures
            final(self).wf(),
            r matches Ok(_) <==> old(self).model().has_grantee(grantee_id) && old(
                self,
            ).model().has_action(action_id),
            r matches Ok(_) ==> final(self).model() == old(self).model().remove_grant_m(
                grantee_id,
                action_id,
            ),
            r matches Err(e) ==> final(self).model() == old(self).model() && ((e
                == CanDoError::GranteeNotFound && !old(self).model().has_grantee(grantee_id)) || (e
                == CanDoError::ActionNotFound && old(self).model().has_grantee(grantee_id) && !old(
                self,
            ).model().has_action(action_id))),
    {
        let gi = match self.lookup_grantee(grantee_id) {
            Some(gi) => gi,
            None => {
                return Err(CanDoError::GranteeNotFound);
            },
        };
        let ai = match self.lookup_action(action_id) {
            Some(ai) => ai,
            None => {
                return Err(CanDoError::ActionNotFound);
            },
        };
        let ghost pre = *self;
        let gn = self.grantees_arena.get_mut(gi);
        remove_all(&mut gn.actions, ai);
        let an = self.actions_arena.get_mut(ai);
        remove_all(&mut an.grantees, gi);
        proof {
            self.lemma_after_remove_grant(pre, gi, ai, grantee_id, action_id);
        }
        Ok(())
    }

    /// The state change of filtering a grant edge out of both endpoints.
    proof fn lemma_after_remove_grant(&self, pre: CanDo, gi: usize, ai: usize, g: u64, a: u64)
        requires
            pre.wf(),
            has_key(pre.gmap(), g),
            idx_of(pre.gmap(), g) == gi as int,
            pre.glive(gi as int),
            has_key(pre.amap(), a),
            idx_of(pre.amap(), a) == ai as int,
            pre.alive(ai as int),
            self.gmap() == pre.gmap(),
            self.amap() == pre.amap(),
            self.grantees_arena.wf(),
            self.actions_arena.wf(),
            self.gslots().len() == pre.gslots().len(),
            self.aslots().len() == pre.aslots().len(),
            self.glive(gi as int),
            self.alive(ai as int),
            self.gnode(gi as int).grantee_of@ == pre.gnode(gi as int).grantee_of@,
            self.gnode(gi as int).grantees@ == pre.gnode(gi as int).grantees@,
            self.gnode(gi as int).is_root == pre.gnode(gi as int).is_root,
            forall|i: int| #[trigger]
                list_has(self.gnode(gi as int).actions@, i) <==> list_has(
                    pre.gnode(gi as int).actions@,
                    i,
                ) && i != ai as int,
            self.anode(ai as int).main_action_of@ == pre.anode(ai as int).main_action_of@,
            self.anode(ai as int).sub_action_of@ == pre.anode(ai as int).sub_action_of@,
            forall|i: int| #[trigger]
                list_has(self.anode(ai as int).grantees@, i) <==> list_has(
                    pre.anode(ai as int).grantees@,
                    i,
                ) && i != gi as int,
            forall|i: int|
                0 <= i < self.gslots().len() && i != gi as int ==> #[trigger] self.gslots()[i]
                    == pre.gslots()[i],
            forall|i: int|
                0 <= i < self.aslots().len() && i != ai as int ==> #[trigger] self.aslots()[i]
                    == pre.aslots()[i],
        ensures
            self.wf(),
            self.model() == pre.model().remove_grant_m(g, a),
    {
        let es = pre.gmap();
        let aes = pre.amap();
        lemma_entries_bijective(es);
        lemma_entries_bijective(aes);

        assert forall|i: int| pre.glive(i) <==> self.glive(i) by {}
        assert forall|i: int| pre.alive(i) <==> self.alive(i) by {}
        assert forall|i: int| self.glive(i) && i != gi as int implies self.gnode(i) == pre.gnode(
            i,
        ) by {}
        assert forall|i: int| self.alive(i) && i != ai as int implies self.anode(i) == pre.anode(
            i,
        ) by {}

        assert(Self::table_ok(self.gmap(), self.gslots())) by {
            assert forall|i: int|
                0 <= i < self.gslots().len() && (#[trigger] self.gslots()[i]) is Some
                implies has_val(es, i) by {
                assert(pre.glive(i));
            }
        }
        assert(Self::table_ok(self.amap(), self.aslots())) by {
            assert forall|i: int|
                0 <= i < self.aslots().len() && (#[trigger] self.aslots()[i]) is Some
                implies has_val(aes, i) by {
                assert(pre.alive(i));
            }
        }

        assert(self.edges_ok()) by {
            assert forall|i: int, j: int|
                self.glive(i) && 0 <= j < self.gnode(i).grantee_of@.len() implies {
                let x = (#[trigger] self.gnode(i).grantee_of@[j]) as int;
                x != i && self.glive(x) && list_has(self.gnode(x).grantees@, i)
            } by {
                assert(self.gnode(i).grantee_of@ == pre.gnode(i).grantee_of@);
                let x = (pre.gnode(i).grantee_of@[j]) as int;
                assert(x != i && pre.glive(x) && list_has(pre.gnode(x).grantees@, i));
                assert(self.gnode(x).grantees@ == pre.gnode(x).grantees@);
            }
            assert forall|i: int, j: int|
                self.glive(i) && 0 <= j < self.gnode(i).grantees@.len() implies {
                let x = (#[trigger] self.gnode(i).grantees@[j]) as int;
                x != i && self.glive(x) && list_has(self.gnode(x).grantee_of@, i)
            } by {
                assert(self.gnode(i).grantees@ == pre.gnode(i).grantees@);
                let x = (pre.gnode(i).grantees@[j]) as int;
                assert(x != i && pre.glive(x) && list_has(pre.gnode(x).grantee_of@, i));
                assert(self.gnode(x).grantee_of@ == pre.gnode(x).grantee_of@);
            }
            assert forall|i: int, j: int|
                self.glive(i) && 0 <= j < self.gnode(i).actions@.len() implies {
                let x = (#[trigger] self.gnode(i).actions@[j]) as int;
                self.alive(x) && list_has(self.anode(x).grantees@, i)
            } by {
                let x = (self.gnode(i).actions@[j]) as int;
                assert(list_has(self.gnode(i).actions@, x));
                if i == gi as int {
                    assert(list_has(pre.gnode(i).actions@, x) && x != ai as int);
                } else {
                    assert(self.gnode(i).actions@ == pre.gnode(i).actions@);
                    assert(list_has(pre.gnode(i).actions@, x));
                }
                let l = choose|l: int|
                    0 <= l < pre.gnode(i).actions@.len() && (((#[trigger] pre.gnode(
                        i,
                    ).actions@[l])) as int) == x;
                assert(pre.alive(x) && list_has(pre.anode(x).grantees@, i));
                if x == ai as int {
                    assert(i != gi as int);
                    assert(list_has(self.anode(x).grantees@, i));
                } else {
                    assert(self.anode(x).grantees@ == pre.anode(x).grantees@);
                }
            }
            assert forall|i: int, j: int|
                self.alive(i) && 0 <= j < self.anode(i).grantees@.len() implies {
                let x = (#[trigger] self.anode(i).grantees@[j]) as int;
                self.glive(x) && list_has(self.gnode(x).actions@, i)
            } by {
                let x = (self.anode(i).grantees@[j]) as int;
                assert(list_has(self.anode(i).grantees@, x));
                if i == ai as int {
                    assert(list_has(pre.anode(i).grantees@, x) && x != gi as int);
                } else {
                    assert(self.anode(i).grantees@ == pre.anode(i).grantees@);
                    assert(list_has(pre.anode(i).grantees@, x));
                }
                let l = choose|l: int|
                    0 <= l < pre.anode(i).grantees@.len() && (((#[trigger] pre.anode(
                        i,
                    ).grantees@[l])) as int) == x;
                assert(pre.glive(x) && list_has(pre.gnode(x).actions@, i));
                if x == gi as int {
                    assert(i != ai as int);
                    assert(list_has(self.gnode(x).actions@, i));
                } else {
                    assert(self.gnode(x).actions@ == pre.gnode(x).actions@);
                }
            }
            assert forall|i: int, j: int|
                self.alive(i) && 0 <= j < self.anode(i).main_action_of@.len() implies {
                let x = (#[trigger] self.anode(i).main_action_of@[j]) as int;
                x != i && self.alive(x) && list_has(self.anode(x).sub_action_of@, i)
            } by {
                assert(self.anode(i).main_action_of@ == pre.anode(i).main_action_of@);
                let x = (pre.anode(i).main_action_of@[j]) as int;
                assert(x != i && pre.alive(x) && list_has(pre.anode(x).sub_action_of@, i));
                assert(self.anode(x).sub_action_of@ == pre.anode(x).sub_action_of@);
            }
            assert forall|i: int, j: int|
                self.alive(i) && 0 <= j < self.anode(i).sub_action_of@.len() implies {
                let x = (#[trigger] self.anode(i).sub_action_of@[j]) as int;
                x != i && self.alive(x) && list_has(self.anode(x).main_action_of@, i)
            } by {
                assert(self.anode(i).sub_action_of@ == pre.anode(i).sub_action_of@);
                let x = (pre.anode(i).sub_action_of@[j]) as int;
                assert(x != i && pre.alive(x) && list_has(pre.anode(x).main_action_of@, i));
                assert(self.anode(x).main_action_of@ == pre.anode(x).main_action_of@);
            }
        }

        let m1 = self.model();
        let m2 = pre.model().remove_grant_m(g, a);
        lemma_ids_of_filter_elem(
            aes,
            pre.gnode(gi as int).actions@,
            self.gnode(gi as int).actions@,
            ai,
        );
        assert(key_of(aes, ai as int) == a);
        assert forall|g2: u64| m1.grantees.dom().contains(g2) implies #[trigger] m1.grantees[g2]
            =~= m2.grantees[g2] by {
            let i = idx_of(es, g2);
            assert(has_key(es, g2));
            assert(pre.glive(i));
            assert(key_of(es, i) == g2);
            if g2 == g {
                assert(i == gi as int);
                assert(m1.grantees[g2].acts =~= m2.grantees[g2].acts);
                assert(m1.grantees[g2].parents =~= m2.grantees[g2].parents);
            } else {
                assert(i != gi as int);
                assert(self.gnode(i) == pre.gnode(i));
            }
        }
        assert(m1.grantees =~= m2.grantees);
        assert forall|a2: u64| m1.actions.dom().contains(a2) implies #[trigger] m1.actions[a2]
            =~= m2.actions[a2] by {
            let i = idx_of(aes, a2);
            assert(has_key(aes, a2));
            assert(pre.alive(i));
            if i == ai as int {
                assert(self.anode(i).sub_action_of@ == pre.anode(i).sub_action_of@);
            } else {
                assert(self.anode(i) == pre.anode(i));
            }
        }
        assert(m1.actions =~= m2.actions);
        assert(m1 =~= m2);
    }

    /// Removes the inheritance edge from `grantee_id` to `grantee_of_id`,
    /// on both endpoints.  Fails if either grantee is unknown; removing an
    /// absent edge is not an error.
    pub fn disconnect_grantees(&mut self, grantee_id: u64, grantee_of_id: u64) -> (r: Result<
        (),
        CanDoError,
    >)
        requires
            old(self).wf(),
        ensures
            final(self).wf(),
            r matches Ok(_) <==> old(self).model().has_grantee(grantee_id) && old(
                self,
            ).model().has_grantee(grantee_of_id),
            r matches Ok(_) ==> final(self).model() == old(self).model().disconnect_grantees_m(
                grantee_id,
                grantee_of_id,
            ),
            r matches Err(e) ==> final(self).model() == old(self).model() && e
                == CanDoError::GranteeNotFound && (!old(self).model().has_grantee(grantee_id)
                || !old(self).model().has_grantee(grantee_of_id)),
    {
        let gi = match self.lookup_grantee(grantee_id) {
            Some(gi) => gi,
            None => {
                return Err(CanDoError::GranteeNotFound);
            },
        };
        let hi = match self.lookup_grantee(grantee_of_id) {
            Some(hi) => hi,
            None => {
                return Err(CanDoError::GranteeNotFound);
            },
        };
        if gi == hi {
            proof {
                lemma_entries_bijective(self.gmap());
                assert(key_of(self.gmap(), gi as int) == grantee_id);
                assert(key_of(self.gmap(), hi as int) == grantee_of_id);
                assert(grantee_id == grantee_of_id);
            }
            return Ok(());
        }
        let ghost pre = *self;
        let gn = self.grantees_arena.get_mut(gi);
        remove_all(&mut gn.grantee_of, hi);
        let hn = self.grantees_arena.get_mut(hi);
        remove_all(&mut hn.grantees, gi);
        proof {
            assert(grantee_id != grantee_of_id) by {
                if grantee_id == grantee_of_id {
                    assert(idx_of(pre.gmap(), grantee_id) == gi as int);
                }
            }
            self.lemma_after_disconnect_grantees(pre, gi, hi, grantee_id, grantee_of_id);
        }
        Ok(())
    }

    /// The state change of filtering an inheritance edge out of both
    /// endpoints.
    proof fn lemma_after_disconnect_grantees(
        &self,
        pre: CanDo,
        gi: usize,
        hi: usize,
        g: u64,
        h: u64,
    )
        requires
            pre.wf(),
            g != h,
            gi != hi,
            has_key(pre.gmap(), g),
            idx_of(pre.gmap(), g) == gi as int,
            pre.glive(gi as int),
            has_key(pre.gmap(), h),
            idx_of(pre.gmap(), h) == hi as int,
            pre.glive(hi as int),
            self.gmap() == pre.gmap(),
            self.amap() == pre.amap(),
            self.aslots() == pre.aslots(),
            self.grantees_arena.wf(),
            self.actions_arena.wf(),
            self.gslots().len() == pre.gslots().len(),
            self.glive(gi as int),
            self.glive(hi as int),
            forall|i: int| #[trigger]
                list_has(self.gnode(gi as int).grantee_of@, i) <==> list_has(
                    pre.gnode(gi as int).grantee_of@,
                    i,
                ) && i != hi as int,
            self.gnode(gi as int).grantees@ == pre.gnode(gi as int).grantees@,
            self.gnode(gi as int).actions@ == pre.gnode(gi as int).actions@,
            self.gnode(gi as int).is_root == pre.gnode(gi as int).is_root,
            forall|i: int| #[trigger]
                list_has(self.gnode(hi as int).grantees@, i) <==> list_has(
                    pre.gnode(hi as int).grantees@,
                    i,
                ) && i != gi as int,
            self.gnode(hi as int).grantee_of@ == pre.gnode(hi as int).grantee_of@,
            self.gnode(hi as int).actions@ == pre.gnode(hi as int).actions@,
            self.gnode(hi as int).is_root == pre.gnode(hi as int).is_root,
            forall|i: int|
                0 <= i < self.gslots().len() && i != gi as int && i != hi as int
                    ==> #[trigger] self.gslots()[i] == pre.gslots()[i],
        ensures
            self.wf(),
            self.model() == pre.model().disconnect_grantees_m(g, h),
    {
        let es = pre.gmap();
        lemma_entries_bijective(es);

        assert forall|i: int| pre.glive(i) <==> self.glive(i) by {}
        assert forall|i: int|
            self.glive(i) && i != gi as int && i != hi as int implies self.gnode(i) == pre.gnode(
            i,
        ) by {}

        assert(Self::table_ok(self.gmap(), self.gslots())) by {
            assert forall|i: int|
                0 <= i < self.gslots().len() && (#[trigger] self.gslots()[i]) is Some
                implies has_val(es, i) by {
                assert(pre.glive(i));
            }
        }
        assert(Self::table_ok(self.amap(), self.aslots())) by {
            assert forall|i: int|
                0 <= i < self.aslots().len() && (#[trigger] self.aslots()[i]) is Some
                implies has_val(pre.amap(), i) by {
                assert(pre.alive(i));
            }
        }

        assert(self.edges_ok()) by {
            assert forall|i: int, j: int|
                self.glive(i) && 0 <= j < self.gnode(i).grantee_of@.len() implies {
                let x = (#[trigger] self.gnode(i).grantee_of@[j]) as int;
                x != i && self.glive(x) && list_has(self.gnode(x).grantees@, i)
            } by {
                let x = (self.gnode(i).grantee_of@[j]) as int;
                assert(list_has(self.gnode(i).grantee_of@, x));
                if i == gi as int {
                    assert(list_has(pre.gnode(i).grantee_of@, x) && x != hi as int);
                } else {
                    assert(self.gnode(i).grantee_of@ == pre.gnode(i).grantee_of@);
                    assert(list_has(pre.gnode(i).grantee_of@, x));
                }
                let l = choose|l: int|
                    0 <= l < pre.gnode(i).grantee_of@.len() && (((#[trigger] pre.gnode(
                        i,
                    ).grantee_of@[l])) as int) == x;
                assert(x != i && pre.glive(x) && list_has(pre.gnode(x).grantees@, i));
                if x == hi as int {
                    assert(i != gi as int);
                    assert(list_has(self.gnode(x).grantees@, i));
                } else if x == gi as int {
                    assert(self.gnode(x).grantees@ == pre.gnode(x).grantees@);
                } else {
                    assert(self.gnode(x).grantees@ == pre.gnode(x).grantees@);
                }
            }
            assert forall|i: int, j: int|
                self.glive(i) && 0 <= j < self.gnode(i).grantees@.len() implies {
                let x = (#[trigger] self.gnode(i).grantees@[j]) as int;
                x != i && self.glive(x) && list_has(self.gnode(x).grantee_of@, i)
            } by {
                let x = (self.gnode(i).grantees@[j]) as int;
                assert(list_has(self.gnode(i).grantees@, x));
                if i == hi as int {
                    assert(list_has(pre.gnode(i).grantees@, x) && x != gi as int);
                } else {
                    assert(self.gnode(i).grantees@ == pre.gnode(i).grantees@);
                    assert(list_has(pre.gnode(i).grantees@, x));
                }
                let l = choose|l: int|
                    0 <= l < pre.gnode(i).grantees@.len() && (((#[trigger] pre.gnode(
                        i,
                    ).grantees@[l])) as int) == x;
                assert(x != i && pre.glive(x) && list_has(pre.gnode(x).grantee_of@, i));
                if x == gi as int {
                    assert(i != hi as int);
                    assert(list_has(self.gnode(x).grantee_of@, i));
                } else {
                    assert(self.gnode(x).grantee_of@ == pre.gnode(x).grantee_of@);
                }
            }
            assert forall|i: int, j: int|
                self.glive(i) && 0 <= j < self.gnode(i).actions@.len() implies {
                let x = (#[trigger] self.gnode(i).actions@[j]) as int;
                self.alive(x) && list_has(self.anode(x).grantees@, i)
            } by {
                assert(self.gnode(i).actions@ == pre.gnode(i).actions@);
                let x = (pre.gnode(i).actions@[j]) as int;
                assert(pre.alive(x) && list_has(pre.anode(x).grantees@, i));
                assert(self.anode(x) == pre.anode(x));
            }
            assert forall|i: int, j: int|
                self.alive(i) && 0 <= j < self.anode(i).grantees@.len() implies {
                let x = (#[trigger] self.anode(i).grantees@[j]) as int;
                self.glive(x) && list_has(self.gnode(x).actions@, i)
            } by {
                assert(self.anode(i) == pre.anode(i));
                let x = (pre.anode(i).grantees@[j]) as int;
                assert(pre.glive(x) && list_has(pre.gnode(x).actions@, i));
                assert(self.gnode(x).actions@ == pre.gnode(x).actions@);
            }
            assert forall|i: int, j: int|
                self.alive(i) && 0 <= j < self.anode(i).main_action_of@.len() implies {
                let x = (#[trigger] self.anode(i).main_action_of@[j]) as int;
                x != i && self.alive(x) && list_has(self.anode(x).sub_action_of@, i)
            } by {
                assert(self.anode(i) == pre.anode(i));
                let x = (pre.anode(i).main_action_of@[j]) as int;
                assert(x != i && pre.alive(x) && list_has(pre.anode(x).sub_action_of@, i));
                assert(self.anode(x) == pre.anode(x));
            }
            assert forall|i: int, j: int|
                self.alive(i) && 0 <= j < self.anode(i).sub_action_of@.len() implies {
                let x = (#[trigger] self.anode(i).sub_action_of@[j]) as int;
                x != i && self.alive(x) && list_has(self.anode(x).main_action_of@, i)
            } by {
                assert(self.anode(i) == pre.anode(i));
                let x = (pre.anode(i).sub_action_of@[j]) as int;
                assert(x != i && pre.alive(x) && list_has(pre.anode(x).main_action_of@, i));
                assert(self.anode(x) == pre.anode(x));
            }
        }

        let m1 = self.model();
        let m2 = pre.model().disconnect_grantees_m(g, h);
        lemma_ids_of_filter_elem(
            es,
            pre.gnode(gi as int).grantee_of@,
            self.gnode(gi as int).grantee_of@,
            hi,
        );
        assert(key_of(es, hi as int) == h);
        assert forall|g2: u64| m1.grantees.dom().contains(g2) implies #[trigger] m1.grantees[g2]
            =~= m2.grantees[g2] by {
            let i = idx_of(es, g2);
            assert(has_key(es, g2));
            assert(pre.glive(i));
            assert(key_of(es, i) == g2);
            if g2 == g {
                assert(i == gi as int);
                assert(m1.grantees[g2].parents =~= m2.grantees[g2].parents);
                assert(m1.grantees[g2].acts =~= m2.grantees[g2].acts);
            } else if g2 == h {
                assert(i == hi as int);
                assert(self.gnode(i).grantee_of@ == pre.gnode(i).grantee_of@);
                assert(self.gnode(i).actions@ == pre.gnode(i).actions@);
            } else {
                assert(i != gi as int && i != hi as int);
                assert(self.gnode(i) == pre.gnode(i));
            }
        }
        assert(m1.grantees =~= m2.grantees);
        assert forall|a2: u64| m1.actions.dom().contains(a2) implies #[trigger] m1.actions[a2]
            =~= m2.actions[a2] by {
            let i = idx_of(pre.amap(), a2);
            assert(has_key(pre.amap(), a2));
            assert(pre.alive(i));
            assert(self.anode(i) == pre.anode(i));
        }
        assert(m1.actions =~= m2.actions);
        assert(m1 =~= m2);
    }

    /// Removes the super-action edge from `main_action_id` to
    /// `sub_action_id`, on both endpoints.  Fails if either action is
    /// unknown; removing an absent edge is not an error.
    pub fn disconnect_actions(&mut self, main_action_id: u64, sub_action_id: u64) -> (r: Result<
        (),
        CanDoError,
    >)
        requires
            old(self).wf(),
        ensures
            final(self).wf(),
            r matches Ok(_) <==> old(self).model().has_action(main_action_id) && old(
                self,
            ).model().has_action(sub_action_id),
            r matches Ok(_) ==> final(self).model() == old(self).model().disconnect_actions_m(
                main_action_id,
                sub_action_id,
            ),
            r matches Err(e) ==> final(self).model() == old(self).model() && e
                == CanDoError::ActionNotFound && (!old(self).model().has_action(main_action_id)
                || !old(self).model().has_action(sub_action_id)),
    {
        let mi = match self.lookup_action(main_action_id) {
            Some(mi) => mi,
            None => {
                return Err(CanDoError::ActionNotFound);
            },
        };
        let si = match self.lookup_action(sub_action_id) {
            Some(si) => si,
            None => {
                return Err(CanDoError::ActionNotFound);
            },
        };
        if mi == si {
            proof {
                lemma_entries_bijective(self.amap());
                assert(key_of(self.amap(), mi as int) == main_action_id);
                assert(key_of(self.amap(), si as int) == sub_action_id);
                assert(main_action_id == sub_action_id);
            }
            return Ok(());
        }
        let ghost pre = *self;
        let sn = self.actions_arena.get_mut(si);
        remove_all(&mut sn.sub_action_of, mi);
        let mn = self.actions_arena.get_mut(mi);
        remove_all(&mut mn.main_action_of, si);
        proof {
            assert(main_action_id != sub_action_id) by {
                if main_action_id == sub_action_id {
                    assert(idx_of(pre.amap(), main_action_id) == mi as int);
                }
            }
            self.lemma_after_disconnect_actions(pre, mi, si, main_action_id, sub_action_id);
        }
        Ok(())
    }

    /// The state change of filtering a super-action edge out of both
    /// endpoints.
    proof fn lemma_after_disconnect_actions(
        &self,
        pre: CanDo,
        mi: usize,
        si: usize,
        main: u64,
        sub: u64,
    )
        requires
            pre.wf(),
            main != sub,
            mi != si,
            has_key(pre.amap(), main),
            idx_of(pre.amap(), main) == mi as int,
            pre.alive(mi as int),
            has_key(pre.amap(), sub),
            idx_of(pre.amap(), sub) == si as int,
            pre.alive(si as int),
            self.gmap() == pre.gmap(),
            self.amap() == pre.amap(),
            self.gslots() == pre.gslots(),
            self.grantees_arena.wf(),
            self.actions_arena.wf(),
            self.aslots().len() == pre.aslots().len(),
            self.alive(mi as int),
            self.alive(si as int),
            forall|i: int| #[trigger]
                list_has(self.anode(si as int).sub_action_of@, i) <==> list_has(
                    pre.anode(si as int).sub_action_of@,
                    i,
                ) && i != mi as int,
            self.anode(si as int).main_action_of@ == pre.anode(si as int).main_action_of@,
            self.anode(si as int).grantees@ == pre.anode(si as int).grantees@,
            forall|i: int| #[trigger]
                list_has(self.anode(mi as int).main_action_of@, i) <==> list_has(
                    pre.anode(mi as int).main_action_of@,
                    i,
                ) && i != si as int,
            self.anode(mi as int).sub_action_of@ == pre.anode(mi as int).sub_action_of@,
            self.anode(mi as int).grantees@ == pre.anode(mi as int).grantees@,
            forall|i: int|
                0 <= i < self.aslots().len() && i != mi as int && i != si as int
                    ==> #[trigger] self.aslots()[i] == pre.aslots()[i],
        ensures
            self.wf(),
            self.model() == pre.model().disconnect_actions_m(main, sub),
    {
        let aes = pre.amap();
        lemma_entries_bijective(aes);

        assert forall|i: int| pre.alive(i) <==> self.alive(i) by {}
        assert forall|i: int|
            self.alive(i) && i != mi as int && i != si as int implies self.anode(i) == pre.anode(
            i,
        ) by {}

        assert(Self::table_ok(self.gmap(), self.gslots())) by {
            assert forall|i: int|
                0 <= i < self.gslots().len() && (#[trigger] self.gslots()[i]) is Some
                implies has_val(pre.gmap(), i) by {
                assert(pre.glive(i));
            }
        }
        assert(Self::table_ok(self.amap(), self.aslots())) by {
            assert forall|i: int|
                0 <= i < self.aslots().len() && (#[trigger] self.aslots()[i]) is Some
                implies has_val(aes, i) by {
                assert(pre.alive(i));
            }
        }

        assert(self.edges_ok()) by {
            assert forall|i: int, j: int|
                self.glive(i) && 0 <= j < self.gnode(i).grantee_of@.len() implies {
                let x = (#[trigger] self.gnode(i).grantee_of@[j]) as int;
                x != i && self.glive(x) && list_has(self.gnode(x).grantees@, i)
            } by {
                assert(self.gnode(i) == pre.gnode(i));
                let x = (pre.gnode(i).grantee_of@[j]) as int;
                assert(x != i && pre.glive(x) && list_has(pre.gnode(x).grantees@, i));
            }
            assert forall|i: int, j: int|
                self.glive(i) && 0 <= j < self.gnode(i).grantees@.len() implies {
                let x = (#[trigger] self.gnode(i).grantees@[j]) as int;
                x != i && self.glive(x) && list_has(self.gnode(x).grantee_of@, i)
            } by {
                assert(self.gnode(i) == pre.gnode(i));
                let x = (pre.gnode(i).grantees@[j]) as int;
                assert(x != i && pre.glive(x) && list_has(pre.gnode(x).grantee_of@, i));
            }
            assert forall|i: int, j: int|
                self.glive(i) && 0 <= j < self.gnode(i).actions@.len() implies {
                let x = (#[trigger] self.gnode(i).actions@[j]) as int;
                self.alive(x) && list_has(self.anode(x).grantees@, i)
            } by {
                assert(self.gnode(i) == pre.gnode(i));
                let x = (pre.gnode(i).actions@[j]) as int;
                assert(pre.alive(x) && list_has(pre.anode(x).grantees@, i));
                assert(self.anode(x).grantees@ == pre.anode(x).grantees@);
            }
            assert forall|i: int, j: int|
                self.alive(i) && 0 <= j < self.anode(i).grantees@.len() implies {
                let x = (#[trigger] self.anode(i).grantees@[j]) as int;
                self.glive(x) && list_has(self.gnode(x).actions@, i)
            } by {
                assert(self.anode(i).grantees@ == pre.anode(i).grantees@);
                let x = (pre.anode(i).grantees@[j]) as int;
                assert(pre.glive(x) && list_has(pre.gnode(x).actions@, i));
                assert(self.gnode(x) == pre.gnode(x));
            }
            assert forall|i: int, j: int|
                self.alive(i) && 0 <= j < self.anode(i).main_action_of@.len() implies {
                let x = (#[trigger] self.anode(i).main_action_of@[j]) as int;
                x != i && self.alive(x) && list_has(self.anode(x).sub_action_of@, i)
            } by {
                let x = (self.anode(i).main_action_of@[j]) as int;
                assert(list_has(self.anode(i).main_action_of@, x));
                if i == mi as int {
                    assert(list_has(pre.anode(i).main_action_of@, x) && x != si as int);
                } else {
                    assert(self.anode(i).main_action_of@ == pre.anode(i).main_action_of@);
                    assert(list_has(pre.anode(i).main_action_of@, x));
                }
                let l = choose|l: int|
                    0 <= l < pre.anode(i).main_action_of@.len() && (((#[trigger] pre.anode(
                        i,
                    ).main_action_of@[l])) as int) == x;
                assert(x != i && pre.alive(x) && list_has(pre.anode(x).sub_action_of@, i));
                if x == si as int {
                    assert(i != mi as int);
                    assert(list_has(self.anode(x).sub_action_of@, i));
                } else {
                    assert(self.anode(x).sub_action_of@ == pre.anode(x).sub_action_of@);
                }
            }
            assert forall|i: int, j: int|
                self.alive(i) && 0 <= j < self.anode(i).sub_action_of@.len() implies {
                let x = (#[trigger] self.anode(i).sub_action_of@[j]) as int;
                x != i && self.alive(x) && list_has(self.anode(x).main_action_of@, i)
            } by {
                let x = (self.anode(i).sub_action_of@[j]) as int;
                assert(list_has(self.anode(i).sub_action_of@, x));
                if i == si as int {
                    assert(list_has(pre.anode(i).sub_action_of@, x) && x != mi as int);
                } else {
                    assert(self.anode(i).sub_action_of@ == pre.anode(i).sub_action_of@);
                    assert(list_has(pre.anode(i).sub_action_of@, x));
                }
                let l = choose|l: int|
                    0 <= l < pre.anode(i).sub_action_of@.len() && (((#[trigger] pre.anode(
                        i,
                    ).sub_action_of@[l])) as int) == x;
                assert(x != i && pre.alive(x) && list_has(pre.anode(x).main_action_of@, i));
                if x == mi as int {
                    assert(i != si as int);
                    assert(list_has(self.anode(x).main_action_of@, i));
                } else {
                    assert(self.anode(x).main_action_of@ == pre.anode(x).main_action_of@);
                }
            }
        }

        let m1 = self.model();
        let m2 = pre.model().disconnect_actions_m(main, sub);
        lemma_ids_of_filter_elem(
            aes,
            pre.anode(si as int).sub_action_of@,
            self.anode(si as int).sub_action_of@,
            mi,
        );
        assert(key_of(aes, mi as int) == main);
        assert forall|g2: u64| m1.grantees.dom().contains(g2) implies #[trigger] m1.grantees[g2]
            =~= m2.grantees[g2] by {
            let i = idx_of(pre.gmap(), g2);
            assert(has_key(pre.gmap(), g2));
            assert(pre.glive(i));
            assert(self.gnode(i) == pre.gnode(i));
            assert(m1.grantees[g2].acts =~= m2.grantees[g2].acts) by {
                lemma_ids_of_same_membership(
                    pre.amap(),
                    pre.gnode(i).actions@,
                    self.gnode(i).actions@,
                );
            }
        }
        assert(m1.grantees =~= m2.grantees);
        assert forall|a2: u64| m1.actions.dom().contains(a2) implies #[trigger] m1.actions[a2]
            =~= m2.actions[a2] by {
            let i = idx_of(aes, a2);
            assert(has_key(aes, a2));
            assert(pre.alive(i));
            assert(key_of(aes, i) == a2);
            if a2 == sub {
                assert(i == si as int);
                assert(m1.actions[a2] =~= m2.actions[a2]);
            } else {
                assert(i != si as int);
                assert(self.anode(i).sub_action_of@ == pre.anode(i).sub_action_of@);
            }
        }
        assert(m1.actions =~= m2.actions);
        assert(m1 =~= m2);
    }

    /// Deletes `grantee_id` and every edge touching it: its parents and
    /// children lose their inheritance edges to it, and its direct grants
    /// disappear.  Fails if the grantee is unknown.
    pub fn remove_grantee(&mut self, grantee_id: u64) -> (r: Result<(), CanDoError>)
        requires
            old(self).wf(),
        ensures
            final(self).wf(),
            r matches Ok(_) <==> old(self).model().has_grantee(grantee_id),
            r matches Ok(_) ==> final(self).model() == old(self).model().remove_grantee_m(
                grantee_id,
            ) && final(self).gmap().len() + 1 == old(self).gmap().len() && final(self).amap().len()
                == old(self).amap().len(),
            r matches Err(e) ==> final(self).model() == old(self).model() && e
                == CanDoError::GranteeNotFound,
    {
        let k = match entry_position(&self.grantees, grantee_id) {
            Some(k) => k,
            None => {
                return Err(CanDoError::GranteeNotFound);
            },
        };
        let ghost pre = *self;
        let gi = self.grantees[k].1;
        proof {
            assert(pre.glive(gi as int)) by {
                assert(pre.gmap()[k as int].1 == gi);
            }
        }
        let parents = copy_list(&self.grantees_arena.get(gi).grantee_of);
        let children = copy_list(&self.grantees_arena.get(gi).grantees);
        let acts = copy_list(&self.grantees_arena.get(gi).actions);

        // Cut the inverse edge out of every parent.
        let mut t: usize = 0;
        while t < parents.len()
            invariant
                pre.wf(),
                pre.glive(gi as int),
                parents@ == pre.gnode(gi as int).grantee_of@,
                children@ == pre.gnode(gi as int).grantees@,
                acts@ == pre.gnode(gi as int).actions@,
                t <= parents@.len(),
                self.gmap() == pre.gmap(),
                self.amap() == pre.amap(),
                self.aslots() == pre.aslots(),
                self.grantees_arena.wf(),
                self.actions_arena.wf(),
                self.gslots().len() == pre.gslots().len(),
                forall|i: int| self.glive(i) <==> pre.glive(i),
                forall|i: int|
                    self.glive(i) ==> (#[trigger] self.gnode(i)).grantee_of@ == pre.gnode(
                        i,
                    ).grantee_of@ && self.gnode(i).actions@ == pre.gnode(i).actions@ && self.gnode(
                        i,
                    ).is_root == pre.gnode(i).is_root,
                forall|i: int, x: int|
                    self.glive(i) && x != gi as int ==> (#[trigger] list_has(
                        self.gnode(i).grantees@,
                        x,
                    ) <==> list_has(pre.gnode(i).grantees@, x)),
                forall|i: int|
                    self.glive(i) && #[trigger] list_has(self.gnode(i).grantees@, gi as int)
                        ==> list_has(pre.gnode(i).grantees@, gi as int),
                forall|t2: int|
                    0 <= t2 < t ==> !list_has(
                        self.gnode((#[trigger] parents@[t2]) as int).grantees@,
                        gi as int,
                    ),
            decreases parents@.len() - t,
        {
            let x = parents[t];
            proof {
                assert(pre.gnode(gi as int).grantee_of@[t as int] == x);
                assert(pre.glive(x as int));
            }
            let ghost snap = *self;
            let xn = self.grantees_arena.get_mut(x);
            remove_all(&mut xn.grantees, gi);
            proof {
                let xi = x as int;
                assert forall|i: int|
                    0 <= i < self.gslots().len() && i != xi implies #[trigger] self.gslots()[i]
                    == snap.gslots()[i] by {}
                assert(self.glive(xi));
                assert forall|i: int| self.glive(i) <==> pre.glive(i) by {
                    if i != xi && 0 <= i < self.gslots().len() {
                        assert(self.gslots()[i] == snap.gslots()[i]);
                    }
                }
                assert forall|i2: int| #[trigger]
                    list_has(self.gnode(xi).grantees@, i2) <==> list_has(
                        snap.gnode(xi).grantees@,
                        i2,
                    ) && i2 != gi as int by {}
                assert forall|i: int|
                    self.glive(i) implies (#[trigger] self.gnode(i)).grantee_of@ == pre.gnode(
                        i,
                    ).grantee_of@ && self.gnode(i).actions@ == pre.gnode(i).actions@
                        && self.gnode(i).is_root == pre.gnode(i).is_root by {
                    if i != xi {
                        assert(self.gnode(i) == snap.gnode(i));
                    } else {
                        assert(self.gnode(xi).grantee_of@ == snap.gnode(xi).grantee_of@);
                        assert(self.gnode(xi).actions@ == snap.gnode(xi).actions@);
                        assert(self.gnode(xi).is_root == snap.gnode(xi).is_root);
                    }
                }
                assert forall|i: int, x2: int|
                    self.glive(i) && x2 != gi as int implies (#[trigger] list_has(
                        self.gnode(i).grantees@,
                        x2,
                    ) <==> list_has(pre.gnode(i).grantees@, x2)) by {
                    if i == xi {
                        assert(list_has(self.gnode(xi).grantees@, x2) <==> list_has(
                            snap.gnode(xi).grantees@,
                            x2,
                        ) && x2 != gi as int);
                        assert(list_has(snap.gnode(xi).grantees@, x2) <==> list_has(
                            pre.gnode(xi).grantees@,
                            x2,
                        ));
                    } else {
                        assert(self.gnode(i) == snap.gnode(i));
                        assert(list_has(snap.gnode(i).grantees@, x2) <==> list_has(
                            pre.gnode(i).grantees@,
                            x2,
                        ));
                    }
                }
                assert forall|i: int|
                    self.glive(i) && #[trigger] list_has(self.gnode(i).grantees@, gi as int)
                    implies list_has(pre.gnode(i).grantees@, gi as int) by {
                    if i == xi {
                        assert(list_has(self.gnode(xi).grantees@, gi as int) <==> list_has(
                            snap.gnode(xi).grantees@,
                            gi as int,
                        ) && gi as int != gi as int);
                    } else {
                        assert(self.gnode(i) == snap.gnode(i));
                    }
                }
                assert forall|t2: int|
                    0 <= t2 < t + 1 implies !list_has(
                        self.gnode((#[trigger] parents@[t2]) as int).grantees@,
                        gi as int,
                    ) by {
                    if (parents@[t2] as int) != xi {
                        assert(self.gnode(parents@[t2] as int) == snap.gnode(
                            parents@[t2] as int,
                        ));
                        if t2 < t {
                            assert(!list_has(snap.gnode(parents@[t2] as int).grantees@, gi as int));
                        } else {
                            assert(parents@[t2] == x);
                        }
                    }
                }
            }
            t = t + 1;
        }

        // Cut the inverse edge out of every child.
        let mut t2: usize = 0;
        while t2 < children.len()
            invariant
                pre.wf(),
                pre.glive(gi as int),
                parents@ == pre.gnode(gi as int).grantee_of@,
                children@ == pre.gnode(gi as int).grantees@,
                acts@ == pre.gnode(gi as int).actions@,
                t2 <= children@.len(),
                self.gmap() == pre.gmap(),
                self.amap() == pre.amap(),
                self.aslots() == pre.aslots(),
                self.grantees_arena.wf(),
                self.actions_arena.wf(),
                self.gslots().len() == pre.gslots().len(),
                forall|i: int| self.glive(i) <==> pre.glive(i),
                forall|i: int|
                    self.glive(i) ==> (#[trigger] self.gnode(i)).actions@ == pre.gnode(
                        i,
                    ).actions@ && self.gnode(i).is_root == pre.gnode(i).is_root,
                forall|i: int, x: int|
                    self.glive(i) && x != gi as int ==> (#[trigger] list_has(
                        self.gnode(i).grantees@,
                        x,
                    ) <==> list_has(pre.gnode(i).grantees@, x)),
                forall|i: int|
                    self.glive(i) && #[trigger] list_has(self.gnode(i).grantees@, gi as int)
                        ==> list_has(pre.gnode(i).grantees@, gi as int),
                forall|t3: int|
                    0 <= t3 < parents@.len() ==> !list_has(
                        self.gnode((#[trigger] parents@[t3]) as int).grantees@,
                        gi as int,
                    ),
                forall|i: int, x: int|
                    self.glive(i) && x != gi as int ==> (#[trigger] list_has(
                        self.gnode(i).grantee_of@,
                        x,
                    ) <==> list_has(pre.gnode(i).grantee_of@, x)),
                forall|i: int|
                    self.glive(i) && #[trigger] list_has(self.gnode(i).grantee_of@, gi as int)
                        ==> list_has(pre.gnode(i).grantee_of@, gi as int),
                forall|t3: int|
                    0 <= t3 < t2 ==> !list_has(
                        self.gnode((#[trigger] children@[t3]) as int).grantee_of@,
                        gi as int,
                    ),
            decreases children@.len() - t2,
        {
            let x = children[t2];
            proof {
                assert(pre.gnode(gi as int).grantees@[t2 as int] == x);
                assert(pre.glive(x as int));
            }
            let ghost snap = *self;
            let xn = self.grantees_arena.get_mut(x);
            remove_all(&mut xn.grantee_of, gi);
            proof {
                let xi = x as int;
                assert forall|i: int|
                    0 <= i < self.gslots().len() && i != xi implies #[trigger] self.gslots()[i]
                    == snap.gslots()[i] by {}
                assert(self.glive(xi));
                assert forall|i: int| self.glive(i) <==> pre.glive(i) by {
                    if i != xi && 0 <= i < self.gslots().len() {
                        assert(self.gslots()[i] == snap.gslots()[i]);
                    }
                }
                assert forall|i2: int| #[trigger]
                    list_has(self.gnode(xi).grantee_of@, i2) <==> list_has(
                        snap.gnode(xi).grantee_of@,
                        i2,
                    ) && i2 != gi as int by {}
                assert forall|i: int|
                    self.glive(i) implies (#[trigger] self.gnode(i)).actions@ == pre.gnode(
                        i,
                    ).actions@ && self.gnode(i).is_root == pre.gnode(i).is_root
                        && self.gnode(i).grantees@ == snap.gnode(i).grantees@ by {
                    if i != xi {
                        assert(self.gnode(i) == snap.gnode(i));
                    } else {
                        assert(self.gnode(xi).actions@ == snap.gnode(xi).actions@);
                        assert(self.gnode(xi).is_root == snap.gnode(xi).is_root);
                        assert(self.gnode(xi).grantees@ == snap.gnode(xi).grantees@);
                    }
                }
                assert forall|i: int, x2: int|
                    self.glive(i) && x2 != gi as int implies (#[trigger] list_has(
                        self.gnode(i).grantee_of@,
                        x2,
                    ) <==> list_has(pre.gnode(i).grantee_of@, x2)) by {
                    if i == xi {
                        assert(list_has(self.gnode(xi).grantee_of@, x2) <==> list_has(
                            snap.gnode(xi).grantee_of@,
                            x2,
                        ) && x2 != gi as int);
                        assert(list_has(snap.gnode(xi).grantee_of@, x2) <==> list_has(
                            pre.gnode(xi).grantee_of@,
                            x2,
                        ));
                    } else {
                        assert(self.gnode(i) == snap.gnode(i));
                        assert(list_has(snap.gnode(i).grantee_of@, x2) <==> list_has(
                            pre.gnode(i).grantee_of@,
                            x2,
                        ));
                    }
                }
                assert forall|i: int|
                    self.glive(i) && #[trigger] list_has(self.gnode(i).grantee_of@, gi as int)
                    implies list_has(pre.gnode(i).grantee_of@, gi as int) by {
                    if i == xi {
                        assert(list_has(self.gnode(xi).grantee_of@, gi as int) <==> list_has(
                            snap.gnode(xi).grantee_of@,
                            gi as int,
                        ) && gi as int != gi as int);
                    } else {
                        assert(self.gnode(i) == snap.gnode(i));
                    }
                }
                assert forall|i: int, x2: int|
                    self.glive(i) && x2 != gi as int implies (#[trigger] list_has(
                        self.gnode(i).grantees@,
                        x2,
                    ) <==> list_has(pre.gnode(i).grantees@, x2)) by {
                    assert(self.gnode(i).grantees@ == snap.gnode(i).grantees@);
                    assert(list_has(snap.gnode(i).grantees@, x2) <==> list_has(
                        pre.gnode(i).grantees@,
                        x2,
                    ));
                }
                assert forall|i: int|
                    self.glive(i) && #[trigger] list_has(self.gnode(i).grantees@, gi as int)
                    implies list_has(pre.gnode(i).grantees@, gi as int) by {
                    assert(self.gnode(i).grantees@ == snap.gnode(i).grantees@);
                }
                assert forall|t3: int|
                    0 <= t3 < parents@.len() implies !list_has(
                        self.gnode((#[trigger] parents@[t3]) as int).grantees@,
                        gi as int,
                    ) by {
                    assert(self.gnode(parents@[t3] as int).grantees@ == snap.gnode(
                        parents@[t3] as int,
                    ).grantees@);
                }
                assert forall|t3: int|
                    0 <= t3 < t2 + 1 implies !list_has(
                        self.gnode((#[trigger] children@[t3]) as int).grantee_of@,
                        gi as int,
                    ) by {
                    if (children@[t3] as int) != xi {
                        assert(self.gnode(children@[t3] as int) == snap.gnode(
                            children@[t3] as int,
                        ));
                        if t3 < t2 {
                            assert(!list_has(
                                snap.gnode(children@[t3] as int).grantee_of@,
                                gi as int,
                            ));
                        } else {
                            assert(children@[t3] == x);
                        }
                    }
                }
            }
            t2 = t2 + 1;
        }

        // Cut the holder out of every directly granted action.
        let mut t3: usize = 0;
        while t3 < acts.len()
            invariant
                pre.wf(),
                pre.glive(gi as int),
                parents@ == pre.gnode(gi as int).grantee_of@,
                children@ == pre.gnode(gi as int).grantees@,
                acts@ == pre.gnode(gi as int).actions@,
                t3 <= acts@.len(),
                self.gmap() == pre.gmap(),
                self.amap() == pre.amap(),
                self.grantees_arena.wf(),
                self.actions_arena.wf(),
                self.gslots().len() == pre.gslots().len(),
                self.aslots().len() == pre.aslots().len(),
                forall|i: int| self.glive(i) <==> pre.glive(i),
                forall|i: int| self.alive(i) <==> pre.alive(i),
                forall|i: int|
                    self.glive(i) ==> (#[trigger] self.gnode(i)).actions@ == pre.gnode(
                        i,
                    ).actions@ && self.gnode(i).is_root == pre.gnode(i).is_root,
                forall|i: int, x: int|
                    self.glive(i) && x != gi as int ==> (#[trigger] list_has(
                        self.gnode(i).grantees@,
                        x,
                    ) <==> list_has(pre.gnode(i).grantees@, x)),
                forall|i: int|
                    self.glive(i) && #[trigger] list_has(self.gnode(i).grantees@, gi as int)
                        ==> list_has(pre.gnode(i).grantees@, gi as int),
                forall|t4: int|
                    0 <= t4 < parents@.len() ==> !list_has(
                        self.gnode((#[trigger] parents@[t4]) as int).grantees@,
                        gi as int,
                    ),
                forall|i: int, x: int|
                    self.glive(i) && x != gi as int ==> (#[trigger] list_has(
                        self.gnode(i).grantee_of@,
                        x,
                    ) <==> list_has(pre.gnode(i).grantee_of@, x)),
                forall|i: int|
                    self.glive(i) && #[trigger] list_has(self.gnode(i).grantee_of@, gi as int)
                        ==> list_has(pre.gnode(i).grantee_of@, gi as int),
                forall|t4: int|
                    0 <= t4 < children@.len() ==> !list_has(
                        self.gnode((#[trigger] children@[t4]) as int).grantee_of@,
                        gi as int,
                    ),
                forall|i: int|
                    self.alive(i) ==> (#[trigger] self.anode(i)).main_action_of@ == pre.anode(
                        i,
                    ).main_action_of@ && self.anode(i).sub_action_of@ == pre.anode(
                        i,
                    ).sub_action_of@,
                forall|i: int, x: int|
                    self.alive(i) && x != gi as int ==> (#[trigger] list_has(
                        self.anode(i).grantees@,
                        x,
                    ) <==> list_has(pre.anode(i).grantees@, x)),
                forall|i: int|
                    self.alive(i) && #[trigger] list_has(self.anode(i).grantees@, gi as int)
                        ==> list_has(pre.anode(i).grantees@, gi as int),
                forall|t4: int|
                    0 <= t4 < t3 ==> !list_has(
                        self.anode((#[trigger] acts@[t4]) as int).grantees@,
                        gi as int,
                    ),
            decreases acts@.len() - t3,
        {
            let x = acts[t3];
            proof {
                assert(pre.gnode(gi as int).actions@[t3 as int] == x);
                assert(pre.alive(x as int));
            }
            let ghost snap = *self;
            let xn = self.actions_arena.get_mut(x);
            remove_all(&mut xn.grantees, gi);
            proof {
                let xi = x as int;
                assert(self.gslots() == snap.gslots());
                assert forall|i: int|
                    self.glive(i) implies (#[trigger] self.gnode(i)) == snap.gnode(i) by {}
                assert forall|i: int|
                    self.glive(i) implies (#[trigger] self.gnode(i)).actions@ == pre.gnode(
                        i,
                    ).actions@ && self.gnode(i).is_root == pre.gnode(i).is_root by {
                    assert(self.gnode(i) == snap.gnode(i));
                }
                assert forall|i: int, x2: int|
                    self.glive(i) && x2 != gi as int implies (#[trigger] list_has(
                        self.gnode(i).grantees@,
                        x2,
                    ) <==> list_has(pre.gnode(i).grantees@, x2)) by {
                    assert(self.gnode(i) == snap.gnode(i));
                    assert(list_has(snap.gnode(i).grantees@, x2) <==> list_has(
                        pre.gnode(i).grantees@,
                        x2,
                    ));
                }
                assert forall|i: int|
                    self.glive(i) && #[trigger] list_has(self.gnode(i).grantees@, gi as int)
                    implies list_has(pre.gnode(i).grantees@, gi as int) by {
                    assert(self.gnode(i) == snap.gnode(i));
                }
                assert forall|i: int, x2: int|
                    self.glive(i) && x2 != gi as int implies (#[trigger] list_has(
                        self.gnode(i).grantee_of@,
                        x2,
                    ) <==> list_has(pre.gnode(i).grantee_of@, x2)) by {
                    assert(self.gnode(i) == snap.gnode(i));
                    assert(list_has(snap.gnode(i).grantee_of@, x2) <==> list_has(
                        pre.gnode(i).grantee_of@,
                        x2,
                    ));
                }
                assert forall|i: int|
                    self.glive(i) && #[trigger] list_has(self.gnode(i).grantee_of@, gi as int)
                    implies list_has(pre.gnode(i).grantee_of@, gi as int) by {
                    assert(self.gnode(i) == snap.gnode(i));
                }
                assert forall|t4: int|
                    0 <= t4 < parents@.len() implies !list_has(
                        self.gnode((#[trigger] parents@[t4]) as int).grantees@,
                        gi as int,
                    ) by {
                    assert(self.gnode(parents@[t4] as int) == snap.gnode(parents@[t4] as int));
                }
                assert forall|t4: int|
                    0 <= t4 < children@.len() implies !list_has(
                        self.gnode((#[trigger] children@[t4]) as int).grantee_of@,
                        gi as int,
                    ) by {
                    assert(self.gnode(children@[t4] as int) == snap.gnode(
                        children@[t4] as int,
                    ));
                }
                assert forall|i: int|
                    0 <= i < self.aslots().len() && i != xi implies #[trigger] self.aslots()[i]
                    == snap.aslots()[i] by {}
                assert(self.alive(xi));
                assert forall|i: int| self.alive(i) <==> pre.alive(i) by {
                    if i != xi && 0 <= i < self.aslots().len() {
                        assert(self.aslots()[i] == snap.aslots()[i]);
                    }
                }
                assert forall|i2: int| #[trigger]
                    list_has(self.anode(xi).grantees@, i2) <==> list_has(
                        snap.anode(xi).grantees@,
                        i2,
                    ) && i2 != gi as int by {}
                assert forall|i: int|
                    self.alive(i) implies (#[trigger] self.anode(i)).main_action_of@ == pre.anode(
                        i,
                    ).main_action_of@ && self.anode(i).sub_action_of@ == pre.anode(
                        i,
                    ).sub_action_of@ by {
                    if i != xi {
                        assert(self.anode(i) == snap.anode(i));
                    } else {
                        assert(self.anode(xi).main_action_of@ == snap.anode(xi).main_action_of@);
                        assert(self.anode(xi).sub_action_of@ == snap.anode(xi).sub_action_of@);
                    }
                }
                assert forall|i: int, x2: int|
                    self.alive(i) && x2 != gi as int implies (#[trigger] list_has(
                        self.anode(i).grantees@,
                        x2,
                    ) <==> list_has(pre.anode(i).grantees@, x2)) by {
                    if i == xi {
                        assert(list_has(self.anode(xi).grantees@, x2) <==> list_has(
                            snap.anode(xi).grantees@,
                            x2,
                        ) && x2 != gi as int);
                        assert(list_has(snap.anode(xi).grantees@, x2) <==> list_has(
                            pre.anode(xi).grantees@,
                            x2,
                        ));
                    } else {
                        assert(self.anode(i) == snap.anode(i));
                        assert(list_has(snap.anode(i).grantees@, x2) <==> list_has(
                            pre.anode(i).grantees@,
                            x2,
                        ));
                    }
                }
                assert forall|i: int|
                    self.alive(i) && #[trigger] list_has(self.anode(i).grantees@, gi as int)
                    implies list_has(pre.anode(i).grantees@, gi as int) by {
                    if i == xi {
                        assert(list_has(self.anode(xi).grantees@, gi as int) <==> list_has(
                            snap.anode(xi).grantees@,
                            gi as int,
                        ) && gi as int != gi as int);
                    } else {
                        assert(self.anode(i) == snap.anode(i));
                    }
                }
                assert forall|t4: int|
                    0 <= t4 < t3 + 1 implies !list_has(
                        self.anode((#[trigger] acts@[t4]) as int).grantees@,
                        gi as int,
                    ) by {
                    if (acts@[t4] as int) != xi {
                        assert(self.anode(acts@[t4] as int) == snap.anode(acts@[t4] as int));
                        if t4 < t3 {
                            assert(!list_has(snap.anode(acts@[t4] as int).grantees@, gi as int));
                        } else {
                            assert(acts@[t4] == x);
                        }
                    }
                }
            }
            t3 = t3 + 1;
        }

        let ghost cut = *self;
        self.grantees.remove(k);
        let _ = self.grantees_arena.remove(gi);
        proof {
            assert forall|i: int|
                0 <= i < self.gslots().len() && i != gi as int implies #[trigger] self.gslots()[i]
                == cut.gslots()[i] by {}
            assert(!self.glive(gi as int));
            assert forall|i: int| self.glive(i) <==> pre.glive(i) && i != gi as int by {
                if i != gi as int && 0 <= i < self.gslots().len() {
                    assert(self.gslots()[i] == cut.gslots()[i]);
                    assert(cut.glive(i) <==> pre.glive(i));
                }
            }
            assert forall|i: int|
                self.glive(i) implies (#[trigger] self.gnode(i)) == cut.gnode(i) by {}
            assert(self.aslots() == cut.aslots());
            assert forall|i: int|
                self.alive(i) implies (#[trigger] self.anode(i)) == cut.anode(i) by {}
            assert forall|i: int|
                self.glive(i) implies (#[trigger] self.gnode(i)).actions@ == pre.gnode(
                    i,
                ).actions@ && self.gnode(i).is_root == pre.gnode(i).is_root by {
                assert(self.gnode(i) == cut.gnode(i));
            }
            assert forall|i: int, x: int|
                self.glive(i) && x != gi as int implies (#[trigger] list_has(
                    self.gnode(i).grantees@,
                    x,
                ) <==> list_has(pre.gnode(i).grantees@, x)) by {
                assert(self.gnode(i) == cut.gnode(i));
                assert(list_has(cut.gnode(i).grantees@, x) <==> list_has(
                    pre.gnode(i).grantees@,
                    x,
                ));
            }
            assert forall|i: int|
                self.glive(i) && #[trigger] list_has(self.gnode(i).grantees@, gi as int)
                implies list_has(pre.gnode(i).grantees@, gi as int) by {
                assert(self.gnode(i) == cut.gnode(i));
            }
            assert forall|i: int, x: int|
                self.glive(i) && x != gi as int implies (#[trigger] list_has(
                    self.gnode(i).grantee_of@,
                    x,
                ) <==> list_has(pre.gnode(i).grantee_of@, x)) by {
                assert(self.gnode(i) == cut.gnode(i));
                assert(list_has(cut.gnode(i).grantee_of@, x) <==> list_has(
                    pre.gnode(i).grantee_of@,
                    x,
                ));
            }
            assert forall|i: int|
                self.glive(i) && #[trigger] list_has(self.gnode(i).grantee_of@, gi as int)
                implies list_has(pre.gnode(i).grantee_of@, gi as int) by {
                assert(self.gnode(i) == cut.gnode(i));
            }
            assert forall|t4: int|
                0 <= t4 < pre.gnode(gi as int).grantee_of@.len() implies !list_has(
                    self.gnode((#[trigger] pre.gnode(gi as int).grantee_of@[t4]) as int).grantees@,
                    gi as int,
                ) || !self.glive(pre.gnode(gi as int).grantee_of@[t4] as int) by {
                let y = pre.gnode(gi as int).grantee_of@[t4] as int;
                assert(parents@[t4] as int == y);
                if self.glive(y) {
                    assert(self.gnode(y) == cut.gnode(y));
                    assert(!list_has(cut.gnode(y).grantees@, gi as int));
                }
            }
            assert forall|t4: int|
                0 <= t4 < pre.gnode(gi as int).grantees@.len() implies !list_has(
                    self.gnode((#[trigger] pre.gnode(gi as int).grantees@[t4]) as int).grantee_of@,
                    gi as int,
                ) || !self.glive(pre.gnode(gi as int).grantees@[t4] as int) by {
                let y = pre.gnode(gi as int).grantees@[t4] as int;
                assert(children@[t4] as int == y);
                if self.glive(y) {
                    assert(self.gnode(y) == cut.gnode(y));
                    assert(!list_has(cut.gnode(y).grantee_of@, gi as int));
                }
            }
            assert forall|i: int|
                self.alive(i) implies (#[trigger] self.anode(i)).main_action_of@ == pre.anode(
                    i,
                ).main_action_of@ && self.anode(i).sub_action_of@ == pre.anode(
                    i,
                ).sub_action_of@ by {
                assert(self.anode(i) == cut.anode(i));
            }
            assert forall|i: int, x: int|
                self.alive(i) && x != gi as int implies (#[trigger] list_has(
                    self.anode(i).grantees@,
                    x,
                ) <==> list_has(pre.anode(i).grantees@, x)) by {
                assert(self.anode(i) == cut.anode(i));
                assert(list_has(cut.anode(i).grantees@, x) <==> list_has(
                    pre.anode(i).grantees@,
                    x,
                ));
            }
            assert forall|i: int|
                self.alive(i) && #[trigger] list_has(self.anode(i).grantees@, gi as int)
                implies list_has(pre.anode(i).grantees@, gi as int) by {
                assert(self.anode(i) == cut.anode(i));
            }
            assert forall|t4: int|
                0 <= t4 < pre.gnode(gi as int).actions@.len() implies !list_has(
                    self.anode((#[trigger] pre.gnode(gi as int).actions@[t4]) as int).grantees@,
                    gi as int,
                ) by {
                let y = pre.gnode(gi as int).actions@[t4] as int;
                assert(acts@[t4] as int == y);
                assert(self.anode(y) == cut.anode(y));
                assert(!list_has(cut.anode(y).grantees@, gi as int));
            }
            self.lemma_after_remove_grantee(pre, k as int, gi, grantee_id);
        }
        Ok(())
    }

    /// The state change of deleting a grantee whose incident edges have all
    /// been cut from the partner side.
    #[verifier::rlimit(100)]
    proof fn lemma_after_remove_grantee(&self, pre: CanDo, k: int, gi: usize, g: u64)
        requires
            pre.wf(),
            0 <= k < pre.gmap().len(),
            pre.gmap()[k] == (g, gi),
            pre.glive(gi as int),
            self.gmap() == pre.gmap().remove(k),
            self.amap() == pre.amap(),
            self.grantees_arena.wf(),
            self.actions_arena.wf(),
            self.gslots().len() == pre.gslots().len(),
            self.aslots().len() == pre.aslots().len(),
            forall|i: int| self.glive(i) <==> pre.glive(i) && i != gi as int,
            forall|i: int| self.alive(i) <==> pre.alive(i),
            forall|i: int|
                self.glive(i) ==> (#[trigger] self.gnode(i)).actions@ == pre.gnode(i).actions@
                    && self.gnode(i).is_root == pre.gnode(i).is_root,
            forall|i: int, x: int|
                self.glive(i) && x != gi as int ==> (#[trigger] list_has(
                    self.gnode(i).grantees@,
                    x,
                ) <==> list_has(pre.gnode(i).grantees@, x)),
            forall|i: int|
                self.glive(i) && #[trigger] list_has(self.gnode(i).grantees@, gi as int)
                    ==> list_has(pre.gnode(i).grantees@, gi as int),
            forall|t4: int|
                0 <= t4 < pre.gnode(gi as int).grantee_of@.len() ==> !list_has(
                    self.gnode((#[trigger] pre.gnode(gi as int).grantee_of@[t4]) as int).grantees@,
                    gi as int,
                ) || !self.glive(pre.gnode(gi as int).grantee_of@[t4] as int),
            forall|i: int, x: int|
                self.glive(i) && x != gi as int ==> (#[trigger] list_has(
                    self.gnode(i).grantee_of@,
                    x,
                ) <==> list_has(pre.gnode(i).grantee_of@, x)),
            forall|i: int|
                self.glive(i) && #[trigger] list_has(self.gnode(i).grantee_of@, gi as int)
                    ==> list_has(pre.gnode(i).grantee_of@, gi as int),
            forall|t4: int|
                0 <= t4 < pre.gnode(gi as int).grantees@.len() ==> !list_has(
                    self.gnode((#[trigger] pre.gnode(gi as int).grantees@[t4]) as int).grantee_of@,
                    gi as int,
                ) || !self.glive(pre.gnode(gi as int).grantees@[t4] as int),
            forall|i: int|
                self.alive(i) ==> (#[trigger] self.anode(i)).main_action_of@ == pre.anode(
                    i,
                ).main_action_of@ && self.anode(i).sub_action_of@ == pre.anode(i).sub_action_of@,
            forall|i: int, x: int|
                self.alive(i) && x != gi as int ==> (#[trigger] list_has(
                    self.anode(i).grantees@,
                    x,
                ) <==> list_has(pre.anode(i).grantees@, x)),
            forall|i: int|
                self.alive(i) && #[trigger] list_has(self.anode(i).grantees@, gi as int)
                    ==> list_has(pre.anode(i).grantees@, gi as int),
            forall|t4: int|
                0 <= t4 < pre.gnode(gi as int).actions@.len() ==> !list_has(
                    self.anode((#[trigger] pre.gnode(gi as int).actions@[t4]) as int).grantees@,
                    gi as int,
                ),
        ensures
            self.wf(),
            self.model() == pre.model().remove_grantee_m(g),
    {
        let es = pre.gmap();
        let es2 = self.gmap();
        lemma_entries_bijective(es);
        lemma_entry_remove(es, k);
        assert(es[k].0 == g && es[k].1 == gi);
        assert(idx_of(es, g) == gi as int) by {
            let kk = choose|kk: int| 0 <= kk < es.len() && (#[trigger] es[kk]).0 == g;
            assert(kk == k);
        }

        // No surviving node still points at the removed position.
        assert forall|i: int|
            self.glive(i) implies !list_has(self.gnode(i).grantee_of@, gi as int) by {
            if list_has(self.gnode(i).grantee_of@, gi as int) {
                assert(list_has(pre.gnode(i).grantee_of@, gi as int));
                let l = choose|l: int|
                    0 <= l < pre.gnode(i).grantee_of@.len() && (((#[trigger] pre.gnode(
                        i,
                    ).grantee_of@[l])) as int) == gi as int;
                assert(list_has(pre.gnode(gi as int).grantees@, i));
                let t4 = choose|t4: int|
                    0 <= t4 < pre.gnode(gi as int).grantees@.len() && (((#[trigger] pre.gnode(
                        gi as int,
                    ).grantees@[t4])) as int) == i;
                assert(!list_has(self.gnode(i).grantee_of@, gi as int));
            }
        }
        assert forall|i: int|
            self.glive(i) implies !list_has(self.gnode(i).grantees@, gi as int) by {
            if list_has(self.gnode(i).grantees@, gi as int) {
                assert(list_has(pre.gnode(i).grantees@, gi as int));
                let l = choose|l: int|
                    0 <= l < pre.gnode(i).grantees@.len() && (((#[trigger] pre.gnode(
                        i,
                    ).grantees@[l])) as int) == gi as int;
                assert(list_has(pre.gnode(gi as int).grantee_of@, i));
                let t4 = choose|t4: int|
                    0 <= t4 < pre.gnode(gi as int).grantee_of@.len() && (((#[trigger] pre.gnode(
                        gi as int,
                    ).grantee_of@[t4])) as int) == i;
                assert(!list_has(self.gnode(i).grantees@, gi as int));
            }
        }
        assert forall|i: int|
            self.alive(i) implies !list_has(self.anode(i).grantees@, gi as int) by {
            if list_has(self.anode(i).grantees@, gi as int) {
                assert(list_has(pre.anode(i).grantees@, gi as int));
                let l = choose|l: int|
                    0 <= l < pre.anode(i).grantees@.len() && (((#[trigger] pre.anode(
                        i,
                    ).grantees@[l])) as int) == gi as int;
                assert(list_has(pre.gnode(gi as int).actions@, i));
                let t4 = choose|t4: int|
                    0 <= t4 < pre.gnode(gi as int).actions@.len() && (((#[trigger] pre.gnode(
                        gi as int,
                    ).actions@[t4])) as int) == i;
                assert(!list_has(self.anode(i).grantees@, gi as int));
            }
        }

        assert(Self::table_ok(self.gmap(), self.gslots())) by {
            assert forall|j1: int, j2: int|
                #![trigger es2[j1], es2[j2]]
                0 <= j1 < j2 < es2.len() implies es2[j1].0 != es2[j2].0 && es2[j1].1
                != es2[j2].1 by {}
            assert forall|j: int|
                0 <= j < es2.len() implies ((#[trigger] es2[j]).1 as int) < self.gslots().len()
                && self.gslots()[es2[j].1 as int] is Some by {
                let j0: int = if j < k {
                    j
                } else {
                    j + 1
                };
                assert(es2[j] == es[j0]);
                assert(pre.glive(es[j0].1 as int));
                assert(j0 != k);
                assert(es[j0].1 != es[k].1);
                assert(self.glive(es[j0].1 as int));
            }
            assert forall|i: int|
                0 <= i < self.gslots().len() && (#[trigger] self.gslots()[i]) is Some
                implies has_val(es2, i) by {
                assert(self.glive(i));
                assert(pre.glive(i) && i != gi as int);
                assert(has_val(es, i));
            }
        }
        assert(Self::table_ok(self.amap(), self.aslots())) by {
            assert forall|i: int|
                0 <= i < self.aslots().len() && (#[trigger] self.aslots()[i]) is Some
                implies has_val(pre.amap(), i) by {
                assert(pre.alive(i));
            }
            assert forall|j: int|
                0 <= j < self.amap().len() implies ((#[trigger] self.amap()[j]).1 as int)
                < self.aslots().len() && self.aslots()[self.amap()[j].1 as int] is Some by {
                assert(pre.alive(pre.amap()[j].1 as int));
            }
        }

        assert(self.edges_ok()) by {
            assert forall|i: int, j: int|
                self.glive(i) && 0 <= j < self.gnode(i).grantee_of@.len() implies {
                let x = (#[trigger] self.gnode(i).grantee_of@[j]) as int;
                x != i && self.glive(x) && list_has(self.gnode(x).grantees@, i)
            } by {
                let x = (self.gnode(i).grantee_of@[j]) as int;
                assert(list_has(self.gnode(i).grantee_of@, x));
                assert(x != gi as int);
                assert(list_has(pre.gnode(i).grantee_of@, x));
                let l = choose|l: int|
                    0 <= l < pre.gnode(i).grantee_of@.len() && (((#[trigger] pre.gnode(
                        i,
                    ).grantee_of@[l])) as int) == x;
                assert(x != i && pre.glive(x) && list_has(pre.gnode(x).grantees@, i));
                assert(self.glive(x));
                assert(list_has(self.gnode(x).grantees@, i));
            }
            assert forall|i: int, j: int|
                self.glive(i) && 0 <= j < self.gnode(i).grantees@.len() implies {
                let x = (#[trigger] self.gnode(i).grantees@[j]) as int;
                x != i && self.glive(x) && list_has(self.gnode(x).grantee_of@, i)
            } by {
                let x = (self.gnode(i).grantees@[j]) as int;
                assert(list_has(self.gnode(i).grantees@, x));
                assert(x != gi as int);
                assert(list_has(pre.gnode(i).grantees@, x));
                let l = choose|l: int|
                    0 <= l < pre.gnode(i).grantees@.len() && (((#[trigger] pre.gnode(
                        i,
                    ).grantees@[l])) as int) == x;
                assert(x != i && pre.glive(x) && list_has(pre.gnode(x).grantee_of@, i));
                assert(self.glive(x));
                assert(list_has(self.gnode(x).grantee_of@, i));
            }
            assert forall|i: int, j: int|
                self.glive(i) && 0 <= j < self.gnode(i).actions@.len() implies {
                let x = (#[trigger] self.gnode(i).actions@[j]) as int;
                self.alive(x) && list_has(self.anode(x).grantees@, i)
            } by {
                assert(self.gnode(i).actions@ == pre.gnode(i).actions@);
                let x = (pre.gnode(i).actions@[j]) as int;
                assert(pre.alive(x) && list_has(pre.anode(x).grantees@, i));
                assert(i != gi as int);
                assert(list_has(self.anode(x).grantees@, i));
            }
            assert forall|i: int, j: int|
                self.alive(i) && 0 <= j < self.anode(i).grantees@.len() implies {
                let x = (#[trigger] self.anode(i).grantees@[j]) as int;
                self.glive(x) && list_has(self.gnode(x).actions@, i)
            } by {
                let x = (self.anode(i).grantees@[j]) as int;
                assert(list_has(self.anode(i).grantees@, x));
                assert(x != gi as int);
                assert(list_has(pre.anode(i).grantees@, x));
                let l = choose|l: int|
                    0 <= l < pre.anode(i).grantees@.len() && (((#[trigger] pre.anode(
                        i,
                    ).grantees@[l])) as int) == x;
                assert(pre.glive(x) && list_has(pre.gnode(x).actions@, i));
                assert(self.glive(x));
                assert(self.gnode(x).actions@ == pre.gnode(x).actions@);
            }
            assert forall|i: int, j: int|
                self.alive(i) && 0 <= j < self.anode(i).main_action_of@.len() implies {
                let x = (#[trigger] self.anode(i).main_action_of@[j]) as int;
                x != i && self.alive(x) && list_has(self.anode(x).sub_action_of@, i)
            } by {
                assert(self.anode(i).main_action_of@ == pre.anode(i).main_action_of@);
                let x = (pre.anode(i).main_action_of@[j]) as int;
                assert(x != i && pre.alive(x) && list_has(pre.anode(x).sub_action_of@, i));
                assert(self.anode(x).sub_action_of@ == pre.anode(x).sub_action_of@);
            }
            assert forall|i: int, j: int|
                self.alive(i) && 0 <= j < self.anode(i).sub_action_of@.len() implies {
                let x = (#[trigger] self.anode(i).sub_action_of@[j]) as int;
                x != i && self.alive(x) && list_has(self.anode(x).main_action_of@, i)
            } by {
                assert(self.anode(i).sub_action_of@ == pre.anode(i).sub_action_of@);
                let x = (pre.anode(i).sub_action_of@[j]) as int;
                assert(x != i && pre.alive(x) && list_has(pre.anode(x).main_action_of@, i));
                assert(self.anode(x).main_action_of@ == pre.anode(x).main_action_of@);
            }
        }

        let m1 = self.model();
        let m2 = pre.model().remove_grantee_m(g);
        assert forall|g2: u64| #[trigger]
            m1.grantees.dom().contains(g2) <==> m2.grantees.dom().contains(g2) by {}
        assert forall|g2: u64| m1.grantees.dom().contains(g2) implies #[trigger] m1.grantees[g2]
            =~= m2.grantees[g2] by {
            assert(g2 != g && has_key(es, g2));
            let i = idx_of(es, g2);
            assert(idx_of(es2, g2) == i);
            assert(pre.glive(i));
            assert(i != gi as int) by {
                lemma_entries_bijective(es);
                if i == gi as int {
                    assert(key_of(es, i) == g2);
                    assert(key_of(es, gi as int) == g) by {
                        let kk = choose|kk: int|
                            0 <= kk < es.len() && ((#[trigger] es[kk]).1 as int) == gi as int;
                        assert(kk == k);
                    }
                }
            }
            assert(self.glive(i));
            lemma_ids_of_remove_entry(
                es,
                k,
                pre.gnode(i).grantee_of@,
                self.gnode(i).grantee_of@,
            );
            assert(m1.grantees[g2].parents =~= m2.grantees[g2].parents);
            assert(self.gnode(i).actions@ == pre.gnode(i).actions@);
            assert(m1.grantees[g2].acts =~= m2.grantees[g2].acts) by {
                lemma_ids_of_same_membership(
                    pre.amap(),
                    pre.gnode(i).actions@,
                    self.gnode(i).actions@,
                );
            }
        }
        assert(m1.grantees =~= m2.grantees);
        assert forall|a2: u64| m1.actions.dom().contains(a2) implies #[trigger] m1.actions[a2]
            =~= m2.actions[a2] by {
            let i = idx_of(pre.amap(), a2);
            assert(has_key(pre.amap(), a2));
            assert(pre.alive(i));
            assert(self.anode(i).sub_action_of@ == pre.anode(i).sub_action_of@);
        }
        assert(m1.actions =~= m2.actions);
        assert(m1 =~= m2);
    }

    /// Deletes `action_id` and every edge touching it: direct holders lose
    /// the grant, and super- and sub-actions lose their edges to it.  Fails
    /// if the action is unknown.
    pub fn remove_action(&mut self, action_id: u64) -> (r: Result<(), CanDoError>)
        requires
            old(self).wf(),
        ensures
            final(self).wf(),
            r matches Ok(_) <==> old(self).model().has_action(action_id),
            r matches Ok(_) ==> final(self).model() == old(self).model().remove_action_m(
                action_id,
            ) && final(self).amap().len() + 1 == old(self).amap().len() && final(self).gmap().len()
                == old(self).gmap().len(),
            r matches Err(e) ==> final(self).model() == old(self).model() && e
                == CanDoError::ActionNotFound,
    {
        let k = match entry_position(&self.actions, action_id) {
            Some(k) => k,
            None => {
                return Err(CanDoError::ActionNotFound);
            },
        };
        let ghost pre = *self;
        let ai = self.actions[k].1;
        proof {
            assert(pre.alive(ai as int)) by {
                assert(pre.amap()[k as int].1 == ai);
            }
        }
        let holders = copy_list(&self.actions_arena.get(ai).grantees);
        let supers = copy_list(&self.actions_arena.get(ai).sub_action_of);
        let subs = copy_list(&self.actions_arena.get(ai).main_action_of);

        // Cut the grant out of every direct holder.
        let mut t: usize = 0;
        while t < holders.len()
            invariant
                pre.wf(),
                pre.alive(ai as int),
                holders@ == pre.anode(ai as int).grantees@,
                supers@ == pre.anode(ai as int).sub_action_of@,
                subs@ == pre.anode(ai as int).main_action_of@,
                t <= holders@.len(),
                self.gmap() == pre.gmap(),
                self.amap() == pre.amap(),
                self.aslots() == pre.aslots(),
                self.grantees_arena.wf(),
                self.actions_arena.wf(),
                self.gslots().len() == pre.gslots().len(),
                forall|i: int| self.glive(i) <==> pre.glive(i),
                forall|i: int|
                    self.glive(i) ==> (#[trigger] self.gnode(i)).grantee_of@ == pre.gnode(
                        i,
                    ).grantee_of@ && self.gnode(i).grantees@ == pre.gnode(i).grantees@
                        && self.gnode(i).is_root == pre.gnode(i).is_root,
                forall|i: int, x: int|
                    self.glive(i) && x != ai as int ==> (#[trigger] list_has(
                        self.gnode(i).actions@,
                        x,
                    ) <==> list_has(pre.gnode(i).actions@, x)),
                forall|i: int|
                    self.glive(i) && #[trigger] list_has(self.gnode(i).actions@, ai as int)
                        ==> list_has(pre.gnode(i).actions@, ai as int),
                forall|t2: int|
                    0 <= t2 < t ==> !list_has(
                        self.gnode((#[trigger] holders@[t2]) as int).actions@,
                        ai as int,
                    ),
            decreases holders@.len() - t,
        {
            let x = holders[t];
            proof {
                assert(pre.anode(ai as int).grantees@[t as int] == x);
                assert(pre.glive(x as int));
            }
            let ghost snap = *self;
            let xn = self.grantees_arena.get_mut(x);
            remove_all(&mut xn.actions, ai);
            proof {
                let xi = x as int;
                assert forall|i: int|
                    0 <= i < self.gslots().len() && i != xi implies #[trigger] self.gslots()[i]
                    == snap.gslots()[i] by {}
                assert(self.glive(xi));
                assert forall|i: int| self.glive(i) <==> pre.glive(i) by {
                    if i != xi && 0 <= i < self.gslots().len() {
                        assert(self.gslots()[i] == snap.gslots()[i]);
                    }
                }
                assert forall|i2: int| #[trigger]
                    list_has(self.gnode(xi).actions@, i2) <==> list_has(
                        snap.gnode(xi).actions@,
                        i2,
                    ) && i2 != ai as int by {}
                assert forall|i: int|
                    self.glive(i) implies (#[trigger] self.gnode(i)).grantee_of@ == pre.gnode(
                        i,
                    ).grantee_of@ && self.gnode(i).grantees@ == pre.gnode(i).grantees@
                        && self.gnode(i).is_root == pre.gnode(i).is_root by {
                    if i != xi {
                        assert(self.gnode(i) == snap.gnode(i));
                    } else {
                        assert(self.gnode(xi).grantee_of@ == snap.gnode(xi).grantee_of@);
                        assert(self.gnode(xi).grantees@ == snap.gnode(xi).grantees@);
                        assert(self.gnode(xi).is_root == snap.gnode(xi).is_root);
                    }
                }
                assert forall|i: int, x2: int|
                    self.glive(i) && x2 != ai as int implies (#[trigger] list_has(
                        self.gnode(i).actions@,
                        x2,
                    ) <==> list_has(pre.gnode(i).actions@, x2)) by {
                    if i == xi {
                        assert(list_has(self.gnode(xi).actions@, x2) <==> list_has(
                            snap.gnode(xi).actions@,
                            x2,
                        ) && x2 != ai as int);
                        assert(list_has(snap.gnode(xi).actions@, x2) <==> list_has(
                            pre.gnode(xi).actions@,
                            x2,
                        ));
                    } else {
                        assert(self.gnode(i) == snap.gnode(i));
                        assert(list_has(snap.gnode(i).actions@, x2) <==> list_has(
                            pre.gnode(i).actions@,
                            x2,
                        ));
                    }
                }
                assert forall|i: int|
                    self.glive(i) && #[trigger] list_has(self.gnode(i).actions@, ai as int)
                    implies list_has(pre.gnode(i).actions@, ai as int) by {
                    if i == xi {
                        assert(list_has(self.gnode(xi).actions@, ai as int) <==> list_has(
                            snap.gnode(xi).actions@,
                            ai as int,
                        ) && ai as int != ai as int);
                    } else {
                        assert(self.gnode(i) == snap.gnode(i));
                    }
                }
                assert forall|t2: int|
                    0 <= t2 < t + 1 implies !list_has(
                        self.gnode((#[trigger] holders@[t2]) as int).actions@,
                        ai as int,
                    ) by {
                    if (holders@[t2] as int) != xi {
                        assert(self.gnode(holders@[t2] as int) == snap.gnode(
                            holders@[t2] as int,
                        ));
                        if t2 < t {
                            assert(!list_has(snap.gnode(holders@[t2] as int).actions@, ai as int));
                        } else {
                            assert(holders@[t2] == x);
                        }
                    }
                }
            }
            t = t + 1;
        }

        // Cut the inverse edge out of every super-action.
        let mut t2: usize = 0;
        while t2 < supers.len()
            invariant
                pre.wf(),
                pre.alive(ai as int),
                holders@ == pre.anode(ai as int).grantees@,
                supers@ == pre.anode(ai as int).sub_action_of@,
                subs@ == pre.anode(ai as int).main_action_of@,
                t2 <= supers@.len(),
                self.gmap() == pre.gmap(),
                self.amap() == pre.amap(),
                self.grantees_arena.wf(),
                self.actions_arena.wf(),
                self.gslots().len() == pre.gslots().len(),
                self.aslots().len() == pre.aslots().len(),
                forall|i: int| self.glive(i) <==> pre.glive(i),
                forall|i: int| self.alive(i) <==> pre.alive(i),
                forall|i: int|
                    self.glive(i) ==> (#[trigger] self.gnode(i)).grantee_of@ == pre.gnode(
                        i,
                    ).grantee_of@ && self.gnode(i).grantees@ == pre.gnode(i).grantees@
                        && self.gnode(i).is_root == pre.gnode(i).is_root,
                forall|i: int, x: int|
                    self.glive(i) && x != ai as int ==> (#[trigger] list_has(
                        self.gnode(i).actions@,
                        x,
                    ) <==> list_has(pre.gnode(i).actions@, x)),
                forall|i: int|
                    self.glive(i) && #[trigger] list_has(self.gnode(i).actions@, ai as int)
                        ==> list_has(pre.gnode(i).actions@, ai as int),
                forall|t3: int|
                    0 <= t3 < holders@.len() ==> !list_has(
                        self.gnode((#[trigger] holders@[t3]) as int).actions@,
                        ai as int,
                    ),
                forall|i: int|
                    self.alive(i) ==> (#[trigger] self.anode(i)).grantees@ == pre.anode(
                        i,
                    ).grantees@ && self.anode(i).sub_action_of@ == pre.anode(i).sub_action_of@,
                forall|i: int, x: int|
                    self.alive(i) && x != ai as int ==> (#[trigger] list_has(
                        self.anode(i).main_action_of@,
                        x,
                    ) <==> list_has(pre.anode(i).main_action_of@, x)),
                forall|i: int|
                    self.alive(i) && #[trigger] list_has(
                        self.anode(i).main_action_of@,
                        ai as int,
                    ) ==> list_has(pre.anode(i).main_action_of@, ai as int),
                forall|t3: int|
                    0 <= t3 < t2 ==> !list_has(
                        self.anode((#[trigger] supers@[t3]) as int).main_action_of@,
                        ai as int,
                    ),
            decreases supers@.len() - t2,
        {
            let x = supers[t2];
            proof {
                assert(pre.anode(ai as int).sub_action_of@[t2 as int] == x);
                assert(pre.alive(x as int));
            }
            let ghost snap = *self;
            let xn = self.actions_arena.get_mut(x);
            remove_all(&mut xn.main_action_of, ai);
            proof {
                let xi = x as int;
                assert(self.gslots() == snap.gslots());
                assert forall|i: int|
                    self.glive(i) implies (#[trigger] self.gnode(i)) == snap.gnode(i) by {}
                assert forall|i: int, x2: int|
                    self.glive(i) && x2 != ai as int implies (#[trigger] list_has(
                        self.gnode(i).actions@,
                        x2,
                    ) <==> list_has(pre.gnode(i).actions@, x2)) by {
                    assert(self.gnode(i) == snap.gnode(i));
                    assert(list_has(snap.gnode(i).actions@, x2) <==> list_has(
                        pre.gnode(i).actions@,
                        x2,
                    ));
                }
                assert forall|i: int|
                    self.glive(i) && #[trigger] list_has(self.gnode(i).actions@, ai as int)
                    implies list_has(pre.gnode(i).actions@, ai as int) by {
                    assert(self.gnode(i) == snap.gnode(i));
                }
                assert forall|t3: int|
                    0 <= t3 < holders@.len() implies !list_has(
                        self.gnode((#[trigger] holders@[t3]) as int).actions@,
                        ai as int,
                    ) by {
                    assert(self.gnode(holders@[t3] as int) == snap.gnode(holders@[t3] as int));
                }
                assert forall|i: int|
                    0 <= i < self.aslots().len() && i != xi implies #[trigger] self.aslots()[i]
                    == snap.aslots()[i] by {}
                assert(self.alive(xi));
                assert forall|i: int| self.alive(i) <==> pre.alive(i) by {
                    if i != xi && 0 <= i < self.aslots().len() {
                        assert(self.aslots()[i] == snap.aslots()[i]);
                    }
                }
                assert forall|i2: int| #[trigger]
                    list_has(self.anode(xi).main_action_of@, i2) <==> list_has(
                        snap.anode(xi).main_action_of@,
                        i2,
                    ) && i2 != ai as int by {}
                assert forall|i: int|
                    self.alive(i) implies (#[trigger] self.anode(i)).grantees@ == pre.anode(
                        i,
                    ).grantees@ && self.anode(i).sub_action_of@ == pre.anode(
                        i,
                    ).sub_action_of@ by {
                    if i != xi {
                        assert(self.anode(i) == snap.anode(i));
                    } else {
                        assert(self.anode(xi).grantees@ == snap.anode(xi).grantees@);
                        assert(self.anode(xi).sub_action_of@ == snap.anode(xi).sub_action_of@);
                    }
                }
                assert forall|i: int, x2: int|
                    self.alive(i) && x2 != ai as int implies (#[trigger] list_has(
                        self.anode(i).main_action_of@,
                        x2,
                    ) <==> list_has(pre.anode(i).main_action_of@, x2)) by {
                    if i == xi {
                        assert(list_has(self.anode(xi).main_action_of@, x2) <==> list_has(
                            snap.anode(xi).main_action_of@,
                            x2,
                        ) && x2 != ai as int);
                        assert(list_has(snap.anode(xi).main_action_of@, x2) <==> list_has(
                            pre.anode(xi).main_action_of@,
                            x2,
                        ));
                    } else {
                        assert(self.anode(i) == snap.anode(i));
                        assert(list_has(snap.anode(i).main_action_of@, x2) <==> list_has(
                            pre.anode(i).main_action_of@,
                            x2,
                        ));
                    }
                }
                assert forall|i: int|
                    self.alive(i) && #[trigger] list_has(
                        self.anode(i).main_action_of@,
                        ai as int,
                    ) implies list_has(pre.anode(i).main_action_of@, ai as int) by {
                    if i == xi {
                        assert(list_has(self.anode(xi).main_action_of@, ai as int) <==> list_has(
                            snap.anode(xi).main_action_of@,
                            ai as int,
                        ) && ai as int != ai as int);
                    } else {
                        assert(self.anode(i) == snap.anode(i));
                    }
                }
                assert forall|t3: int|
                    0 <= t3 < t2 + 1 implies !list_has(
                        self.anode((#[trigger] supers@[t3]) as int).main_action_of@,
                        ai as int,
                    ) by {
                    if (supers@[t3] as int) != xi {
                        assert(self.anode(supers@[t3] as int) == snap.anode(supers@[t3] as int));
                        if t3 < t2 {
                            assert(!list_has(
                                snap.anode(supers@[t3] as int).main_action_of@,
                                ai as int,
                            ));
                        } else {
                            assert(supers@[t3] == x);
                        }
                    }
                }
            }
            t2 = t2 + 1;
        }

        // Cut the inverse edge out of every sub-action.
        let mut t3: usize = 0;
        while t3 < subs.len()
            invariant
                pre.wf(),
                pre.alive(ai as int),
                holders@ == pre.anode(ai as int).grantees@,
                supers@ == pre.anode(ai as int).sub_action_of@,
                subs@ == pre.anode(ai as int).main_action_of@,
                t3 <= subs@.len(),
                self.gmap() == pre.gmap(),
                self.amap() == pre.amap(),
                self.grantees_arena.wf(),
                self.actions_arena.wf(),
                self.gslots().len() == pre.gslots().len(),
                self.aslots().len() == pre.aslots().len(),
                forall|i: int| self.glive(i) <==> pre.glive(i),
                forall|i: int| self.alive(i) <==> pre.alive(i),
                forall|i: int|
                    self.glive(i) ==> (#[trigger] self.gnode(i)).grantee_of@ == pre.gnode(
                        i,
                    ).grantee_of@ && self.gnode(i).grantees@ == pre.gnode(i).grantees@
                        && self.gnode(i).is_root == pre.gnode(i).is_root,
                forall|i: int, x: int|
                    self.glive(i) && x != ai as int ==> (#[trigger] list_has(
                        self.gnode(i).actions@,
                        x,
                    ) <==> list_has(pre.gnode(i).actions@, x)),
                forall|i: int|
                    self.glive(i) && #[trigger] list_has(self.gnode(i).actions@, ai as int)
                        ==> list_has(pre.gnode(i).actions@, ai as int),
                forall|t4: int|
                    0 <= t4 < holders@.len() ==> !list_has(
                        self.gnode((#[trigger] holders@[t4]) as int).actions@,
                        ai as int,
                    ),
                forall|i: int|
                    self.alive(i) ==> (#[trigger] self.anode(i)).grantees@ == pre.anode(
                        i,
                    ).grantees@,
                forall|i: int, x: int|
                    self.alive(i) && x != ai as int ==> (#[trigger] list_has(
                        self.anode(i).main_action_of@,
                        x,
                    ) <==> list_has(pre.anode(i).main_action_of@, x)),
                forall|i: int|
                    self.alive(i) && #[trigger] list_has(
                        self.anode(i).main_action_of@,
                        ai as int,
                    ) ==> list_has(pre.anode(i).main_action_of@, ai as int),
                forall|t4: int|
                    0 <= t4 < supers@.len() ==> !list_has(
                        self.anode((#[trigger] supers@[t4]) as int).main_action_of@,
                        ai as int,
                    ),
                forall|i: int, x: int|
                    self.alive(i) && x != ai as int ==> (#[trigger] list_has(
                        self.anode(i).sub_action_of@,
                        x,
                    ) <==> list_has(pre.anode(i).sub_action_of@, x)),
                forall|i: int|
                    self.alive(i) && #[trigger] list_has(
                        self.anode(i).sub_action_of@,
                        ai as int,
                    ) ==> list_has(pre.anode(i).sub_action_of@, ai as int),
                forall|t4: int|
                    0 <= t4 < t3 ==> !list_has(
                        self.anode((#[trigger] subs@[t4]) as int).sub_action_of@,
                        ai as int,
                    ),
            decreases subs@.len() - t3,
        {
            let x = subs[t3];
            proof {
                assert(pre.anode(ai as int).main_action_of@[t3 as int] == x);
                assert(pre.alive(x as int));
            }
            let ghost snap = *self;
            let xn = self.actions_arena.get_mut(x);
            remove_all(&mut xn.sub_action_of, ai);
            proof {
                let xi = x as int;
                assert(self.gslots() == snap.gslots());
                assert forall|i: int|
                    self.glive(i) implies (#[trigger] self.gnode(i)) == snap.gnode(i) by {}
                assert forall|i: int, x2: int|
                    self.glive(i) && x2 != ai as int implies (#[trigger] list_has(
                        self.gnode(i).actions@,
                        x2,
                    ) <==> list_has(pre.gnode(i).actions@, x2)) by {
                    assert(self.gnode(i) == snap.gnode(i));
                    assert(list_has(snap.gnode(i).actions@, x2) <==> list_has(
                        pre.gnode(i).actions@,
                        x2,
                    ));
                }
                assert forall|i: int|
                    self.glive(i) && #[trigger] list_has(self.gnode(i).actions@, ai as int)
                    implies list_has(pre.gnode(i).actions@, ai as int) by {
                    assert(self.gnode(i) == snap.gnode(i));
                }
                assert forall|t4: int|
                    0 <= t4 < holders@.len() implies !list_has(
                        self.gnode((#[trigger] holders@[t4]) as int).actions@,
                        ai as int,
                    ) by {
                    assert(self.gnode(holders@[t4] as int) == snap.gnode(holders@[t4] as int));
                }
                assert forall|i: int|
                    0 <= i < self.aslots().len() && i != xi implies #[trigger] self.aslots()[i]
                    == snap.aslots()[i] by {}
                assert(self.alive(xi));
                assert forall|i: int| self.alive(i) <==> pre.alive(i) by {
                    if i != xi && 0 <= i < self.aslots().len() {
                        assert(self.aslots()[i] == snap.aslots()[i]);
                    }
                }
                assert forall|i2: int| #[trigger]
                    list_has(self.anode(xi).sub_action_of@, i2) <==> list_has(
                        snap.anode(xi).sub_action_of@,
                        i2,
                    ) && i2 != ai as int by {}
                assert forall|i: int|
                    self.alive(i) implies (#[trigger] self.anode(i)).grantees@ == pre.anode(
                        i,
                    ).grantees@ by {
                    if i != xi {
                        assert(self.anode(i) == snap.anode(i));
                    } else {
                        assert(self.anode(xi).grantees@ == snap.anode(xi).grantees@);
                    }
                }
                assert forall|i: int, x2: int|
                    self.alive(i) && x2 != ai as int implies (#[trigger] list_has(
                        self.anode(i).main_action_of@,
                        x2,
                    ) <==> list_has(pre.anode(i).main_action_of@, x2)) by {
                    if i == xi {
                        assert(self.anode(xi).main_action_of@ == snap.anode(xi).main_action_of@);
                        assert(list_has(snap.anode(xi).main_action_of@, x2) <==> list_has(
                            pre.anode(xi).main_action_of@,
                            x2,
                        ));
                    } else {
                        assert(self.anode(i) == snap.anode(i));
                        assert(list_has(snap.anode(i).main_action_of@, x2) <==> list_has(
                            pre.anode(i).main_action_of@,
                            x2,
                        ));
                    }
                }
                assert forall|i: int|
                    self.alive(i) && #[trigger] list_has(
                        self.anode(i).main_action_of@,
                        ai as int,
                    ) implies list_has(pre.anode(i).main_action_of@, ai as int) by {
                    if i == xi {
                        assert(self.anode(xi).main_action_of@ == snap.anode(xi).main_action_of@);
                    } else {
                        assert(self.anode(i) == snap.anode(i));
                    }
                }
                assert forall|t4: int|
                    0 <= t4 < supers@.len() implies !list_has(
                        self.anode((#[trigger] supers@[t4]) as int).main_action_of@,
                        ai as int,
                    ) by {
                    if (supers@[t4] as int) != xi {
                        assert(self.anode(supers@[t4] as int) == snap.anode(supers@[t4] as int));
                    } else {
                        assert(self.anode(xi).main_action_of@ == snap.anode(xi).main_action_of@);
                    }
                }
                assert forall|i: int, x2: int|
                    self.alive(i) && x2 != ai as int implies (#[trigger] list_has(
                        self.anode(i).sub_action_of@,
                        x2,
                    ) <==> list_has(pre.anode(i).sub_action_of@, x2)) by {
                    if i == xi {
                        assert(list_has(self.anode(xi).sub_action_of@, x2) <==> list_has(
                            snap.anode(xi).sub_action_of@,
                            x2,
                        ) && x2 != ai as int);
                        assert(list_has(snap.anode(xi).sub_action_of@, x2) <==> list_has(
                            pre.anode(xi).sub_action_of@,
                            x2,
                        ));
                    } else {
                        assert(self.anode(i) == snap.anode(i));
                        assert(list_has(snap.anode(i).sub_action_of@, x2) <==> list_has(
                            pre.anode(i).sub_action_of@,
                            x2,
                        ));
                    }
                }
                assert forall|i: int|
                    self.alive(i) && #[trigger] list_has(
                        self.anode(i).sub_action_of@,
                        ai as int,
                    ) implies list_has(pre.anode(i).sub_action_of@, ai as int) by {
                    if i == xi {
                        assert(list_has(self.anode(xi).sub_action_of@, ai as int) <==> list_has(
                            snap.anode(xi).sub_action_of@,
                            ai as int,
                        ) && ai as int != ai as int);
                    } else {
                        assert(self.anode(i) == snap.anode(i));
                    }
                }
                assert forall|t4: int|
                    0 <= t4 < t3 + 1 implies !list_has(
                        self.anode((#[trigger] subs@[t4]) as int).sub_action_of@,
                        ai as int,
                    ) by {
                    if (subs@[t4] as int) != xi {
                        assert(self.anode(subs@[t4] as int) == snap.anode(subs@[t4] as int));
                        if t4 < t3 {
                            assert(!list_has(
                                snap.anode(subs@[t4] as int).sub_action_of@,
                                ai as int,
                            ));
                        } else {
                            assert(subs@[t4] == x);
                        }
                    }
                }
            }
            t3 = t3 + 1;
        }

        let ghost cut = *self;
        self.actions.remove(k);
        let _ = self.actions_arena.remove(ai);
        proof {
            assert forall|i: int|
                0 <= i < self.aslots().len() && i != ai as int implies #[trigger] self.aslots()[i]
                == cut.aslots()[i] by {}
            assert(!self.alive(ai as int));
            assert forall|i: int| self.alive(i) <==> pre.alive(i) && i != ai as int by {
                if i != ai as int && 0 <= i < self.aslots().len() {
                    assert(self.aslots()[i] == cut.aslots()[i]);
                    assert(cut.alive(i) <==> pre.alive(i));
                }
            }
            assert forall|i: int|
                self.alive(i) implies (#[trigger] self.anode(i)) == cut.anode(i) by {}
            assert(self.gslots() == cut.gslots());
            assert forall|i: int|
                self.glive(i) implies (#[trigger] self.gnode(i)) == cut.gnode(i) by {}
            assert forall|i: int|
                self.glive(i) implies (#[trigger] self.gnode(i)).grantee_of@ == pre.gnode(
                    i,
                ).grantee_of@ && self.gnode(i).grantees@ == pre.gnode(i).grantees@
                    && self.gnode(i).is_root == pre.gnode(i).is_root by {
                assert(self.gnode(i) == cut.gnode(i));
            }
            assert forall|i: int, x: int|
                self.glive(i) && x != ai as int implies (#[trigger] list_has(
                    self.gnode(i).actions@,
                    x,
                ) <==> list_has(pre.gnode(i).actions@, x)) by {
                assert(self.gnode(i) == cut.gnode(i));
                assert(list_has(cut.gnode(i).actions@, x) <==> list_has(
                    pre.gnode(i).actions@,
                    x,
                ));
            }
            assert forall|i: int|
                self.glive(i) && #[trigger] list_has(self.gnode(i).actions@, ai as int)
                implies list_has(pre.gnode(i).actions@, ai as int) by {
                assert(self.gnode(i) == cut.gnode(i));
            }
            assert forall|t4: int|
                0 <= t4 < pre.anode(ai as int).grantees@.len() implies !list_has(
                    self.gnode((#[trigger] pre.anode(ai as int).grantees@[t4]) as int).actions@,
                    ai as int,
                ) by {
                let y = pre.anode(ai as int).grantees@[t4] as int;
                assert(holders@[t4] as int == y);
                assert(self.gnode(y) == cut.gnode(y));
                assert(!list_has(cut.gnode(y).actions@, ai as int));
            }
            assert forall|i: int|
                self.alive(i) implies (#[trigger] self.anode(i)).grantees@ == pre.anode(
                    i,
                ).grantees@ by {
                assert(self.anode(i) == cut.anode(i));
            }
            assert forall|i: int, x: int|
                self.alive(i) && x != ai as int implies (#[trigger] list_has(
                    self.anode(i).main_action_of@,
                    x,
                ) <==> list_has(pre.anode(i).main_action_of@, x)) by {
                assert(self.anode(i) == cut.anode(i));
                assert(list_has(cut.anode(i).main_action_of@, x) <==> list_has(
                    pre.anode(i).main_action_of@,
                    x,
                ));
            }
            assert forall|i: int|
                self.alive(i) && #[trigger] list_has(self.anode(i).main_action_of@, ai as int)
                implies list_has(pre.anode(i).main_action_of@, ai as int) by {
                assert(self.anode(i) == cut.anode(i));
            }
            assert forall|t4: int|
                0 <= t4 < pre.anode(ai as int).sub_action_of@.len() implies !list_has(
                    self.anode(
                        (#[trigger] pre.anode(ai as int).sub_action_of@[t4]) as int,
                    ).main_action_of@,
                    ai as int,
                ) || !self.alive(pre.anode(ai as int).sub_action_of@[t4] as int) by {
                let y = pre.anode(ai as int).sub_action_of@[t4] as int;
                assert(supers@[t4] as int == y);
                if self.alive(y) {
                    assert(self.anode(y) == cut.anode(y));
                    assert(!list_has(cut.anode(y).main_action_of@, ai as int));
                }
            }
            assert forall|i: int, x: int|
                self.alive(i) && x != ai as int implies (#[trigger] list_has(
                    self.anode(i).sub_action_of@,
                    x,
                ) <==> list_has(pre.anode(i).sub_action_of@, x)) by {
                assert(self.anode(i) == cut.anode(i));
                assert(list_has(cut.anode(i).sub_action_of@, x) <==> list_has(
                    pre.anode(i).sub_action_of@,
                    x,
                ));
            }
            assert forall|i: int|
                self.alive(i) && #[trigger] list_has(self.anode(i).sub_action_of@, ai as int)
                implies list_has(pre.anode(i).sub_action_of@, ai as int) by {
                assert(self.anode(i) == cut.anode(i));
            }
            assert forall|t4: int|
                0 <= t4 < pre.anode(ai as int).main_action_of@.len() implies !list_has(
                    self.anode(
                        (#[trigger] pre.anode(ai as int).main_action_of@[t4]) as int,
                    ).sub_action_of@,
                    ai as int,
                ) || !self.alive(pre.anode(ai as int).main_action_of@[t4] as int) by {
                let y = pre.anode(ai as int).main_action_of@[t4] as int;
                assert(subs@[t4] as int == y);
                if self.alive(y) {
                    assert(self.anode(y) == cut.anode(y));
                    assert(!list_has(cut.anode(y).sub_action_of@, ai as int));
                }
            }
            self.lemma_after_remove_action(pre, k as int, ai, action_id);
        }
        Ok(())
    }

    /// The state change of deleting an action whose incident edges have all
    /// been cut from the partner side.
    proof fn lemma_after_remove_action(&self, pre: CanDo, k: int, ai: usize, a: u64)
        requires
            pre.wf(),
            0 <= k < pre.amap().len(),
            pre.amap()[k] == (a, ai),
            pre.alive(ai as int),
            self.amap() == pre.amap().remove(k),
            self.gmap() == pre.gmap(),
            self.grantees_arena.wf(),
            self.actions_arena.wf(),
            self.gslots().len() == pre.gslots().len(),
            self.aslots().len() == pre.aslots().len(),
            forall|i: int| self.alive(i) <==> pre.alive(i) && i != ai as int,
            forall|i: int| self.glive(i) <==> pre.glive(i),
            forall|i: int|
                self.glive(i) ==> (#[trigger] self.gnode(i)).grantee_of@ == pre.gnode(
                    i,
                ).grantee_of@ && self.gnode(i).grantees@ == pre.gnode(i).grantees@ && self.gnode(
                    i,
                ).is_root == pre.gnode(i).is_root,
            forall|i: int, x: int|
                self.glive(i) && x != ai as int ==> (#[trigger] list_has(
                    self.gnode(i).actions@,
                    x,
                ) <==> list_has(pre.gnode(i).actions@, x)),
            forall|i: int|
                self.glive(i) && #[trigger] list_has(self.gnode(i).actions@, ai as int)
                    ==> list_has(pre.gnode(i).actions@, ai as int),
            forall|t4: int|
                0 <= t4 < pre.anode(ai as int).grantees@.len() ==> !list_has(
                    self.gnode((#[trigger] pre.anode(ai as int).grantees@[t4]) as int).actions@,
                    ai as int,
                ) || !self.glive(pre.anode(ai as int).grantees@[t4] as int),
            forall|i: int|
                self.alive(i) ==> (#[trigger] self.anode(i)).grantees@ == pre.anode(i).grantees@,
            forall|i: int, x: int|
                self.alive(i) && x != ai as int ==> (#[trigger] list_has(
                    self.anode(i).main_action_of@,
                    x,
                ) <==> list_has(pre.anode(i).main_action_of@, x)),
            forall|i: int|
                self.alive(i) && #[trigger] list_has(self.anode(i).main_action_of@, ai as int)
                    ==> list_has(pre.anode(i).main_action_of@, ai as int),
            forall|t4: int|
                0 <= t4 < pre.anode(ai as int).sub_action_of@.len() ==> !list_has(
                    self.anode(
                        (#[trigger] pre.anode(ai as int).sub_action_of@[t4]) as int,
                    ).main_action_of@,
                    ai as int,
                ) || !self.alive(pre.anode(ai as int).sub_action_of@[t4] as int),
            forall|i: int, x: int|
                self.alive(i) && x != ai as int ==> (#[trigger] list_has(
                    self.anode(i).sub_action_of@,
                    x,
                ) <==> list_has(pre.anode(i).sub_action_of@, x)),
            forall|i: int|
                self.alive(i) && #[trigger] list_has(self.anode(i).sub_action_of@, ai as int)
                    ==> list_has(pre.anode(i).sub_action_of@, ai as int),
            forall|t4: int|
                0 <= t4 < pre.anode(ai as int).main_action_of@.len() ==> !list_has(
                    self.anode(
                        (#[trigger] pre.anode(ai as int).main_action_of@[t4]) as int,
                    ).sub_action_of@,
                    ai as int,
                ) || !self.alive(pre.anode(ai as int).main_action_of@[t4] as int),
        ensures
            self.wf(),
            self.model() == pre.model().remove_action_m(a),
    {
        let aes = pre.amap();
        let aes2 = self.amap();
        lemma_entries_bijective(aes);
        lemma_entry_remove(aes, k);
        assert(aes[k].0 == a && aes[k].1 == ai);
        assert(idx_of(aes, a) == ai as int) by {
            let kk = choose|kk: int| 0 <= kk < aes.len() && (#[trigger] aes[kk]).0 == a;
            assert(kk == k);
        }

        // No surviving node still points at the removed position.
        assert forall|i: int|
            self.glive(i) implies !list_has(self.gnode(i).actions@, ai as int) by {
            if list_has(self.gnode(i).actions@, ai as int) {
                assert(list_has(pre.gnode(i).actions@, ai as int));
                let l = choose|l: int|
                    0 <= l < pre.gnode(i).actions@.len() && (((#[trigger] pre.gnode(
                        i,
                    ).actions@[l])) as int) == ai as int;
                assert(list_has(pre.anode(ai as int).grantees@, i));
                let t4 = choose|t4: int|
                    0 <= t4 < pre.anode(ai as int).grantees@.len() && (((#[trigger] pre.anode(
                        ai as int,
                    ).grantees@[t4])) as int) == i;
                assert(!list_has(self.gnode(i).actions@, ai as int));
            }
        }
        assert forall|i: int|
            self.alive(i) implies !list_has(self.anode(i).main_action_of@, ai as int) by {
            if list_has(self.anode(i).main_action_of@, ai as int) {
                assert(list_has(pre.anode(i).main_action_of@, ai as int));
                let l = choose|l: int|
                    0 <= l < pre.anode(i).main_action_of@.len() && (((#[trigger] pre.anode(
                        i,
                    ).main_action_of@[l])) as int) == ai as int;
                assert(list_has(pre.anode(ai as int).sub_action_of@, i));
                let t4 = choose|t4: int|
                    0 <= t4 < pre.anode(ai as int).sub_action_of@.len() && (((#[trigger] pre.anode(
                        ai as int,
                    ).sub_action_of@[t4])) as int) == i;
                assert(!list_has(self.anode(i).main_action_of@, ai as int));
            }
        }
        assert forall|i: int|
            self.alive(i) implies !list_has(self.anode(i).sub_action_of@, ai as int) by {
            if list_has(self.anode(i).sub_action_of@, ai as int) {
                assert(list_has(pre.anode(i).sub_action_of@, ai as int));
                let l = choose|l: int|
                    0 <= l < pre.anode(i).sub_action_of@.len() && (((#[trigger] pre.anode(
                        i,
                    ).sub_action_of@[l])) as int) == ai as int;
                assert(list_has(pre.anode(ai as int).main_action_of@, i));
                let t4 = choose|t4: int|
                    0 <= t4 < pre.anode(ai as int).main_action_of@.len() && (((
                    #[trigger] pre.anode(ai as int).main_action_of@[t4])) as int) == i;
                assert(!list_has(self.anode(i).sub_action_of@, ai as int));
            }
        }

        assert(Self::table_ok(self.amap(), self.aslots())) by {
            assert forall|j1: int, j2: int|
                #![trigger aes2[j1], aes2[j2]]
                0 <= j1 < j2 < aes2.len() implies aes2[j1].0 != aes2[j2].0 && aes2[j1].1
                != aes2[j2].1 by {}
            assert forall|j: int|
                0 <= j < aes2.len() implies ((#[trigger] aes2[j]).1 as int) < self.aslots().len()
                && self.aslots()[aes2[j].1 as int] is Some by {
                let j0: int = if j < k {
                    j
                } else {
                    j + 1
                };
                assert(aes2[j] == aes[j0]);
                assert(pre.alive(aes[j0].1 as int));
                assert(j0 != k);
                assert(aes[j0].1 != aes[k].1);
                assert(self.alive(aes[j0].1 as int));
            }
            assert forall|i: int|
                0 <= i < self.aslots().len() && (#[trigger] self.aslots()[i]) is Some
                implies has_val(aes2, i) by {
                assert(self.alive(i));
                assert(pre.alive(i) && i != ai as int);
                assert(has_val(aes, i));
            }
        }
        assert(Self::table_ok(self.gmap(), self.gslots())) by {
            assert forall|i: int|
                0 <= i < self.gslots().len() && (#[trigger] self.gslots()[i]) is Some
                implies has_val(pre.gmap(), i) by {
                assert(pre.glive(i));
            }
            assert forall|j: int|
                0 <= j < self.gmap().len() implies ((#[trigger] self.gmap()[j]).1 as int)
                < self.gslots().len() && self.gslots()[self.gmap()[j].1 as int] is Some by {
                assert(pre.glive(pre.gmap()[j].1 as int));
            }
        }

        assert(self.edges_ok()) by {
            assert forall|i: int, j: int|
                self.glive(i) && 0 <= j < self.gnode(i).grantee_of@.len() implies {
                let x = (#[trigger] self.gnode(i).grantee_of@[j]) as int;
                x != i && self.glive(x) && list_has(self.gnode(x).grantees@, i)
            } by {
                assert(self.gnode(i).grantee_of@ == pre.gnode(i).grantee_of@);
                let x = (pre.gnode(i).grantee_of@[j]) as int;
                assert(x != i && pre.glive(x) && list_has(pre.gnode(x).grantees@, i));
                assert(self.gnode(x).grantees@ == pre.gnode(x).grantees@);
            }
            assert forall|i: int, j: int|
                self.glive(i) && 0 <= j < self.gnode(i).grantees@.len() implies {
                let x = (#[trigger] self.gnode(i).grantees@[j]) as int;
                x != i && self.glive(x) && list_has(self.gnode(x).grantee_of@, i)
            } by {
                assert(self.gnode(i).grantees@ == pre.gnode(i).grantees@);
                let x = (pre.gnode(i).grantees@[j]) as int;
                assert(x != i && pre.glive(x) && list_has(pre.gnode(x).grantee_of@, i));
                assert(self.gnode(x).grantee_of@ == pre.gnode(x).grantee_of@);
            }
            assert forall|i: int, j: int|
                self.glive(i) && 0 <= j < self.gnode(i).actions@.len() implies {
                let x = (#[trigger] self.gnode(i).actions@[j]) as int;
                self.alive(x) && list_has(self.anode(x).grantees@, i)
            } by {
                let x = (self.gnode(i).actions@[j]) as int;
                assert(list_has(self.gnode(i).actions@, x));
                assert(x != ai as int);
                assert(list_has(pre.gnode(i).actions@, x));
                let l = choose|l: int|
                    0 <= l < pre.gnode(i).actions@.len() && (((#[trigger] pre.gnode(
                        i,
                    ).actions@[l])) as int) == x;
                assert(pre.alive(x) && list_has(pre.anode(x).grantees@, i));
                assert(self.alive(x));
                assert(self.anode(x).grantees@ == pre.anode(x).grantees@);
            }
            assert forall|i: int, j: int|
                self.alive(i) && 0 <= j < self.anode(i).grantees@.len() implies {
                let x = (#[trigger] self.anode(i).grantees@[j]) as int;
                self.glive(x) && list_has(self.gnode(x).actions@, i)
            } by {
                assert(self.anode(i).grantees@ == pre.anode(i).grantees@);
                let x = (pre.anode(i).grantees@[j]) as int;
                assert(pre.glive(x) && list_has(pre.gnode(x).actions@, i));
                assert(self.glive(x));
                assert(i != ai as int);
                assert(list_has(self.gnode(x).actions@, i));
            }
            assert forall|i: int, j: int|
                self.alive(i) && 0 <= j < self.anode(i).main_action_of@.len() implies {
                let x = (#[trigger] self.anode(i).main_action_of@[j]) as int;
                x != i && self.alive(x) && list_has(self.anode(x).sub_action_of@, i)
            } by {
                let x = (self.anode(i).main_action_of@[j]) as int;
                assert(list_has(self.anode(i).main_action_of@, x));
                assert(x != ai as int);
                assert(list_has(pre.anode(i).main_action_of@, x));
                let l = choose|l: int|
                    0 <= l < pre.anode(i).main_action_of@.len() && (((#[trigger] pre.anode(
                        i,
                    ).main_action_of@[l])) as int) == x;
                assert(x != i && pre.alive(x) && list_has(pre.anode(x).sub_action_of@, i));
                assert(self.alive(x));
                assert(i != ai as int);
                assert(list_has(self.anode(x).sub_action_of@, i));
            }
            assert forall|i: int, j: int|
                self.alive(i) && 0 <= j < self.anode(i).sub_action_of@.len() implies {
                let x = (#[trigger] self.anode(i).sub_action_of@[j]) as int;
                x != i && self.alive(x) && list_has(self.anode(x).main_action_of@, i)
            } by {
                let x = (self.anode(i).sub_action_of@[j]) as int;
                assert(list_has(self.anode(i).sub_action_of@, x));
                assert(x != ai as int);
                assert(list_has(pre.anode(i).sub_action_of@, x));
                let l = choose|l: int|
                    0 <= l < pre.anode(i).sub_action_of@.len() && (((#[trigger] pre.anode(
                        i,
                    ).sub_action_of@[l])) as int) == x;
                assert(x != i && pre.alive(x) && list_has(pre.anode(x).main_action_of@, i));
                assert(self.alive(x));
                assert(i != ai as int);
                assert(list_has(self.anode(x).main_action_of@, i));
            }
        }

        let m1 = self.model();
        let m2 = pre.model().remove_action_m(a);
        assert forall|g2: u64| #[trigger]
            m1.grantees.dom().contains(g2) <==> m2.grantees.dom().contains(g2) by {}
        assert forall|g2: u64| m1.grantees.dom().contains(g2) implies #[trigger] m1.grantees[g2]
            =~= m2.grantees[g2] by {
            assert(has_key(pre.gmap(), g2));
            let i = idx_of(pre.gmap(), g2);
            assert(pre.glive(i));
            assert(self.glive(i));
            lemma_ids_of_remove_entry(aes, k, pre.gnode(i).actions@, self.gnode(i).actions@);
            assert(m1.grantees[g2].acts =~= m2.grantees[g2].acts);
            assert(self.gnode(i).grantee_of@ == pre.gnode(i).grantee_of@);
            assert(m1.grantees[g2].parents =~= m2.grantees[g2].parents) by {
                lemma_ids_of_same_membership(
                    pre.gmap(),
                    pre.gnode(i).grantee_of@,
                    self.gnode(i).grantee_of@,
                );
            }
        }
        assert(m1.grantees =~= m2.grantees);
        assert forall|a2: u64| #[trigger]
            m1.actions.dom().contains(a2) <==> m2.actions.dom().contains(a2) by {}
        assert forall|a2: u64| m1.actions.dom().contains(a2) implies #[trigger] m1.actions[a2]
            =~= m2.actions[a2] by {
            assert(a2 != a && has_key(aes, a2));
            let i = idx_of(aes, a2);
            assert(idx_of(aes2, a2) == i);
            assert(pre.alive(i));
            assert(i != ai as int) by {
                lemma_entries_bijective(aes);
                if i == ai as int {
                    assert(key_of(aes, i) == a2);
                    assert(key_of(aes, ai as int) == a) by {
                        let kk = choose|kk: int|
                            0 <= kk < aes.len() && ((#[trigger] aes[kk]).1 as int) == ai as int;
                        assert(kk == k);
                    }
                }
            }
            assert(self.alive(i));
            lemma_ids_of_remove_entry(
                aes,
                k,
                pre.anode(i).sub_action_of@,
                self.anode(i).sub_action_of@,
            );
            assert(m1.actions[a2] =~= m2.actions[a2]);
        }
        assert(m1.actions =~= m2.actions);
        assert(m1 =~= m2);
    }

    /// Position `j` is a super-action of position `i`: whoever may perform
    /// `j` may also perform `i`.
    pub open spec fn sub_edge(&self, i: int, j: int) -> bool {
        self.alive(i) && self.alive(j) && list_has(self.anode(i).sub_action_of@, j)
    }

    /// Position `i` inherits rights from position `j`.
    pub open spec fn parent_edge(&self, i: int, j: int) -> bool {
        self.glive(i) && self.glive(j) && list_has(self.gnode(i).grantee_of@, j)
    }

    /// Position `j` inherits rights from position `i`.
    pub open spec fn child_edge(&self, i: int, j: int) -> bool {
        self.glive(i) && self.glive(j) && list_has(self.gnode(i).grantees@, j)
    }

    /// `p` walks up super-action edges.
    pub open spec fn is_apath(&self, p: Seq<int>) -> bool {
        p.len() >= 1 && (forall|t: int| 0 <= t < p.len() - 1 ==> #[trigger] self.sub_edge(
            p[t],
            p[t + 1],
        ))
    }

    /// Action position `b` is reachable from `a` along super-action edges,
    /// reflexively.
    pub open spec fn areach(&self, a: int, b: int) -> bool {
        exists|p: Seq<int>|
            #![trigger self.is_apath(p)]
            self.is_apath(p) && p.first() == a && p.last() == b
    }

    /// `p` walks up inheritance edges.
    pub open spec fn is_upath(&self, p: Seq<int>) -> bool {
        p.len() >= 1 && (forall|t: int| 0 <= t < p.len() - 1 ==> #[trigger] self.parent_edge(
            p[t],
            p[t + 1],
        ))
    }

    /// Grantee position `m` is reachable from `x` along inheritance edges,
    /// reflexively.
    pub open spec fn upreach(&self, x: int, m: int) -> bool {
        exists|p: Seq<int>|
            #![trigger self.is_upath(p)]
            self.is_upath(p) && p.first() == x && p.last() == m
    }

    /// A super-action reachability extends along one more edge.
    proof fn lemma_areach_step(&self, a: int, mid: int, to: int)
        requires
            self.areach(a, mid),
            self.sub_edge(mid, to),
        ensures
            self.areach(a, to),
    {
        let p = choose|p: Seq<int>|
            #![trigger self.is_apath(p)]
            self.is_apath(p) && p.first() == a && p.last() == mid;
        let q = p.push(to);
        assert forall|t: int| 0 <= t < q.len() - 1 implies #[trigger] self.sub_edge(
            q[t],
            q[t + 1],
        ) by {
            if t < p.len() - 1 {
                assert(self.sub_edge(p[t], p[t + 1]));
            }
        }
        assert(self.is_apath(q) && q.first() == a && q.last() == to);
    }

    /// An inheritance reachability extends by one edge at the near end.
    proof fn lemma_upreach_prepend(&self, x: int, mid: int, m: int)
        requires
            self.parent_edge(x, mid),
            self.upreach(mid, m),
        ensures
            self.upreach(x, m),
    {
        let p = choose|p: Seq<int>|
            #![trigger self.is_upath(p)]
            self.is_upath(p) && p.first() == mid && p.last() == m;
        let q = seq![x] + p;
        assert(q.len() == p.len() + 1);
        assert(q[0] == x);
        assert forall|i: int| 1 <= i < q.len() implies #[trigger] q[i] == p[i - 1] by {}
        assert forall|t: int| 0 <= t < q.len() - 1 implies #[trigger] self.parent_edge(
            q[t],
            q[t + 1],
        ) by {
            if t == 0 {
                assert(q[1] == p[0]);
                assert(self.parent_edge(x, p[0])) by {
                    assert(p.first() == mid);
                }
            } else {
                assert(q[t] == p[t - 1] && q[t + 1] == p[t]);
                let t2 = t - 1;
                assert(self.parent_edge(p[t2], p[t2 + 1]));
            }
        }
        assert(self.is_upath(q) && q.first() == x && q.last() == m);
    }

    /// A set closed under super-action edges contains every node reachable
    /// from one of its members.
    proof fn lemma_apath_closed(&self, visited: Seq<bool>, p: Seq<int>)
        requires
            visited.len() == self.aslots().len(),
            self.is_apath(p),
            0 <= p.first() < visited.len(),
            visited[p.first()],
            forall|x: int, y: int|
                0 <= x < visited.len() && visited[x] && #[trigger] self.sub_edge(x, y) ==> 0 <= y
                    < visited.len() && visited[y],
        ensures
            0 <= p.last() < visited.len(),
            visited[p.last()],
        decreases p.len(),
    {
        if p.len() > 1 {
            let q = p.drop_last();
            assert forall|t: int| 0 <= t < q.len() - 1 implies #[trigger] self.sub_edge(
                q[t],
                q[t + 1],
            ) by {
                assert(self.sub_edge(p[t], p[t + 1]));
            }
            assert(self.is_apath(q));
            self.lemma_apath_closed(visited, q);
            let t2 = p.len() - 2;
            assert(self.sub_edge(p[t2], p[t2 + 1]));
            assert(q.last() == p[t2]);
        }
    }

    /// Walks the super-action edges upward from `start` and returns the
    /// bitmap of every action position that implies it.
    fn action_ascent(&self, start: usize) -> (visited: Vec<bool>)
        requires
            self.wf(),
            self.alive(start as int),
        ensures
            visited@.len() == self.aslots().len(),
            forall|x: int|
                0 <= x < visited@.len() ==> (#[trigger] visited@[x] <==> self.areach(
                    start as int,
                    x,
                )),
            forall|x: int| 0 <= x < visited@.len() && #[trigger] visited@[x] ==> self.alive(x),
    {
        let n = self.actions_arena.len();
        let mut visited: Vec<bool> = Vec::new();
        let mut f: usize = 0;
        while f < n
            invariant
                f <= n,
                visited@.len() == f,
                forall|x: int| 0 <= x < f ==> !(#[trigger] visited@[x]),
            decreases n - f,
        {
            visited.push(false);
            f = f + 1;
        }
        let mut queue: Vec<usize> = Vec::new();
        visited.set(start, true);
        queue.push(start);
        proof {
            assert(self.is_apath(seq![start as int]));
            assert(seq![start as int].first() == start as int);
            assert(self.areach(start as int, start as int));
            assert((queue@[0] as int) == start as int);
            assert(list_has(queue@, start as int));
            assert forall|x: int, y: int|
                0 <= x < n && visited@[x] && #[trigger] self.sub_edge(x, y) && !list_has(
                    queue@,
                    x,
                ) implies 0 <= y < n && visited@[y] by {
                assert(x == start as int);
                assert(false);
            }
        }
        loop
            invariant_except_break
                self.wf(),
                self.alive(start as int),
                visited@.len() == n,
                n == self.aslots().len(),
                visited@[start as int],
                forall|x: int|
                    0 <= x < n && #[trigger] visited@[x] ==> self.areach(start as int, x)
                        && self.alive(x),
                forall|q: int|
                    0 <= q < queue@.len() ==> ((#[trigger] queue@[q]) as int) < n
                        && visited@[queue@[q] as int],
                forall|x: int, y: int|
                    0 <= x < n && visited@[x] && #[trigger] self.sub_edge(x, y) && !list_has(
                        queue@,
                        x,
                    ) ==> 0 <= y < n && visited@[y],
            ensures
                visited@.len() == n,
                forall|x: int|
                    0 <= x < n && #[trigger] visited@[x] ==> self.areach(start as int, x)
                        && self.alive(x),
                visited@[start as int],
                forall|x: int, y: int|
                    0 <= x < n && visited@[x] && #[trigger] self.sub_edge(x, y) ==> 0 <= y < n
                        && visited@[y],
            decreases n - count_marked(visited@), queue@.len(),
        {
            proof {
                lemma_count_marked_le(visited@);
            }
            let ghost qpre = queue@;
            let u = match queue.pop() {
                Some(u) => u,
                None => {
                    proof {
                        assert(queue@.len() == 0);
                        assert forall|x: int, y: int|
                            0 <= x < n && visited@[x] && #[trigger] self.sub_edge(x, y)
                            implies 0 <= y < n && visited@[y] by {
                            if list_has(queue@, x) {
                                let l = choose|l: int|
                                    0 <= l < queue@.len() && ((#[trigger] queue@[l]) as int) == x;
                                assert(false);
                            }
                        }
                    }
                    break ;
                },
            };
            let ghost q0 = queue@;
            let ghost v0 = visited@;
            proof {
                assert(q0 == qpre.drop_last());
                assert forall|x: int, y: int|
                    0 <= x < n && visited@[x] && #[trigger] self.sub_edge(x, y) && !list_has(
                        q0,
                        x,
                    ) && x != u as int implies 0 <= y < n && visited@[y] by {
                    if list_has(qpre, x) {
                        let l = choose|l: int|
                            0 <= l < qpre.len() && ((#[trigger] qpre[l]) as int) == x;
                        assert(l < qpre.len() - 1);
                        assert((q0[l] as int) == x);
                        assert(list_has(q0, x));
                        assert(false);
                    }
                }
            }
            let edges = copy_list(&self.actions_arena.get(u).sub_action_of);
            let mut j: usize = 0;
            while j < edges.len()
                invariant
                    self.wf(),
                    self.alive(start as int),
                    self.alive(u as int),
                    edges@ == self.anode(u as int).sub_action_of@,
                    j <= edges@.len(),
                    visited@.len() == n,
                    n == self.aslots().len(),
                    visited@[u as int],
                    visited@[start as int],
                    self.areach(start as int, u as int),
                    count_marked(visited@) >= count_marked(v0),
                    count_marked(visited@) > count_marked(v0) || (visited@ == v0 && queue@ == q0),
                    forall|x: int|
                        0 <= x < n && #[trigger] visited@[x] ==> self.areach(start as int, x)
                            && self.alive(x),
                    forall|x: int| 0 <= x < n && v0[x] ==> #[trigger] visited@[x],
                    forall|q: int|
                        0 <= q < queue@.len() ==> ((#[trigger] queue@[q]) as int) < n
                            && visited@[queue@[q] as int],
                    forall|x: int, y: int|
                        0 <= x < n && visited@[x] && #[trigger] self.sub_edge(x, y) && !list_has(
                            queue@,
                            x,
                        ) && x != u as int ==> 0 <= y < n && visited@[y],
                    forall|t: int|
                        0 <= t < j ==> {
                            let y = (#[trigger] edges@[t]) as int;
                            visited@[y]
                        },
                decreases edges@.len() - j,
            {
                let y = edges[j];
                proof {
                    assert(self.anode(u as int).sub_action_of@[j as int] == y);
                    assert(self.alive(y as int));
                    assert(self.sub_edge(u as int, y as int));
                }
                if !visited[y] {
                    proof {
                        lemma_count_marked_set(visited@, y as int);
                        self.lemma_areach_step(start as int, u as int, y as int);
                    }
                    let ghost vb = visited@;
                    visited.set(y, true);
                    let ghost qb = queue@;
                    queue.push(y);
                    proof {
                        lemma_list_has_push(qb, y);
                        assert((queue@[queue@.len() - 1] as int) == y as int);
                        assert(list_has(queue@, y as int));
                        assert forall|x: int, y2: int|
                            0 <= x < n && visited@[x] && #[trigger] self.sub_edge(x, y2)
                                && !list_has(queue@, x) && x != u as int implies 0 <= y2 < n
                            && visited@[y2] by {
                            assert(x != y as int);
                            assert(vb[x]);
                            assert(!list_has(qb, x));
                        }
                    }
                }
                j = j + 1;
            }
            proof {
                assert forall|x: int, y: int|
                    0 <= x < n && visited@[x] && #[trigger] self.sub_edge(x, y) && !list_has(
                        queue@,
                        x,
                    ) implies 0 <= y < n && visited@[y] by {
                    if x == u as int {
                        assert(list_has(self.anode(u as int).sub_action_of@, y));
                        let l = choose|l: int|
                            0 <= l < self.anode(u as int).sub_action_of@.len() && (((
                            #[trigger] self.anode(u as int).sub_action_of@[l])) as int) == y;
                        assert(visited@[edges@[l] as int]);
                    }
                }
                if count_marked(visited@) == count_marked(v0) {
                    assert(queue@ == q0);
                }
                lemma_count_marked_le(visited@);
            }
        }
        proof {
            assert forall|x: int|
                0 <= x < n && self.areach(start as int, x) implies visited@[x] by {
                let p = choose|p: Seq<int>|
                    #![trigger self.is_apath(p)]
                    self.is_apath(p) && p.first() == start as int && p.last() == x;
                self.lemma_apath_closed(visited@, p);
            }
        }
        visited
    }

    /// Some action `b` that implies `a` is directly granted to a grantee `m`
    /// from which position `g` inherits.
    pub open spec fn hit(&self, a: int, g: int) -> bool {
        exists|b: int, m: int|
            #![trigger self.areach(a, b), self.upreach(g, m)]
            {
                &&& self.areach(a, b)
                &&& self.alive(b)
                &&& list_has(self.anode(b).grantees@, m)
                &&& self.upreach(g, m)
            }
    }

    /// Inheritance edges are mirrored: `x` lists `y` as a parent exactly
    /// when `y` lists `x` as a child.
    proof fn lemma_edge_symmetry(&self)
        requires
            self.wf(),
        ensures
            forall|x: int, y: int| #[trigger]
                self.parent_edge(x, y) <==> self.child_edge(y, x),
    {
        assert forall|x: int, y: int| #[trigger]
            self.parent_edge(x, y) <==> self.child_edge(y, x) by {
            if self.parent_edge(x, y) {
                let l = choose|l: int|
                    0 <= l < self.gnode(x).grantee_of@.len() && (((#[trigger] self.gnode(
                        x,
                    ).grantee_of@[l])) as int) == y;
                assert(list_has(self.gnode(y).grantees@, x));
            }
            if self.child_edge(y, x) {
                let l = choose|l: int|
                    0 <= l < self.gnode(y).grantees@.len() && (((#[trigger] self.gnode(
                        y,
                    ).grantees@[l])) as int) == x;
                assert(list_has(self.gnode(x).grantee_of@, y));
            }
        }
    }

    /// A set closed under downward inheritance edges and avoiding `g`
    /// cannot be escaped by walking an upward path backwards.
    proof fn lemma_upath_visited(&self, visited: Seq<bool>, p: Seq<int>, g: int)
        requires
            self.wf(),
            visited.len() == self.gslots().len(),
            self.is_upath(p),
            0 <= p.last() < visited.len(),
            visited[p.last()],
            p.last() != g,
            forall|x: int, z: int|
                0 <= x < visited.len() && visited[x] && #[trigger] self.child_edge(x, z) ==> z != g
                    && 0 <= z < visited.len() && visited[z],
        ensures
            0 <= p.first() < visited.len(),
            visited[p.first()],
            p.first() != g,
        decreases p.len(),
    {
        if p.len() > 1 {
            let q = p.drop_first();
            assert forall|t: int| 0 <= t < q.len() - 1 implies #[trigger] self.parent_edge(
                q[t],
                q[t + 1],
            ) by {
                let t2 = t + 1;
                assert(self.parent_edge(p[t2], p[t2 + 1]));
            }
            assert(self.is_upath(q));
            assert(q.last() == p.last());
            self.lemma_upath_visited(visited, q, g);
            assert(self.parent_edge(p[0], p[1]));
            self.lemma_edge_symmetry();
            assert(self.child_edge(p[1], p[0]));
            assert(q.first() == p[1]);
        }
    }

    /// Starting from the direct holders of the marked actions, walks the
    /// inheritance edges downward and reports whether position `g` is found.
    #[verifier::rlimit(60)]
    fn grantee_descent(&self, marked: &Vec<bool>, a: Ghost<int>, g: usize) -> (found: bool)
        requires
            self.wf(),
            self.glive(g as int),
            marked@.len() == self.aslots().len(),
            forall|x: int|
                0 <= x < marked@.len() ==> (#[trigger] marked@[x] <==> self.areach(a@, x)),
            forall|x: int| 0 <= x < marked@.len() && #[trigger] marked@[x] ==> self.alive(x),
        ensures
            found == self.hit(a@, g as int),
    {
        let na = marked.len();
        let n = self.grantees_arena.len();
        let mut visited: Vec<bool> = Vec::new();
        let mut f: usize = 0;
        while f < n
            invariant
                f <= n,
                visited@.len() == f,
                forall|x: int| 0 <= x < f ==> !(#[trigger] visited@[x]),
            decreases n - f,
        {
            visited.push(false);
            f = f + 1;
        }
        let mut queue: Vec<usize> = Vec::new();

        // Seed with the direct holders of every marked action.
        let mut sx: usize = 0;
        while sx < na
            invariant
                self.wf(),
                self.glive(g as int),
                na == self.aslots().len(),
                n == self.gslots().len(),
                marked@.len() == na,
                forall|x: int|
                    0 <= x < marked@.len() ==> (#[trigger] marked@[x] <==> self.areach(a@, x)),
                forall|x: int| 0 <= x < marked@.len() && #[trigger] marked@[x] ==> self.alive(x),
                sx <= na,
                visited@.len() == n,
                forall|z: int|
                    0 <= z < n && #[trigger] visited@[z] ==> z != g as int && self.glive(z)
                        && self.hit(a@, z),
                forall|q: int|
                    0 <= q < queue@.len() ==> ((#[trigger] queue@[q]) as int) < n
                        && visited@[queue@[q] as int],
                forall|z: int| 0 <= z < n && #[trigger] visited@[z] ==> list_has(queue@, z),
                forall|x: int, l: int|
                    0 <= x < sx && marked@[x] && 0 <= l < self.anode(x).grantees@.len() ==> {
                        let m = (#[trigger] self.anode(x).grantees@[l]) as int;
                        m != g as int && visited@[m]
                    },
            decreases na - sx,
        {
            if marked[sx] {
                let members = copy_list(&self.actions_arena.get(sx).grantees);
                let mut l: usize = 0;
                while l < members.len()
                    invariant
                        self.wf(),
                        self.glive(g as int),
                        na == self.aslots().len(),
                        n == self.gslots().len(),
                        marked@.len() == na,
                        forall|x: int|
                            0 <= x < marked@.len() ==> (#[trigger] marked@[x] <==> self.areach(
                                a@,
                                x,
                            )),
                        forall|x: int|
                            0 <= x < marked@.len() && #[trigger] marked@[x] ==> self.alive(x),
                        sx < na,
                        marked@[sx as int],
                        self.alive(sx as int),
                        members@ == self.anode(sx as int).grantees@,
                        l <= members@.len(),
                        visited@.len() == n,
                        forall|z: int|
                            0 <= z < n && #[trigger] visited@[z] ==> z != g as int && self.glive(z)
                                && self.hit(a@, z),
                        forall|q: int|
                            0 <= q < queue@.len() ==> ((#[trigger] queue@[q]) as int) < n
                                && visited@[queue@[q] as int],
                        forall|z: int|
                            0 <= z < n && #[trigger] visited@[z] ==> list_has(queue@, z),
                        forall|x: int, l2: int|
                            0 <= x < sx && marked@[x] && 0 <= l2 < self.anode(x).grantees@.len()
                                ==> {
                                let m = (#[trigger] self.anode(x).grantees@[l2]) as int;
                                m != g as int && visited@[m]
                            },
                        forall|l2: int|
                            0 <= l2 < l ==> {
                                let m = (#[trigger] members@[l2]) as int;
                                m != g as int && visited@[m]
                            },
                    decreases members@.len() - l,
                {
                    let y = members[l];
                    proof {
                        assert(self.anode(sx as int).grantees@[l as int] == y);
                        assert(self.glive(y as int));
                    }
                    if y == g {
                        proof {
                            assert(self.is_upath(seq![g as int]));
                            assert(seq![g as int].first() == g as int);
                            assert(self.upreach(g as int, g as int));
                            assert(self.areach(a@, sx as int));
                            assert(list_has(self.anode(sx as int).grantees@, g as int)) by {
                                assert((self.anode(sx as int).grantees@[l as int] as int)
                                    == g as int);
                            }
                            assert(self.hit(a@, g as int));
                        }
                        return true;
                    }
                    if !visited[y] {
                        proof {
                            assert(self.is_upath(seq![y as int]));
                            assert(seq![y as int].first() == y as int);
                            assert(self.upreach(y as int, y as int));
                            assert(self.areach(a@, sx as int));
                            assert(list_has(self.anode(sx as int).grantees@, y as int)) by {
                                assert((self.anode(sx as int).grantees@[l as int] as int)
                                    == y as int);
                            }
                            assert(self.hit(a@, y as int));
                        }
                        let ghost vb = visited@;
                        visited.set(y, true);
                        let ghost qb = queue@;
                        queue.push(y);
                        proof {
                            lemma_list_has_push(qb, y);
                            assert((queue@[queue@.len() - 1] as int) == y as int);
                            assert(list_has(queue@, y as int));
                            assert forall|z: int|
                                0 <= z < n && #[trigger] visited@[z] implies list_has(
                                queue@,
                                z,
                            ) by {
                                if z != y as int {
                                    assert(vb[z]);
                                    assert(list_has(qb, z));
                                }
                            }
                        }
                    }
                    l = l + 1;
                }
            }
            sx = sx + 1;
        }

        // Walk downward through the inheritance edges.
        proof {
            assert forall|x: int, z: int|
                0 <= x < n && visited@[x] && #[trigger] self.child_edge(x, z) && !list_has(
                    queue@,
                    x,
                ) implies z != g as int && 0 <= z < n && visited@[z] by {
                assert(list_has(queue@, x));
                assert(false);
            }
        }
        loop
            invariant_except_break
                self.wf(),
                self.glive(g as int),
                na == self.aslots().len(),
                n == self.gslots().len(),
                marked@.len() == na,
                forall|x: int|
                    0 <= x < marked@.len() ==> (#[trigger] marked@[x] <==> self.areach(a@, x)),
                forall|x: int| 0 <= x < marked@.len() && #[trigger] marked@[x] ==> self.alive(x),
                visited@.len() == n,
                forall|z: int|
                    0 <= z < n && #[trigger] visited@[z] ==> z != g as int && self.glive(z)
                        && self.hit(a@, z),
                forall|q: int|
                    0 <= q < queue@.len() ==> ((#[trigger] queue@[q]) as int) < n
                        && visited@[queue@[q] as int],
                forall|x: int, l2: int|
                    0 <= x < na && marked@[x] && 0 <= l2 < self.anode(x).grantees@.len() ==> {
                        let m = (#[trigger] self.anode(x).grantees@[l2]) as int;
                        m != g as int && visited@[m]
                    },
                forall|x: int, z: int|
                    0 <= x < n && visited@[x] && #[trigger] self.child_edge(x, z) && !list_has(
                        queue@,
                        x,
                    ) ==> z != g as int && 0 <= z < n && visited@[z],
            ensures
                visited@.len() == n,
                forall|z: int|
                    0 <= z < n && #[trigger] visited@[z] ==> z != g as int && self.hit(a@, z),
                forall|x: int, l2: int|
                    0 <= x < na && marked@[x] && 0 <= l2 < self.anode(x).grantees@.len() ==> {
                        let m = (#[trigger] self.anode(x).grantees@[l2]) as int;
                        m != g as int && visited@[m]
                    },
                forall|x: int, z: int|
                    0 <= x < n && visited@[x] && #[trigger] self.child_edge(x, z) ==> z != g as int
                        && 0 <= z < n && visited@[z],
            decreases n - count_marked(visited@), queue@.len(),
        {
            proof {
                lemma_count_marked_le(visited@);
            }
            let ghost qpre = queue@;
            let u = match queue.pop() {
                Some(u) => u,
                None => {
                    proof {
                        assert(queue@.len() == 0);
                        assert forall|x: int, z: int|
                            0 <= x < n && visited@[x] && #[trigger] self.child_edge(x, z)
                            implies z != g as int && 0 <= z < n && visited@[z] by {
                            if list_has(queue@, x) {
                                let l = choose|l: int|
                                    0 <= l < queue@.len() && ((#[trigger] queue@[l]) as int) == x;
                                assert(false);
                            }
                        }
                    }
                    break ;
                },
            };
            let ghost q0 = queue@;
            let ghost v0 = visited@;
            proof {
                assert(q0 == qpre.drop_last());
                assert forall|x: int, z: int|
                    0 <= x < n && visited@[x] && #[trigger] self.child_edge(x, z) && !list_has(
                        q0,
                        x,
                    ) && x != u as int implies z != g as int && 0 <= z < n && visited@[z] by {
                    if list_has(qpre, x) {
                        let l = choose|l: int|
                            0 <= l < qpre.len() && ((#[trigger] qpre[l]) as int) == x;
                        assert(l < qpre.len() - 1);
                        assert((q0[l] as int) == x);
                        assert(list_has(q0, x));
                        assert(false);
                    }
                }
            }
            let children = copy_list(&self.grantees_arena.get(u).grantees);
            let mut j: usize = 0;
            while j < children.len()
                invariant
                    self.wf(),
                    self.glive(g as int),
                    self.glive(u as int),
                    na == self.aslots().len(),
                    n == self.gslots().len(),
                    marked@.len() == na,
                    forall|x: int|
                        0 <= x < marked@.len() ==> (#[trigger] marked@[x] <==> self.areach(
                            a@,
                            x,
                        )),
                    forall|x: int|
                        0 <= x < marked@.len() && #[trigger] marked@[x] ==> self.alive(x),
                    children@ == self.gnode(u as int).grantees@,
                    j <= children@.len(),
                    visited@.len() == n,
                    visited@[u as int],
                    self.hit(a@, u as int),
                    count_marked(visited@) >= count_marked(v0),
                    count_marked(visited@) > count_marked(v0) || (visited@ == v0 && queue@ == q0),
                    forall|z: int|
                        0 <= z < n && #[trigger] visited@[z] ==> z != g as int && self.glive(z)
                            && self.hit(a@, z),
                    forall|x: int| 0 <= x < n && v0[x] ==> #[trigger] visited@[x],
                    forall|q: int|
                        0 <= q < queue@.len() ==> ((#[trigger] queue@[q]) as int) < n
                            && visited@[queue@[q] as int],
                    forall|x: int, l2: int|
                        0 <= x < na && marked@[x] && 0 <= l2 < self.anode(x).grantees@.len() ==> {
                            let m = (#[trigger] self.anode(x).grantees@[l2]) as int;
                            m != g as int && visited@[m]
                        },
                    forall|x: int, z: int|
                        0 <= x < n && visited@[x] && #[trigger] self.child_edge(x, z) && !list_has(
                            queue@,
                            x,
                        ) && x != u as int ==> z != g as int && 0 <= z < n && visited@[z],
                    forall|t: int|
                        0 <= t < j ==> {
                            let z = (#[trigger] children@[t]) as int;
                            z != g as int && visited@[z]
                        },
                decreases children@.len() - j,
            {
                let y = children[j];
                proof {
                    assert(self.gnode(u as int).grantees@[j as int] == y);
                    assert(self.glive(y as int));
                    assert(self.child_edge(u as int, y as int)) by {
                        assert((self.gnode(u as int).grantees@[j as int] as int) == y as int);
                    }
                }
                if y == g {
                    proof {
                        self.lemma_edge_symmetry();
                        assert(self.parent_edge(g as int, u as int));
                        let (b, m) = choose|b: int, m: int|
                            #![trigger self.areach(a@, b), self.upreach(u as int, m)]
                            {
                                &&& self.areach(a@, b)
                                &&& self.alive(b)
                                &&& list_has(self.anode(b).grantees@, m)
                                &&& self.upreach(u as int, m)
                            };
                        self.lemma_upreach_prepend(g as int, u as int, m);
                        assert(self.hit(a@, g as int));
                    }
                    return true;
                }
                if !visited[y] {
                    proof {
                        lemma_count_marked_set(visited@, y as int);
                        self.lemma_edge_symmetry();
                        assert(self.parent_edge(y as int, u as int));
                        let (b, m) = choose|b: int, m: int|
                            #![trigger self.areach(a@, b), self.upreach(u as int, m)]
                            {
                                &&& self.areach(a@, b)
                                &&& self.alive(b)
                                &&& list_has(self.anode(b).grantees@, m)
                                &&& self.upreach(u as int, m)
                            };
                        self.lemma_upreach_prepend(y as int, u as int, m);
                        assert(self.hit(a@, y as int));
                    }
                    let ghost vb = visited@;
                    visited.set(y, true);
                    let ghost qb = queue@;
                    queue.push(y);
                    proof {
                        lemma_list_has_push(qb, y);
                        assert((queue@[queue@.len() - 1] as int) == y as int);
                        assert(list_has(queue@, y as int));
                        assert forall|x: int, z: int|
                            0 <= x < n && visited@[x] && #[trigger] self.child_edge(x, z)
                                && !list_has(queue@, x) && x != u as int implies z != g as int && 0
                            <= z < n && visited@[z] by {
                            assert(x != y as int);
                            assert(vb[x]);
                            assert(!list_has(qb, x));
                        }
                    }
                }
                j = j + 1;
            }
            proof {
                assert forall|x: int, z: int|
                    0 <= x < n && visited@[x] && #[trigger] self.child_edge(x, z) && !list_has(
                        queue@,
                        x,
                    ) implies z != g as int && 0 <= z < n && visited@[z] by {
                    if x == u as int {
                        assert(list_has(self.gnode(u as int).grantees@, z));
                        let l = choose|l: int|
                            0 <= l < self.gnode(u as int).grantees@.len() && (((
                            #[trigger] self.gnode(u as int).grantees@[l])) as int) == z;
                        assert(children@[l] as int == z);
                    }
                }
                if count_marked(visited@) == count_marked(v0) {
                    assert(queue@ == q0);
                }
                lemma_count_marked_le(visited@);
            }
        }

        // Nothing reached `g`: no witness can exist.
        proof {
            if self.hit(a@, g as int) {
                let (b, m) = choose|b: int, m: int|
                    #![trigger self.areach(a@, b), self.upreach(g as int, m)]
                    {
                        &&& self.areach(a@, b)
                        &&& self.alive(b)
                        &&& list_has(self.anode(b).grantees@, m)
                        &&& self.upreach(g as int, m)
                    };
                assert(marked@[b]);
                let l = choose|l: int|
                    0 <= l < self.anode(b).grantees@.len() && (((#[trigger] self.anode(
                        b,
                    ).grantees@[l])) as int) == m;
                assert(m != g as int && visited@[m]);
                let p = choose|p: Seq<int>|
                    #![trigger self.is_upath(p)]
                    self.is_upath(p) && p.first() == g as int && p.last() == m;
                self.lemma_upath_visited(visited@, p, g as int);
                assert(false);
            }
        }
        false
    }

    /// Every position of an upward inheritance path holds a live grantee.
    proof fn lemma_upath_live(&self, p: Seq<int>)
        requires
            self.wf(),
            self.is_upath(p),
            self.glive(p.first()),
        ensures
            forall|i: int| 0 <= i < p.len() ==> self.glive(#[trigger] p[i]),
    {
        assert forall|i: int| 0 <= i < p.len() implies self.glive(#[trigger] p[i]) by {
            if i > 0 {
                let t = i - 1;
                assert(self.parent_edge(p[t], p[t + 1]));
            }
        }
    }

    /// An upward inheritance path between positions lifts to a path between
    /// the ids they carry.
    proof fn lemma_upath_lift(&self, p: Seq<int>)
        requires
            self.wf(),
            self.is_upath(p),
            self.glive(p.first()),
        ensures
            crate::model::reaches(
                self.model().parent_edges(),
                key_of(self.gmap(), p.first()),
                key_of(self.gmap(), p.last()),
            ),
    {
        let es = self.gmap();
        lemma_entries_bijective(es);
        self.lemma_upath_live(p);
        let q = Seq::new(p.len(), |i: int| key_of(es, p[i]));
        let pe = self.model().parent_edges();
        assert forall|i: int| 0 <= i < q.len() implies pe.dom().contains(#[trigger] q[i]) by {
            assert(self.glive(p[i]));
            assert(has_val(es, p[i]));
            assert(has_key(es, key_of(es, p[i])));
        }
        assert forall|i: int| 0 <= i < q.len() - 1 implies pe[#[trigger] q[i]].contains(
            q[i + 1],
        ) by {
            assert(self.parent_edge(p[i], p[i + 1]));
            assert(has_val(es, p[i]) && has_val(es, p[i + 1]));
            assert(idx_of(es, key_of(es, p[i])) == p[i]);
            let k = choose|k: int| 0 <= k < es.len() && ((#[trigger] es[k]).1 as int) == p[i + 1];
            assert(es[k].0 == key_of(es, p[i + 1]));
            assert(list_has(self.gnode(p[i]).grantee_of@, es[k].1 as int));
            assert(ids_of(es, self.gnode(p[i]).grantee_of@).contains(es[k].0));
        }
        assert(crate::model::is_path(pe, q));
        assert(q.first() == key_of(es, p.first()) && q.last() == key_of(es, p.last()));
    }

    /// A path between grantee ids lowers to an upward path between their
    /// positions.
    proof fn lemma_gpath_lower(&self, q: Seq<u64>)
        requires
            self.wf(),
            crate::model::is_path(self.model().parent_edges(), q),
        ensures
            self.upreach(idx_of(self.gmap(), q.first()), idx_of(self.gmap(), q.last())),
    {
        let es = self.gmap();
        lemma_entries_bijective(es);
        let pe = self.model().parent_edges();
        let p = Seq::new(q.len(), |i: int| idx_of(es, q[i]));
        assert forall|t: int| 0 <= t < p.len() - 1 implies #[trigger] self.parent_edge(
            p[t],
            p[t + 1],
        ) by {
            assert(pe.dom().contains(q[t]) && pe.dom().contains(q[t + 1]));
            assert(has_key(es, q[t]) && has_key(es, q[t + 1]));
            assert(self.glive(idx_of(es, q[t])));
            assert(self.glive(idx_of(es, q[t + 1])));
            assert(pe[q[t]].contains(q[t + 1]));
            assert(ids_of(es, self.gnode(idx_of(es, q[t])).grantee_of@).contains(q[t + 1]));
            let k = choose|k: int|
                0 <= k < es.len() && (#[trigger] es[k]).0 == q[t + 1] && list_has(
                    self.gnode(idx_of(es, q[t])).grantee_of@,
                    es[k].1 as int,
                );
            assert((es[k].1 as int) == idx_of(es, q[t + 1])) by {
                let k2 = choose|k2: int| 0 <= k2 < es.len() && (#[trigger] es[k2]).0 == q[t + 1];
                assert(k2 == k);
            }
        }
        assert(self.is_upath(p));
        assert(p.first() == idx_of(es, q.first()) && p.last() == idx_of(es, q.last()));
    }

    /// An upward super-action path between positions lifts to a path
    /// between the ids they carry.
    proof fn lemma_apath_lift(&self, p: Seq<int>)
        requires
            self.wf(),
            self.is_apath(p),
            self.alive(p.first()),
        ensures
            crate::model::reaches(
                self.model().actions,
                key_of(self.amap(), p.first()),
                key_of(self.amap(), p.last()),
            ),
    {
        let aes = self.amap();
        lemma_entries_bijective(aes);
        assert forall|i: int| 0 <= i < p.len() implies self.alive(#[trigger] p[i]) by {
            if i > 0 {
                let t = i - 1;
                assert(self.sub_edge(p[t], p[t + 1]));
            }
        }
        let q = Seq::new(p.len(), |i: int| key_of(aes, p[i]));
        let ae = self.model().actions;
        assert forall|i: int| 0 <= i < q.len() implies ae.dom().contains(#[trigger] q[i]) by {
            assert(self.alive(p[i]));
            assert(has_val(aes, p[i]));
            assert(has_key(aes, key_of(aes, p[i])));
        }
        assert forall|i: int| 0 <= i < q.len() - 1 implies ae[#[trigger] q[i]].contains(
            q[i + 1],
        ) by {
            assert(self.sub_edge(p[i], p[i + 1]));
            assert(has_val(aes, p[i]) && has_val(aes, p[i + 1]));
            assert(idx_of(aes, key_of(aes, p[i])) == p[i]);
            let k = choose|k: int|
                0 <= k < aes.len() && ((#[trigger] aes[k]).1 as int) == p[i + 1];
            assert(aes[k].0 == key_of(aes, p[i + 1]));
            assert(list_has(self.anode(p[i]).sub_action_of@, aes[k].1 as int));
            assert(ids_of(aes, self.anode(p[i]).sub_action_of@).contains(aes[k].0));
        }
        assert(crate::model::is_path(ae, q));
        assert(q.first() == key_of(aes, p.first()) && q.last() == key_of(aes, p.last()));
    }

    /// A path between action ids lowers to an upward super-action path
    /// between their positions.
    proof fn lemma_apath_lower(&self, q: Seq<u64>)
        requires
            self.wf(),
            crate::model::is_path(self.model().actions, q),
        ensures
            self.areach(idx_of(self.amap(), q.first()), idx_of(self.amap(), q.last())),
    {
        let aes = self.amap();
        lemma_entries_bijective(aes);
        let ae = self.model().actions;
        let p = Seq::new(q.len(), |i: int| idx_of(aes, q[i]));
        assert forall|t: int| 0 <= t < p.len() - 1 implies #[trigger] self.sub_edge(
            p[t],
            p[t + 1],
        ) by {
            assert(ae.dom().contains(q[t]) && ae.dom().contains(q[t + 1]));
            assert(has_key(aes, q[t]) && has_key(aes, q[t + 1]));
            assert(self.alive(idx_of(aes, q[t])));
            assert(self.alive(idx_of(aes, q[t + 1])));
            assert(ae[q[t]].contains(q[t + 1]));
            assert(ids_of(aes, self.anode(idx_of(aes, q[t])).sub_action_of@).contains(q[t + 1]));
            let k = choose|k: int|
                0 <= k < aes.len() && (#[trigger] aes[k]).0 == q[t + 1] && list_has(
                    self.anode(idx_of(aes, q[t])).sub_action_of@,
                    aes[k].1 as int,
                );
            assert((aes[k].1 as int) == idx_of(aes, q[t + 1])) by {
                let k2 = choose|k2: int|
                    0 <= k2 < aes.len() && (#[trigger] aes[k2]).0 == q[t + 1];
                assert(k2 == k);
            }
        }
        assert(self.is_apath(p));
        assert(p.first() == idx_of(aes, q.first()) && p.last() == idx_of(aes, q.last()));
    }

    /// The index-level search condition coincides with the id-level answer.
    #[verifier::rlimit(100)]
    proof fn lemma_hit_iff_can_do(&self, g: u64, a: u64, gi: int, ai: int)
        requires
            self.wf(),
            has_key(self.gmap(), g),
            idx_of(self.gmap(), g) == gi,
            has_key(self.amap(), a),
            idx_of(self.amap(), a) == ai,
        ensures
            self.hit(ai, gi) <==> self.model().can_do(g, a),
    {
        let es = self.gmap();
        let aes = self.amap();
        lemma_entries_bijective(es);
        lemma_entries_bijective(aes);
        assert(self.glive(gi) && self.alive(ai));
        if self.hit(ai, gi) {
            let (b, m) = choose|b: int, m: int|
                #![trigger self.areach(ai, b), self.upreach(gi, m)]
                {
                    &&& self.areach(ai, b)
                    &&& self.alive(b)
                    &&& list_has(self.anode(b).grantees@, m)
                    &&& self.upreach(gi, m)
                };
            let lm = choose|lm: int|
                0 <= lm < self.anode(b).grantees@.len() && (((#[trigger] self.anode(
                    b,
                ).grantees@[lm])) as int) == m;
            assert(self.glive(m) && list_has(self.gnode(m).actions@, b));
            let b_id = key_of(aes, b);
            let h = key_of(es, m);
            let pa = choose|p: Seq<int>|
                #![trigger self.is_apath(p)]
                self.is_apath(p) && p.first() == ai && p.last() == b;
            self.lemma_apath_lift(pa);
            assert(key_of(aes, ai) == a);
            assert(crate::model::reaches(self.model().actions, a, b_id));
            let pu = choose|p: Seq<int>|
                #![trigger self.is_upath(p)]
                self.is_upath(p) && p.first() == gi && p.last() == m;
            self.lemma_upath_lift(pu);
            assert(key_of(es, gi) == g);
            assert(crate::model::reaches(self.model().parent_edges(), g, h));
            assert(self.model().grantees[h].acts.contains(b_id)) by {
                assert(idx_of(es, h) == m);
                let kb = choose|kb: int| 0 <= kb < aes.len() && ((#[trigger] aes[kb]).1 as int) == b;
                assert(aes[kb].0 == b_id);
                assert(list_has(self.gnode(m).actions@, aes[kb].1 as int));
                assert(ids_of(aes, self.gnode(m).actions@).contains(b_id));
                assert(self.model().grantees.dom().contains(h));
            }
            assert(self.model().can_do(g, a));
        }
        if self.model().can_do(g, a) {
            let (h, b_id) = choose|h: u64, b_id: u64|
                #![trigger crate::model::reaches(self.model().parent_edges(), g, h), crate::model::reaches(self.model().actions, a, b_id)]
                {
                    &&& crate::model::reaches(self.model().parent_edges(), g, h)
                    &&& crate::model::reaches(self.model().actions, a, b_id)
                    &&& self.model().grantees[h].acts.contains(b_id)
                };
            let qg = choose|p: Seq<u64>|
                #![trigger crate::model::is_path(self.model().parent_edges(), p)]
                crate::model::is_path(self.model().parent_edges(), p) && p.first() == g
                    && p.last() == h;
            self.lemma_gpath_lower(qg);
            let qa = choose|p: Seq<u64>|
                #![trigger crate::model::is_path(self.model().actions, p)]
                crate::model::is_path(self.model().actions, p) && p.first() == a && p.last()
                    == b_id;
            self.lemma_apath_lower(qa);
            let m = idx_of(es, h);
            let b = idx_of(aes, b_id);
            assert(self.upreach(gi, m));
            assert(self.areach(ai, b));
            assert(crate::model::is_path(self.model().parent_edges(), qg));
            assert(self.model().parent_edges().dom().contains(h)) by {
                assert(self.model().parent_edges().dom().contains(qg.last()));
            }
            assert(has_key(es, h));
            assert(self.glive(m));
            assert(crate::model::is_path(self.model().actions, qa));
            assert(self.model().actions.dom().contains(b_id)) by {
                assert(self.model().actions.dom().contains(qa.last()));
            }
            assert(has_key(aes, b_id));
            assert(self.alive(b));
            assert(list_has(self.anode(b).grantees@, m)) by {
                assert(ids_of(aes, self.gnode(m).actions@).contains(b_id));
                let k = choose|k: int|
                    0 <= k < aes.len() && (#[trigger] aes[k]).0 == b_id && list_has(
                        self.gnode(m).actions@,
                        aes[k].1 as int,
                    );
                assert((aes[k].1 as int) == b) by {
                    let k2 = choose|k2: int| 0 <= k2 < aes.len() && (#[trigger] aes[k2]).0 == b_id;
                    assert(k2 == k);
                }
                assert(list_has(self.gnode(m).actions@, b));
                let lb = choose|lb: int|
                    0 <= lb < self.gnode(m).actions@.len() && (((#[trigger] self.gnode(
                        m,
                    ).actions@[lb])) as int) == b;
                assert(list_has(self.anode(b).grantees@, m));
            }
            assert(self.hit(ai, gi));
        }
    }

    /// Checks whether `grantee_id` may perform `action_id`: true exactly
    /// when some grantee reachable from it upward through inheritance edges
    /// holds a direct grant of some action from which `action_id` inherits.
    /// Cycles among grantees or actions are tolerated.
    pub fn can_grantee_do(&self, grantee_id: u64, action_id: u64) -> (r: Result<bool, CanDoError>)
        requires
            self.wf(),
        ensures
            r matches Ok(b) ==> self.model().has_grantee(grantee_id) && self.model().has_action(
                action_id,
            ) && b == self.model().can_do(grantee_id, action_id),
            r == Result::<bool, CanDoError>::Err(CanDoError::GranteeNotFound)
                <==> !self.model().has_grantee(grantee_id),
            r == Result::<bool, CanDoError>::Err(CanDoError::ActionNotFound) <==> self.model()
                .has_grantee(grantee_id) && !self.model().has_action(action_id),
    {
        let gi = match self.lookup_grantee(grantee_id) {
            Some(gi) => gi,
            None => {
                return Err(CanDoError::GranteeNotFound);
            },
        };
        let ai = match self.lookup_action(action_id) {
            Some(ai) => ai,
            None => {
                return Err(CanDoError::ActionNotFound);
            },
        };
        let marked = self.action_ascent(ai);
        let found = self.grantee_descent(&marked, Ghost(ai as int), gi);
        proof {
            self.lemma_hit_iff_can_do(grantee_id, action_id, gi as int, ai as int);
        }
        Ok(found)
    }

    /// Returns, in ascending order, every action position from which
    /// `action_idx` inherits (the position itself included).
    pub fn collect_main_action_idx(&self, action_idx: usize) -> (r: Vec<usize>)
        requires
            self.wf(),
            self.alive(action_idx as int),
        ensures
            forall|x: int| #[trigger] list_has(r@, x) <==> self.areach(action_idx as int, x),
            forall|j: int, k: int|
                #![trigger r@[j], r@[k]]
                0 <= j < k < r@.len() ==> r@[j] < r@[k],
    {
        let marked = self.action_ascent(action_idx);
        let mut r: Vec<usize> = Vec::new();
        let mut i: usize = 0;
        let n = marked.len();
        while i < n
            invariant
                n == marked@.len(),
                n == self.aslots().len(),
                i <= n,
                self.wf(),
                self.alive(action_idx as int),
                forall|x: int|
                    0 <= x < n ==> (#[trigger] marked@[x] <==> self.areach(action_idx as int, x)),
                forall|x: int| #[trigger]
                    list_has(r@, x) <==> 0 <= x < i && marked@[x],
                forall|j: int, k: int|
                    #![trigger r@[j], r@[k]]
                    0 <= j < k < r@.len() ==> r@[j] < r@[k],
                forall|j: int| 0 <= j < r@.len() ==> ((#[trigger] r@[j]) as int) < i,
            decreases n - i,
        {
            if marked[i] {
                let ghost r0 = r@;
                r.push(i);
                proof {
                    lemma_list_has_push(r0, i);
                }
            }
            i = i + 1;
        }
        proof {
            assert forall|x: int| #[trigger]
                list_has(r@, x) <==> self.areach(action_idx as int, x) by {
                if self.areach(action_idx as int, x) {
                    if 0 <= x < n {
                        assert(marked@[x]);
                    } else {
                        let p = choose|p: Seq<int>|
                            #![trigger self.is_apath(p)]
                            self.is_apath(p) && p.first() == action_idx as int && p.last() == x;
                        if p.len() == 1 {
                            assert(x == action_idx as int);
                        } else {
                            let t = p.len() - 2;
                            assert(self.sub_edge(p[t], p[t + 1]));
                        }
                        assert(false);
                    }
                }
            }
        }
        r
    }

    /// Models extracted from a well-formed representation keep every edge
    /// inside the graph.
    proof fn lemma_model_closed(&self)
        requires
            self.wf(),
        ensures
            crate::model::closed_graph(self.model()),
    {
        let m = self.model();
        let es = self.gmap();
        let aes = self.amap();
        lemma_entries_bijective(es);
        lemma_entries_bijective(aes);
        assert forall|g: u64, p: u64|
            m.grantees.dom().contains(g) && (#[trigger] m.grantees[g].parents.contains(p))
            implies m.grantees.dom().contains(p) by {
            let i = idx_of(es, g);
            assert(has_key(es, g));
            assert(self.glive(i));
            let k = choose|k: int|
                0 <= k < es.len() && (#[trigger] es[k]).0 == p && list_has(
                    self.gnode(i).grantee_of@,
                    es[k].1 as int,
                );
            assert(has_key(es, p));
        }
        assert forall|g: u64, a: u64|
            m.grantees.dom().contains(g) && (#[trigger] m.grantees[g].acts.contains(a))
            implies m.actions.dom().contains(a) by {
            let i = idx_of(es, g);
            assert(has_key(es, g));
            assert(self.glive(i));
            let k = choose|k: int|
                0 <= k < aes.len() && (#[trigger] aes[k]).0 == a && list_has(
                    self.gnode(i).actions@,
                    aes[k].1 as int,
                );
            assert(has_key(aes, a));
        }
        assert forall|s2: u64, a: u64|
            m.actions.dom().contains(s2) && (#[trigger] m.actions[s2].contains(a))
            implies m.actions.dom().contains(a) by {
            let i = idx_of(aes, s2);
            assert(has_key(aes, s2));
            assert(self.alive(i));
            let k = choose|k: int|
                0 <= k < aes.len() && (#[trigger] aes[k]).0 == a && list_has(
                    self.anode(i).sub_action_of@,
                    aes[k].1 as int,
                );
            assert(has_key(aes, a));
        }
    }

    /// Models extracted from a well-formed representation never list a node
    /// as its own parent or super-action.
    proof fn lemma_model_no_self_edges(&self)
        requires
            self.wf(),
        ensures
            crate::model::no_self_edges(self.model()),
    {
        let m = self.model();
        let es = self.gmap();
        let aes = self.amap();
        lemma_entries_bijective(es);
        lemma_entries_bijective(aes);
        assert forall|g: u64|
            m.grantees.dom().contains(g) implies !(#[trigger] m.grantees[g].parents.contains(
            g,
        )) by {
            if m.grantees[g].parents.contains(g) {
                let i = idx_of(es, g);
                assert(has_key(es, g));
                assert(self.glive(i));
                let k = choose|k: int|
                    0 <= k < es.len() && (#[trigger] es[k]).0 == g && list_has(
                        self.gnode(i).grantee_of@,
                        es[k].1 as int,
                    );
                assert((es[k].1 as int) == i) by {
                    let k2 = choose|k2: int| 0 <= k2 < es.len() && (#[trigger] es[k2]).0 == g;
                    assert(k2 == k);
                }
                let l = choose|l: int|
                    0 <= l < self.gnode(i).grantee_of@.len() && (((#[trigger] self.gnode(
                        i,
                    ).grantee_of@[l])) as int) == i;
                assert(false);
            }
        }
        assert forall|a: u64|
            m.actions.dom().contains(a) implies !(#[trigger] m.actions[a].contains(a)) by {
            if m.actions[a].contains(a) {
                let i = idx_of(aes, a);
                assert(has_key(aes, a));
                assert(self.alive(i));
                let k = choose|k: int|
                    0 <= k < aes.len() && (#[trigger] aes[k]).0 == a && list_has(
                        self.anode(i).sub_action_of@,
                        aes[k].1 as int,
                    );
                assert((aes[k].1 as int) == i) by {
                    let k2 = choose|k2: int| 0 <= k2 < aes.len() && (#[trigger] aes[k2]).0 == a;
                    assert(k2 == k);
                }
                let l = choose|l: int|
                    0 <= l < self.anode(i).sub_action_of@.len() && (((#[trigger] self.anode(
                        i,
                    ).sub_action_of@[l])) as int) == i;
                assert(false);
            }
        }
    }

    /// The orphan test on an action node matches the id-level condition.
    proof fn lemma_action_kept_iff(&self, a: u64, ai: int)
        requires
            self.wf(),
            has_key(self.amap(), a),
            idx_of(self.amap(), a) == ai,
        ensures
            crate::model::action_kept(self.model(), a) <==> (self.anode(ai).grantees@.len() > 0
                || self.anode(ai).main_action_of@.len() > 0),
    {
        let m = self.model();
        let es = self.gmap();
        let aes = self.amap();
        lemma_entries_bijective(es);
        lemma_entries_bijective(aes);
        assert(self.alive(ai));
        if self.anode(ai).grantees@.len() > 0 {
            let x = (self.anode(ai).grantees@[0]) as int;
            assert(self.glive(x) && list_has(self.gnode(x).actions@, ai));
            let h = key_of(es, x);
            assert(has_val(es, x));
            assert(m.grantees.dom().contains(h));
            assert(m.grantees[h].acts.contains(a)) by {
                let kb = choose|kb: int|
                    0 <= kb < aes.len() && ((#[trigger] aes[kb]).1 as int) == ai;
                assert(aes[kb].0 == a);
                assert(ids_of(aes, self.gnode(x).actions@).contains(a));
            }
            assert(crate::model::action_kept(m, a));
        }
        if self.anode(ai).main_action_of@.len() > 0 {
            let x = (self.anode(ai).main_action_of@[0]) as int;
            assert(self.alive(x) && list_has(self.anode(x).sub_action_of@, ai));
            let s2 = key_of(aes, x);
            assert(has_val(aes, x));
            assert(m.actions.dom().contains(s2));
            assert(m.actions[s2].contains(a)) by {
                let kb = choose|kb: int|
                    0 <= kb < aes.len() && ((#[trigger] aes[kb]).1 as int) == ai;
                assert(aes[kb].0 == a);
                assert(ids_of(aes, self.anode(x).sub_action_of@).contains(a));
            }
            assert(crate::model::action_kept(m, a));
        }
        if crate::model::action_kept(m, a) && self.anode(ai).grantees@.len() == 0 && self.anode(
            ai,
        ).main_action_of@.len() == 0 {
            if exists|g: u64|
                #[trigger] m.grantees.dom().contains(g) && m.grantees[g].acts.contains(a) {
                let g = choose|g: u64|
                    #[trigger] m.grantees.dom().contains(g) && m.grantees[g].acts.contains(a);
                let i = idx_of(es, g);
                assert(has_key(es, g));
                assert(self.glive(i));
                let k = choose|k: int|
                    0 <= k < aes.len() && (#[trigger] aes[k]).0 == a && list_has(
                        self.gnode(i).actions@,
                        aes[k].1 as int,
                    );
                assert((aes[k].1 as int) == ai) by {
                    let k2 = choose|k2: int| 0 <= k2 < aes.len() && (#[trigger] aes[k2]).0 == a;
                    assert(k2 == k);
                }
                let l = choose|l: int|
                    0 <= l < self.gnode(i).actions@.len() && (((#[trigger] self.gnode(
                        i,
                    ).actions@[l])) as int) == ai;
                assert(list_has(self.anode(ai).grantees@, i));
                let l2 = choose|l2: int|
                    0 <= l2 < self.anode(ai).grantees@.len() && (((#[trigger] self.anode(
                        ai,
                    ).grantees@[l2])) as int) == i;
                assert(false);
            } else {
                let s2 = choose|s2: u64|
                    #[trigger] m.actions.dom().contains(s2) && m.actions[s2].contains(a);
                let i = idx_of(aes, s2);
                assert(has_key(aes, s2));
                assert(self.alive(i));
                let k = choose|k: int|
                    0 <= k < aes.len() && (#[trigger] aes[k]).0 == a && list_has(
                        self.anode(i).sub_action_of@,
                        aes[k].1 as int,
                    );
                assert((aes[k].1 as int) == ai) by {
                    let k2 = choose|k2: int| 0 <= k2 < aes.len() && (#[trigger] aes[k2]).0 == a;
                    assert(k2 == k);
                }
                let l = choose|l: int|
                    0 <= l < self.anode(i).sub_action_of@.len() && (((#[trigger] self.anode(
                        i,
                    ).sub_action_of@[l])) as int) == ai;
                assert(list_has(self.anode(ai).main_action_of@, i));
                let l2 = choose|l2: int|
                    0 <= l2 < self.anode(ai).main_action_of@.len() && (((#[trigger] self.anode(
                        ai,
                    ).main_action_of@[l2])) as int) == i;
                assert(false);
            }
        }
    }

    /// The orphan test on a grantee node matches the id-level condition.
    #[verifier::rlimit(100)]
    proof fn lemma_grantee_kept_iff(&self, g: u64, gi: int)
        requires
            self.wf(),
            has_key(self.gmap(), g),
            idx_of(self.gmap(), g) == gi,
        ensures
            crate::model::grantee_kept(self.model(), g) <==> (self.gnode(gi).is_root || ((
            self.gnode(gi).actions@.len() > 0 || self.gnode(gi).grantees@.len() > 0) && self.gnode(
                gi,
            ).grantee_of@.len() > 0)),
    {
        let m = self.model();
        let es = self.gmap();
        let aes = self.amap();
        lemma_entries_bijective(es);
        lemma_entries_bijective(aes);
        assert(self.glive(gi));
        assert(m.grantees[g].root == self.gnode(gi).is_root);
        // direct grants
        assert((exists|a: u64| #[trigger] m.grantees[g].acts.contains(a)) <==> self.gnode(
            gi,
        ).actions@.len() > 0) by {
            if self.gnode(gi).actions@.len() > 0 {
                let x = (self.gnode(gi).actions@[0]) as int;
                assert(self.alive(x));
                assert(has_val(aes, x));
                let kb = choose|kb: int| 0 <= kb < aes.len() && ((#[trigger] aes[kb]).1 as int) == x;
                assert(list_has(self.gnode(gi).actions@, aes[kb].1 as int)) by {
                    assert((self.gnode(gi).actions@[0] as int) == x);
                }
                assert(m.grantees[g].acts.contains(aes[kb].0));
            }
            if exists|a: u64| #[trigger] m.grantees[g].acts.contains(a) {
                let a = choose|a: u64| #[trigger] m.grantees[g].acts.contains(a);
                let k = choose|k: int|
                    0 <= k < aes.len() && (#[trigger] aes[k]).0 == a && list_has(
                        self.gnode(gi).actions@,
                        aes[k].1 as int,
                    );
                let l = choose|l: int|
                    0 <= l < self.gnode(gi).actions@.len() && (((#[trigger] self.gnode(
                        gi,
                    ).actions@[l])) as int) == aes[k].1 as int;
            }
        }
        // children
        assert((exists|h: u64|
            #[trigger] m.grantees.dom().contains(h) && m.grantees[h].parents.contains(g))
            <==> self.gnode(gi).grantees@.len() > 0) by {
            if self.gnode(gi).grantees@.len() > 0 {
                let x = (self.gnode(gi).grantees@[0]) as int;
                assert(self.glive(x) && list_has(self.gnode(x).grantee_of@, gi));
                let h = key_of(es, x);
                assert(has_val(es, x));
                assert(m.grantees.dom().contains(h));
                assert(m.grantees[h].parents.contains(g)) by {
                    let kb = choose|kb: int|
                        0 <= kb < es.len() && ((#[trigger] es[kb]).1 as int) == gi;
                    assert(es[kb].0 == g);
                    assert(ids_of(es, self.gnode(x).grantee_of@).contains(g));
                }
            }
            if exists|h: u64|
                #[trigger] m.grantees.dom().contains(h) && m.grantees[h].parents.contains(g) {
                let h = choose|h: u64|
                    #[trigger] m.grantees.dom().contains(h) && m.grantees[h].parents.contains(g);
                let i = idx_of(es, h);
                assert(has_key(es, h));
                assert(self.glive(i));
                let k = choose|k: int|
                    0 <= k < es.len() && (#[trigger] es[k]).0 == g && list_has(
                        self.gnode(i).grantee_of@,
                        es[k].1 as int,
                    );
                assert((es[k].1 as int) == gi) by {
                    let k2 = choose|k2: int| 0 <= k2 < es.len() && (#[trigger] es[k2]).0 == g;
                    assert(k2 == k);
                }
                let l = choose|l: int|
                    0 <= l < self.gnode(i).grantee_of@.len() && (((#[trigger] self.gnode(
                        i,
                    ).grantee_of@[l])) as int) == gi;
                assert(list_has(self.gnode(gi).grantees@, i));
                let l2 = choose|l2: int|
                    0 <= l2 < self.gnode(gi).grantees@.len() && (((#[trigger] self.gnode(
                        gi,
                    ).grantees@[l2])) as int) == i;
            }
        }
        // parents
        assert((exists|p: u64| #[trigger] m.grantees[g].parents.contains(p)) <==> self.gnode(
            gi,
        ).grantee_of@.len() > 0) by {
            if self.gnode(gi).grantee_of@.len() > 0 {
                let x = (self.gnode(gi).grantee_of@[0]) as int;
                assert(self.glive(x));
                assert(has_val(es, x));
                let kb = choose|kb: int| 0 <= kb < es.len() && ((#[trigger] es[kb]).1 as int) == x;
                assert(list_has(self.gnode(gi).grantee_of@, es[kb].1 as int)) by {
                    assert((self.gnode(gi).grantee_of@[0] as int) == x);
                }
                assert(m.grantees[g].parents.contains(es[kb].0));
            }
            if exists|p: u64| #[trigger] m.grantees[g].parents.contains(p) {
                let p2 = choose|p2: u64| #[trigger] m.grantees[g].parents.contains(p2);
                let k = choose|k: int|
                    0 <= k < es.len() && (#[trigger] es[k]).0 == p2 && list_has(
                        self.gnode(gi).grantee_of@,
                        es[k].1 as int,
                    );
                let l = choose|l: int|
                    0 <= l < self.gnode(gi).grantee_of@.len() && (((#[trigger] self.gnode(
                        gi,
                    ).grantee_of@[l])) as int) == es[k].1 as int;
            }
        }
    }

    /// Finds an orphaned action, if any: one with no direct holder that is
    /// not a super-action of anything.
    fn find_orphan_action(&self) -> (r: Option<u64>)
        requires
            self.wf(),
        ensures
            r matches Some(id) ==> self.model().has_action(id) && !crate::model::action_kept(
                self.model(),
                id,
            ),
            r is None ==> forall|a: u64|
                #[trigger] self.model().has_action(a) ==> crate::model::action_kept(
                    self.model(),
                    a,
                ),
    {
        let n = self.actions.len();
        let mut k: usize = 0;
        while k < n
            invariant
                self.wf(),
                n == self.amap().len(),
                k <= n,
                forall|j: int|
                    0 <= j < k ==> crate::model::action_kept(
                        self.model(),
                        (#[trigger] self.amap()[j]).0,
                    ),
            decreases n - k,
        {
            let (id, idx) = self.actions[k];
            proof {
                assert(self.amap()[k as int] == (id, idx));
                assert(idx_of(self.amap(), id) == idx as int) by {
                    let kk = choose|kk: int|
                        0 <= kk < self.amap().len() && (#[trigger] self.amap()[kk]).0 == id;
                    assert(kk == k);
                }
                assert(self.alive(idx as int));
                self.lemma_action_kept_iff(id, idx as int);
            }
            let node = self.actions_arena.get(idx);
            if node.grantees.is_empty() && node.main_action_of.is_empty() {
                return Some(id);
            }
            k = k + 1;
        }
        proof {
            assert forall|a: u64|
                #[trigger] self.model().has_action(a) implies crate::model::action_kept(
                self.model(),
                a,
            ) by {
                let kk = choose|kk: int|
                    0 <= kk < self.amap().len() && (#[trigger] self.amap()[kk]).0 == a;
                assert(crate::model::action_kept(self.model(), self.amap()[kk].0));
            }
        }
        None
    }

    /// Finds an orphaned grantee, if any: a non-root that has no parent, or
    /// that has neither a direct grant nor a child.
    fn find_orphan_grantee(&self) -> (r: Option<u64>)
        requires
            self.wf(),
        ensures
            r matches Some(id) ==> self.model().has_grantee(id) && !crate::model::grantee_kept(
                self.model(),
                id,
            ) && !self.model().grantees[id].root,
            r is None ==> forall|g: u64|
                #[trigger] self.model().has_grantee(g) ==> crate::model::grantee_kept(
                    self.model(),
                    g,
                ),
    {
        let n = self.grantees.len();
        let mut k: usize = 0;
        while k < n
            invariant
                self.wf(),
                n == self.gmap().len(),
                k <= n,
                forall|j: int|
                    0 <= j < k ==> crate::model::grantee_kept(
                        self.model(),
                        (#[trigger] self.gmap()[j]).0,
                    ),
            decreases n - k,
        {
            let (id, idx) = self.grantees[k];
            proof {
                assert(self.gmap()[k as int] == (id, idx));
                assert(idx_of(self.gmap(), id) == idx as int) by {
                    let kk = choose|kk: int|
                        0 <= kk < self.gmap().len() && (#[trigger] self.gmap()[kk]).0 == id;
                    assert(kk == k);
                }
                assert(self.glive(idx as int));
                self.lemma_grantee_kept_iff(id, idx as int);
            }
            let node = self.grantees_arena.get(idx);
            if !node.is_root && ((node.actions.is_empty() && node.grantees.is_empty())
                || node.grantee_of.is_empty()) {
                return Some(id);
            }
            k = k + 1;
        }
        proof {
            assert forall|g: u64|
                #[trigger] self.model().has_grantee(g) implies crate::model::grantee_kept(
                self.model(),
                g,
            ) by {
                let kk = choose|kk: int|
                    0 <= kk < self.gmap().len() && (#[trigger] self.gmap()[kk]).0 == g;
                assert(crate::model::grantee_kept(self.model(), self.gmap()[kk].0));
            }
        }
        None
    }

    /// The id mapped to a live grantee position.
    fn grantee_key_at(&self, pos: usize) -> (id: u64)
        requires
            self.wf(),
            self.glive(pos as int),
        ensures
            id == key_of(self.gmap(), pos as int),
            has_key(self.gmap(), id),
            idx_of(self.gmap(), id) == pos as int,
    {
        proof {
            lemma_entries_bijective(self.gmap());
        }
        let n = self.grantees.len();
        let mut k: usize = 0;
        while k < n
            invariant
                self.wf(),
                self.glive(pos as int),
                n == self.gmap().len(),
                k <= n,
                forall|j: int| 0 <= j < k ==> ((#[trigger] self.gmap()[j]).1 as int) != pos as int,
            decreases n - k,
        {
            let (id, idx) = self.grantees[k];
            if idx == pos {
                proof {
                    assert(self.gmap()[k as int] == (id, idx));
                    let kk = choose|kk: int|
                        0 <= kk < self.gmap().len() && ((#[trigger] self.gmap()[kk]).1 as int)
                            == pos as int;
                    assert(kk == k);
                    lemma_entries_bijective(self.gmap());
                }
                return id;
            }
            k = k + 1;
        }
        proof {
            assert(has_val(self.gmap(), pos as int));
            let kk = choose|kk: int|
                0 <= kk < self.gmap().len() && ((#[trigger] self.gmap()[kk]).1 as int)
                    == pos as int;
            assert(false);
        }
        vstd::pervasive::unreached()
    }

    /// The id mapped to a live action position.
    fn action_key_at(&self, pos: usize) -> (id: u64)
        requires
            self.wf(),
            self.alive(pos as int),
        ensures
            id == key_of(self.amap(), pos as int),
            has_key(self.amap(), id),
            idx_of(self.amap(), id) == pos as int,
    {
        proof {
            lemma_entries_bijective(self.amap());
        }
        let n = self.actions.len();
        let mut k: usize = 0;
        while k < n
            invariant
                self.wf(),
                self.alive(pos as int),
                n == self.amap().len(),
                k <= n,
                forall|j: int| 0 <= j < k ==> ((#[trigger] self.amap()[j]).1 as int) != pos as int,
            decreases n - k,
        {
            let (id, idx) = self.actions[k];
            if idx == pos {
                proof {
                    assert(self.amap()[k as int] == (id, idx));
                    let kk = choose|kk: int|
                        0 <= kk < self.amap().len() && ((#[trigger] self.amap()[kk]).1 as int)
                            == pos as int;
                    assert(kk == k);
                    lemma_entries_bijective(self.amap());
                }
                return id;
            }
            k = k + 1;
        }
        proof {
            assert(has_val(self.amap(), pos as int));
            let kk = choose|kk: int|
                0 <= kk < self.amap().len() && ((#[trigger] self.amap()[kk]).1 as int)
                    == pos as int;
            assert(false);
        }
        vstd::pervasive::unreached()
    }

    /// Emits the reconstruction log of the current graph: inheritance edges
    /// of non-root grantees, super-action edges, direct grants, and roots,
    /// in that order.
    #[verifier::rlimit(100)]
    fn emit_replay(&self) -> (replay: Vec<Replay>)
        requires
            self.wf(),
        ensures
            forall|e: Replay| #[trigger] replay@.contains(e) <==> replay_valid(self.model(), e),
            replay@.no_duplicates(),
            forall|i: int, j: int|
                #![trigger replay@[i], replay@[j]]
                0 <= i < j < replay@.len() ==> replay_kind_rank(replay@[i]) <= replay_kind_rank(
                    replay@[j],
                ),
    {
        let ghost m = self.model();
        proof {
            lemma_entries_bijective(self.gmap());
            lemma_entries_bijective(self.amap());
        }
        let mut replay: Vec<Replay> = Vec::new();
        let ng = self.grantees.len();
        let na = self.actions.len();

        // Inheritance edges of non-root grantees.
        let mut k: usize = 0;
        while k < ng
            invariant
                self.wf(),
                m == self.model(),
                ng == self.gmap().len(),
                k <= ng,
                forall|j: int| 0 <= j < replay@.len() ==> replay_valid(m, #[trigger] replay@[j]),
                forall|e: Replay| #[trigger] replay@.contains(e) ==> e matches Replay::ConnectGrantees(_, _),
                replay@.no_duplicates(),
                forall|i: int, j: int|
                    #![trigger replay@[i], replay@[j]]
                    0 <= i < j < replay@.len() ==> replay_kind_rank(replay@[i])
                        <= replay_kind_rank(replay@[j]),
                forall|g: u64, h: u64|
                    #![trigger replay@.contains(Replay::ConnectGrantees(g, h))]
                    replay@.contains(Replay::ConnectGrantees(g, h)) ==> exists|j: int|
                        0 <= j < k && (#[trigger] self.gmap()[j]).0 == g,
                forall|j: int, h: u64|
                    #![trigger m.grantees[self.gmap()[j].0].parents.contains(h)]
                    0 <= j < k && !m.grantees[self.gmap()[j].0].root
                        && m.grantees[self.gmap()[j].0].parents.contains(h) ==> replay@.contains(
                        Replay::ConnectGrantees(self.gmap()[j].0, h),
                    ),
            decreases ng - k,
        {
            let (gid, gidx) = self.grantees[k];
            proof {
                assert(self.gmap()[k as int] == (gid, gidx));
                assert(idx_of(self.gmap(), gid) == gidx as int) by {
                    let kk = choose|kk: int|
                        0 <= kk < self.gmap().len() && (#[trigger] self.gmap()[kk]).0 == gid;
                    assert(kk == k);
                }
                assert(self.glive(gidx as int));
            }
            let node = self.grantees_arena.get(gidx);
            if !node.is_root {
                let parents = copy_list(&node.grantee_of);
                let mut l: usize = 0;
                while l < parents.len()
                    invariant
                        self.wf(),
                        m == self.model(),
                        ng == self.gmap().len(),
                        k < ng,
                        self.gmap()[k as int] == (gid, gidx),
                        idx_of(self.gmap(), gid) == gidx as int,
                        self.glive(gidx as int),
                        !self.gnode(gidx as int).is_root,
                        parents@ == self.gnode(gidx as int).grantee_of@,
                        l <= parents@.len(),
                        forall|j: int|
                            0 <= j < replay@.len() ==> replay_valid(m, #[trigger] replay@[j]),
                        forall|e: Replay| #[trigger]
                            replay@.contains(e) ==> e matches Replay::ConnectGrantees(_, _),
                        replay@.no_duplicates(),
                        forall|i: int, j: int|
                            #![trigger replay@[i], replay@[j]]
                            0 <= i < j < replay@.len() ==> replay_kind_rank(replay@[i])
                                <= replay_kind_rank(replay@[j]),
                        forall|g2: u64, h: u64|
                            #![trigger replay@.contains(Replay::ConnectGrantees(g2, h))]
                            replay@.contains(Replay::ConnectGrantees(g2, h)) ==> exists|j: int|
                                0 <= j < k + 1 && (#[trigger] self.gmap()[j]).0 == g2,
                        forall|h: u64|
                            #![trigger m.grantees[gid].parents.contains(h)]
                            replay@.contains(Replay::ConnectGrantees(gid, h)) ==> exists|l2: int|
                                0 <= l2 < l && key_of(
                                    self.gmap(),
                                    (#[trigger] parents@[l2]) as int,
                                ) == h,
                        forall|j: int, h: u64|
                            #![trigger m.grantees[self.gmap()[j].0].parents.contains(h)]
                            0 <= j < k && !m.grantees[self.gmap()[j].0].root
                                && m.grantees[self.gmap()[j].0].parents.contains(h)
                                ==> replay@.contains(
                                Replay::ConnectGrantees(self.gmap()[j].0, h),
                            ),
                        forall|l2: int|
                            0 <= l2 < l ==> replay@.contains(
                                Replay::ConnectGrantees(
                                    gid,
                                    key_of(self.gmap(), (#[trigger] parents@[l2]) as int),
                                ),
                            ),
                    decreases parents@.len() - l,
                {
                    let x = parents[l];
                    proof {
                        assert(self.gnode(gidx as int).grantee_of@[l as int] == x);
                        assert(self.glive(x as int));
                    }
                    let hid = self.grantee_key_at(x);
                    let ghost r0 = replay@;
                    proof {
                        assert(m.grantees[gid].parents.contains(hid)) by {
                            assert(has_val(self.gmap(), x as int));
                            let kb = choose|kb: int|
                                0 <= kb < self.gmap().len() && ((#[trigger] self.gmap()[kb]).1
                                    as int) == x as int;
                            assert(self.gmap()[kb].0 == hid);
                            assert(list_has(
                                self.gnode(gidx as int).grantee_of@,
                                self.gmap()[kb].1 as int,
                            )) by {
                                assert((self.gnode(gidx as int).grantee_of@[l as int] as int)
                                    == x as int);
                            }
                            assert(ids_of(self.gmap(), self.gnode(gidx as int).grantee_of@)
                                .contains(hid));
                        }
                        assert(m.grantees.dom().contains(gid));
                        assert(!m.grantees[gid].root);
                    }
                    if first_occurrence(&parents, l) {
                        proof {
                            lemma_entries_bijective(self.gmap());
                            if replay@.contains(Replay::ConnectGrantees(gid, hid)) {
                                let l2 = choose|l2: int|
                                    0 <= l2 < l && key_of(
                                        self.gmap(),
                                        (#[trigger] parents@[l2]) as int,
                                    ) == hid;
                                assert(self.glive(parents@[l2] as int)) by {
                                    assert(self.gnode(gidx as int).grantee_of@[l2] == parents@[l2]);
                                }
                                assert(has_val(self.gmap(), parents@[l2] as int));
                                assert(has_val(self.gmap(), x as int));
                                assert(idx_of(self.gmap(), hid) == parents@[l2] as int);
                                assert(idx_of(self.gmap(), hid) == x as int);
                                assert(list_has(parents@.subrange(0, l as int), x as int)) by {
                                    assert((parents@.subrange(0, l as int)[l2] as int)
                                        == x as int);
                                }
                                assert(false);
                            }
                            lemma_no_dup_push(r0, Replay::ConnectGrantees(gid, hid));
                            lemma_contains_push(r0, Replay::ConnectGrantees(gid, hid));
                        }
                        replay.push(Replay::ConnectGrantees(gid, hid));
                        proof {
                        assert forall|i2: int, j2: int|
                            #![trigger replay@[i2], replay@[j2]]
                            0 <= i2 < j2 < replay@.len() implies replay_kind_rank(replay@[i2])
                            <= replay_kind_rank(replay@[j2]) by {
                            if j2 == replay@.len() - 1 {
                                assert(replay@[i2] == r0[i2]);
                                assert(r0.contains(r0[i2]));
                                assert(replay@[j2] == Replay::ConnectGrantees(gid, hid));
                            } else {
                                assert(replay@[i2] == r0[i2] && replay@[j2] == r0[j2]);
                            }
                        }
                        }
                    } else {
                        proof {
                            let l3 = choose|l3: int|
                                0 <= l3 < l && ((#[trigger] parents@.subrange(
                                    0,
                                    l as int,
                                )[l3]) as int) == x as int;
                            assert(parents@[l3] == x);
                            assert(key_of(self.gmap(), parents@[l3] as int) == hid);
                            assert(replay@.contains(
                                Replay::ConnectGrantees(
                                    gid,
                                    key_of(self.gmap(), parents@[l3] as int),
                                ),
                            ));
                        }
                    }
                    l = l + 1;
                }
                proof {
                    assert forall|h: u64|
                        m.grantees[gid].parents.contains(h) implies replay@.contains(
                        Replay::ConnectGrantees(gid, h),
                    ) by {
                        let kb = choose|kb: int|
                            0 <= kb < self.gmap().len() && (#[trigger] self.gmap()[kb]).0 == h
                                && list_has(
                                self.gnode(gidx as int).grantee_of@,
                                self.gmap()[kb].1 as int,
                            );
                        let l2 = choose|l2: int|
                            0 <= l2 < self.gnode(gidx as int).grantee_of@.len() && (((
                            #[trigger] self.gnode(gidx as int).grantee_of@[l2])) as int)
                                == self.gmap()[kb].1 as int;
                        assert(key_of(self.gmap(), parents@[l2] as int) == h) by {
                            assert(has_val(self.gmap(), self.gmap()[kb].1 as int));
                            let kc = choose|kc: int|
                                0 <= kc < self.gmap().len() && ((#[trigger] self.gmap()[kc]).1
                                    as int) == self.gmap()[kb].1 as int;
                            assert(kc == kb);
                        }
                        assert(replay@.contains(
                            Replay::ConnectGrantees(
                                gid,
                                key_of(self.gmap(), parents@[l2] as int),
                            ),
                        ));
                    }
                }
            } else {
                proof {
                    assert(m.grantees[gid].root);
                }
            }
            k = k + 1;
        }

        // Super-action edges.
        let ghost replay_cg = replay@;
        let mut k2: usize = 0;
        while k2 < na
            invariant
                self.wf(),
                m == self.model(),
                na == self.amap().len(),
                k2 <= na,
                forall|j: int| 0 <= j < replay@.len() ==> replay_valid(m, #[trigger] replay@[j]),
                forall|e: Replay| #[trigger] replay_cg.contains(e) ==> replay@.contains(e),
                forall|e: Replay| #[trigger]
                    replay@.contains(e) ==> (e matches Replay::ConnectGrantees(_, _)
                        || e matches Replay::ConnectActions(_, _)),
                replay@.no_duplicates(),
                forall|i: int, j: int|
                    #![trigger replay@[i], replay@[j]]
                    0 <= i < j < replay@.len() ==> replay_kind_rank(replay@[i])
                        <= replay_kind_rank(replay@[j]),
                forall|mn: u64, sb: u64|
                    #![trigger replay@.contains(Replay::ConnectActions(mn, sb))]
                    replay@.contains(Replay::ConnectActions(mn, sb)) ==> exists|j: int|
                        0 <= j < k2 && (#[trigger] self.amap()[j]).0 == sb,
                forall|g: u64, h: u64|
                    replay_valid(m, Replay::ConnectGrantees(g, h)) ==> #[trigger] replay@.contains(
                        Replay::ConnectGrantees(g, h),
                    ),
                forall|j: int, mn: u64|
                    #![trigger m.actions[self.amap()[j].0].contains(mn)]
                    0 <= j < k2 && m.actions[self.amap()[j].0].contains(mn)
                        ==> replay@.contains(Replay::ConnectActions(mn, self.amap()[j].0)),
            decreases na - k2,
        {
            let (sid, sidx) = self.actions[k2];
            proof {
                assert(self.amap()[k2 as int] == (sid, sidx));
                assert(idx_of(self.amap(), sid) == sidx as int) by {
                    let kk = choose|kk: int|
                        0 <= kk < self.amap().len() && (#[trigger] self.amap()[kk]).0 == sid;
                    assert(kk == k2);
                }
                assert(self.alive(sidx as int));
            }
            let supers = copy_list(&self.actions_arena.get(sidx).sub_action_of);
            let mut l: usize = 0;
            while l < supers.len()
                invariant
                    self.wf(),
                    m == self.model(),
                    na == self.amap().len(),
                    k2 < na,
                    self.amap()[k2 as int] == (sid, sidx),
                    idx_of(self.amap(), sid) == sidx as int,
                    self.alive(sidx as int),
                    supers@ == self.anode(sidx as int).sub_action_of@,
                    l <= supers@.len(),
                    forall|j: int|
                        0 <= j < replay@.len() ==> replay_valid(m, #[trigger] replay@[j]),
                    forall|e: Replay| #[trigger] replay_cg.contains(e) ==> replay@.contains(e),
                    forall|e: Replay| #[trigger]
                        replay@.contains(e) ==> (e matches Replay::ConnectGrantees(_, _)
                            || e matches Replay::ConnectActions(_, _)),
                    replay@.no_duplicates(),
                    forall|i: int, j: int|
                        #![trigger replay@[i], replay@[j]]
                        0 <= i < j < replay@.len() ==> replay_kind_rank(replay@[i])
                            <= replay_kind_rank(replay@[j]),
                    forall|mn: u64, sb: u64|
                        #![trigger replay@.contains(Replay::ConnectActions(mn, sb))]
                        replay@.contains(Replay::ConnectActions(mn, sb)) ==> exists|j: int|
                            0 <= j < k2 + 1 && (#[trigger] self.amap()[j]).0 == sb,
                    forall|mn: u64|
                        #![trigger m.actions[sid].contains(mn)]
                        replay@.contains(Replay::ConnectActions(mn, sid)) ==> exists|l2: int|
                            0 <= l2 < l && key_of(
                                self.amap(),
                                (#[trigger] supers@[l2]) as int,
                            ) == mn,
                    forall|g: u64, h: u64|
                        replay_valid(m, Replay::ConnectGrantees(g, h))
                            ==> #[trigger] replay@.contains(Replay::ConnectGrantees(g, h)),
                    forall|j: int, mn: u64|
                        #![trigger m.actions[self.amap()[j].0].contains(mn)]
                        0 <= j < k2 && m.actions[self.amap()[j].0].contains(mn)
                            ==> replay@.contains(Replay::ConnectActions(mn, self.amap()[j].0)),
                    forall|l2: int|
                        0 <= l2 < l ==> replay@.contains(
                            Replay::ConnectActions(
                                key_of(self.amap(), (#[trigger] supers@[l2]) as int),
                                sid,
                            ),
                        ),
                decreases supers@.len() - l,
            {
                let x = supers[l];
                proof {
                    assert(self.anode(sidx as int).sub_action_of@[l as int] == x);
                    assert(self.alive(x as int));
                }
                let mid = self.action_key_at(x);
                let ghost r0 = replay@;
                proof {
                    assert(m.actions[sid].contains(mid)) by {
                        assert(has_val(self.amap(), x as int));
                        let kb = choose|kb: int|
                            0 <= kb < self.amap().len() && ((#[trigger] self.amap()[kb]).1
                                as int) == x as int;
                        assert(self.amap()[kb].0 == mid);
                        assert(list_has(
                            self.anode(sidx as int).sub_action_of@,
                            self.amap()[kb].1 as int,
                        )) by {
                            assert((self.anode(sidx as int).sub_action_of@[l as int] as int)
                                == x as int);
                        }
                        assert(ids_of(self.amap(), self.anode(sidx as int).sub_action_of@)
                            .contains(mid));
                    }
                    assert(m.actions.dom().contains(sid));
                }
                if first_occurrence(&supers, l) {
                    proof {
                        lemma_entries_bijective(self.amap());
                        if replay@.contains(Replay::ConnectActions(mid, sid)) {
                            let l2 = choose|l2: int|
                                0 <= l2 < l && key_of(
                                    self.amap(),
                                    (#[trigger] supers@[l2]) as int,
                                ) == mid;
                            assert(self.alive(supers@[l2] as int)) by {
                                assert(self.anode(sidx as int).sub_action_of@[l2]
                                    == supers@[l2]);
                            }
                            assert(has_val(self.amap(), supers@[l2] as int));
                            assert(has_val(self.amap(), x as int));
                            assert(idx_of(self.amap(), mid) == supers@[l2] as int);
                            assert(idx_of(self.amap(), mid) == x as int);
                            assert(list_has(supers@.subrange(0, l as int), x as int)) by {
                                assert((supers@.subrange(0, l as int)[l2] as int) == x as int);
                            }
                            assert(false);
                        }
                        lemma_no_dup_push(r0, Replay::ConnectActions(mid, sid));
                        lemma_contains_push(r0, Replay::ConnectActions(mid, sid));
                    }
                    replay.push(Replay::ConnectActions(mid, sid));
                    proof {
                        assert forall|i2: int, j2: int|
                            #![trigger replay@[i2], replay@[j2]]
                            0 <= i2 < j2 < replay@.len() implies replay_kind_rank(replay@[i2])
                            <= replay_kind_rank(replay@[j2]) by {
                            if j2 == replay@.len() - 1 {
                                assert(replay@[i2] == r0[i2]);
                                assert(r0.contains(r0[i2]));
                                assert(replay@[j2] == Replay::ConnectActions(mid, sid));
                            } else {
                                assert(replay@[i2] == r0[i2] && replay@[j2] == r0[j2]);
                            }
                        }
                    }
                } else {
                    proof {
                        let l3 = choose|l3: int|
                            0 <= l3 < l && ((#[trigger] supers@.subrange(
                                0,
                                l as int,
                            )[l3]) as int) == x as int;
                        assert(supers@[l3] == x);
                        assert(key_of(self.amap(), supers@[l3] as int) == mid);
                        assert(replay@.contains(
                            Replay::ConnectActions(
                                key_of(self.amap(), supers@[l3] as int),
                                sid,
                            ),
                        ));
                    }
                }
                l = l + 1;
            }
            proof {
                assert forall|mn: u64|
                    m.actions[sid].contains(mn) implies replay@.contains(
                    Replay::ConnectActions(mn, sid),
                ) by {
                    let kb = choose|kb: int|
                        0 <= kb < self.amap().len() && (#[trigger] self.amap()[kb]).0 == mn
                            && list_has(
                            self.anode(sidx as int).sub_action_of@,
                            self.amap()[kb].1 as int,
                        );
                    let l2 = choose|l2: int|
                        0 <= l2 < self.anode(sidx as int).sub_action_of@.len() && (((
                        #[trigger] self.anode(sidx as int).sub_action_of@[l2])) as int)
                            == self.amap()[kb].1 as int;
                    assert(key_of(self.amap(), supers@[l2] as int) == mn) by {
                        assert(has_val(self.amap(), self.amap()[kb].1 as int));
                        let kc = choose|kc: int|
                            0 <= kc < self.amap().len() && ((#[trigger] self.amap()[kc]).1
                                as int) == self.amap()[kb].1 as int;
                        assert(kc == kb);
                    }
                    assert(replay@.contains(
                        Replay::ConnectActions(key_of(self.amap(), supers@[l2] as int), sid),
                    ));
                }
            }
            k2 = k2 + 1;
        }

        // Direct grants.
        let ghost replay_ca = replay@;
        let mut k3: usize = 0;
        while k3 < na
            invariant
                self.wf(),
                m == self.model(),
                na == self.amap().len(),
                k3 <= na,
                forall|j: int| 0 <= j < replay@.len() ==> replay_valid(m, #[trigger] replay@[j]),
                forall|e: Replay| #[trigger] replay_ca.contains(e) ==> replay@.contains(e),
                forall|e: Replay| #[trigger]
                    replay@.contains(e) ==> !(e matches Replay::Root(_)),
                replay@.no_duplicates(),
                forall|i: int, j: int|
                    #![trigger replay@[i], replay@[j]]
                    0 <= i < j < replay@.len() ==> replay_kind_rank(replay@[i])
                        <= replay_kind_rank(replay@[j]),
                forall|g: u64, a: u64|
                    #![trigger replay@.contains(Replay::Grant(g, a))]
                    replay@.contains(Replay::Grant(g, a)) ==> exists|j: int|
                        0 <= j < k3 && (#[trigger] self.amap()[j]).0 == a,
                forall|g: u64, h: u64|
                    replay_valid(m, Replay::ConnectGrantees(g, h)) ==> #[trigger] replay@.contains(
                        Replay::ConnectGrantees(g, h),
                    ),
                forall|mn: u64, sb: u64|
                    replay_valid(m, Replay::ConnectActions(mn, sb)) ==> #[trigger] replay@.contains(
                        Replay::ConnectActions(mn, sb),
                    ),
                forall|j: int, g: u64|
                    #![trigger m.grantees[g].acts.contains(self.amap()[j].0)]
                    0 <= j < k3 && m.grantees.dom().contains(g) && m.grantees[g].acts.contains(
                        self.amap()[j].0,
                    ) ==> replay@.contains(Replay::Grant(g, self.amap()[j].0)),
            decreases na - k3,
        {
            let (aid, aidx) = self.actions[k3];
            proof {
                assert(self.amap()[k3 as int] == (aid, aidx));
                assert(idx_of(self.amap(), aid) == aidx as int) by {
                    let kk = choose|kk: int|
                        0 <= kk < self.amap().len() && (#[trigger] self.amap()[kk]).0 == aid;
                    assert(kk == k3);
                }
                assert(self.alive(aidx as int));
            }
            let holders = copy_list(&self.actions_arena.get(aidx).grantees);
            let mut l: usize = 0;
            while l < holders.len()
                invariant
                    self.wf(),
                    m == self.model(),
                    na == self.amap().len(),
                    k3 < na,
                    self.amap()[k3 as int] == (aid, aidx),
                    idx_of(self.amap(), aid) == aidx as int,
                    self.alive(aidx as int),
                    holders@ == self.anode(aidx as int).grantees@,
                    l <= holders@.len(),
                    forall|j: int|
                        0 <= j < replay@.len() ==> replay_valid(m, #[trigger] replay@[j]),
                    forall|e: Replay| #[trigger] replay_ca.contains(e) ==> replay@.contains(e),
                    forall|e: Replay| #[trigger]
                        replay@.contains(e) ==> !(e matches Replay::Root(_)),
                    replay@.no_duplicates(),
                    forall|i: int, j: int|
                        #![trigger replay@[i], replay@[j]]
                        0 <= i < j < replay@.len() ==> replay_kind_rank(replay@[i])
                            <= replay_kind_rank(replay@[j]),
                    forall|g: u64, a: u64|
                        #![trigger replay@.contains(Replay::Grant(g, a))]
                        replay@.contains(Replay::Grant(g, a)) ==> exists|j: int|
                            0 <= j < k3 + 1 && (#[trigger] self.amap()[j]).0 == a,
                    forall|g: u64|
                        #![trigger m.grantees[g].acts.contains(aid)]
                        replay@.contains(Replay::Grant(g, aid)) ==> exists|l2: int|
                            0 <= l2 < l && key_of(
                                self.gmap(),
                                (#[trigger] holders@[l2]) as int,
                            ) == g,
                    forall|g: u64, h: u64|
                        replay_valid(m, Replay::ConnectGrantees(g, h))
                            ==> #[trigger] replay@.contains(Replay::ConnectGrantees(g, h)),
                    forall|mn: u64, sb: u64|
                        replay_valid(m, Replay::ConnectActions(mn, sb))
                            ==> #[trigger] replay@.contains(Replay::ConnectActions(mn, sb)),
                    forall|j: int, g: u64|
                        #![trigger m.grantees[g].acts.contains(self.amap()[j].0)]
                        0 <= j < k3 && m.grantees.dom().contains(g) && m.grantees[g].acts.contains(
                            self.amap()[j].0,
                        ) ==> replay@.contains(Replay::Grant(g, self.amap()[j].0)),
                    forall|l2: int|
                        0 <= l2 < l ==> replay@.contains(
                            Replay::Grant(
                                key_of(self.gmap(), (#[trigger] holders@[l2]) as int),
                                aid,
                            ),
                        ),
                decreases holders@.len() - l,
            {
                let x = holders[l];
                proof {
                    assert(self.anode(aidx as int).grantees@[l as int] == x);
                    assert(self.glive(x as int));
                }
                let gid = self.grantee_key_at(x);
                let ghost r0 = replay@;
                proof {
                    assert(m.grantees[gid].acts.contains(aid)) by {
                        assert(list_has(self.anode(aidx as int).grantees@, x as int)) by {
                            assert((self.anode(aidx as int).grantees@[l as int] as int)
                                == x as int);
                        }
                        let lb = choose|lb: int|
                            0 <= lb < self.anode(aidx as int).grantees@.len() && (((
                            #[trigger] self.anode(aidx as int).grantees@[lb])) as int)
                                == x as int;
                        assert(list_has(self.gnode(x as int).actions@, aidx as int));
                        let kb = choose|kb: int|
                            0 <= kb < self.amap().len() && ((#[trigger] self.amap()[kb]).1
                                as int) == aidx as int;
                        assert(self.amap()[kb].0 == aid);
                        assert(ids_of(self.amap(), self.gnode(x as int).actions@).contains(aid));
                    }
                    assert(m.grantees.dom().contains(gid));
                }
                if first_occurrence(&holders, l) {
                    proof {
                        lemma_entries_bijective(self.gmap());
                        if replay@.contains(Replay::Grant(gid, aid)) {
                            let l2 = choose|l2: int|
                                0 <= l2 < l && key_of(
                                    self.gmap(),
                                    (#[trigger] holders@[l2]) as int,
                                ) == gid;
                            assert(self.glive(holders@[l2] as int)) by {
                                assert(self.anode(aidx as int).grantees@[l2] == holders@[l2]);
                            }
                            assert(has_val(self.gmap(), holders@[l2] as int));
                            assert(has_val(self.gmap(), x as int));
                            assert(idx_of(self.gmap(), gid) == holders@[l2] as int);
                            assert(idx_of(self.gmap(), gid) == x as int);
                            assert(list_has(holders@.subrange(0, l as int), x as int)) by {
                                assert((holders@.subrange(0, l as int)[l2] as int) == x as int);
                            }
                            assert(false);
                        }
                        lemma_no_dup_push(r0, Replay::Grant(gid, aid));
                        lemma_contains_push(r0, Replay::Grant(gid, aid));
                    }
                    replay.push(Replay::Grant(gid, aid));
                    proof {
                        assert forall|i2: int, j2: int|
                            #![trigger replay@[i2], replay@[j2]]
                            0 <= i2 < j2 < replay@.len() implies replay_kind_rank(replay@[i2])
                            <= replay_kind_rank(replay@[j2]) by {
                            if j2 == replay@.len() - 1 {
                                assert(replay@[i2] == r0[i2]);
                                assert(r0.contains(r0[i2]));
                                assert(replay@[j2] == Replay::Grant(gid, aid));
                            } else {
                                assert(replay@[i2] == r0[i2] && replay@[j2] == r0[j2]);
                            }
                        }
                    }
                } else {
                    proof {
                        let l3 = choose|l3: int|
                            0 <= l3 < l && ((#[trigger] holders@.subrange(
                                0,
                                l as int,
                            )[l3]) as int) == x as int;
                        assert(holders@[l3] == x);
                        assert(key_of(self.gmap(), holders@[l3] as int) == gid);
                        assert(replay@.contains(
                            Replay::Grant(key_of(self.gmap(), holders@[l3] as int), aid),
                        ));
                    }
                }
                l = l + 1;
            }
            proof {
                assert forall|g: u64|
                    m.grantees.dom().contains(g) && m.grantees[g].acts.contains(aid)
                    implies replay@.contains(Replay::Grant(g, aid)) by {
                    let gi = idx_of(self.gmap(), g);
                    assert(has_key(self.gmap(), g));
                    assert(self.glive(gi));
                    let kb = choose|kb: int|
                        0 <= kb < self.amap().len() && (#[trigger] self.amap()[kb]).0 == aid
                            && list_has(self.gnode(gi).actions@, self.amap()[kb].1 as int);
                    assert((self.amap()[kb].1 as int) == aidx as int) by {
                        let kc = choose|kc: int|
                            0 <= kc < self.amap().len() && (#[trigger] self.amap()[kc]).0 == aid;
                        assert(kc == kb);
                    }
                    let lb = choose|lb: int|
                        0 <= lb < self.gnode(gi).actions@.len() && (((#[trigger] self.gnode(
                            gi,
                        ).actions@[lb])) as int) == aidx as int;
                    assert(list_has(self.anode(aidx as int).grantees@, gi));
                    let l2 = choose|l2: int|
                        0 <= l2 < self.anode(aidx as int).grantees@.len() && (((
                        #[trigger] self.anode(aidx as int).grantees@[l2])) as int) == gi;
                    assert(key_of(self.gmap(), holders@[l2] as int) == g) by {
                        assert(has_val(self.gmap(), gi));
                        let kd = choose|kd: int|
                            0 <= kd < self.gmap().len() && ((#[trigger] self.gmap()[kd]).1
                                as int) == gi;
                        lemma_entries_bijective(self.gmap());
                    }
                    assert(replay@.contains(
                        Replay::Grant(key_of(self.gmap(), holders@[l2] as int), aid),
                    ));
                }
            }
            k3 = k3 + 1;
        }

        // Roots.
        let ghost replay_gr = replay@;
        let mut k4: usize = 0;
        while k4 < ng
            invariant
                self.wf(),
                m == self.model(),
                ng == self.gmap().len(),
                k4 <= ng,
                forall|j: int| 0 <= j < replay@.len() ==> replay_valid(m, #[trigger] replay@[j]),
                forall|e: Replay| #[trigger] replay_gr.contains(e) ==> replay@.contains(e),
                replay@.no_duplicates(),
                forall|i: int, j: int|
                    #![trigger replay@[i], replay@[j]]
                    0 <= i < j < replay@.len() ==> replay_kind_rank(replay@[i])
                        <= replay_kind_rank(replay@[j]),
                forall|g: u64|
                    #![trigger replay@.contains(Replay::Root(g))]
                    replay@.contains(Replay::Root(g)) ==> exists|j: int|
                        0 <= j < k4 && (#[trigger] self.gmap()[j]).0 == g,
                forall|g: u64, h: u64|
                    replay_valid(m, Replay::ConnectGrantees(g, h)) ==> #[trigger] replay@.contains(
                        Replay::ConnectGrantees(g, h),
                    ),
                forall|mn: u64, sb: u64|
                    replay_valid(m, Replay::ConnectActions(mn, sb)) ==> #[trigger] replay@.contains(
                        Replay::ConnectActions(mn, sb),
                    ),
                forall|g: u64, a: u64|
                    replay_valid(m, Replay::Grant(g, a)) ==> #[trigger] replay@.contains(
                        Replay::Grant(g, a),
                    ),
                forall|j: int|
                    0 <= j < k4 && m.grantees[(#[trigger] self.gmap()[j]).0].root
                        ==> replay@.contains(Replay::Root(self.gmap()[j].0)),
            decreases ng - k4,
        {
            let (gid, gidx) = self.grantees[k4];
            proof {
                assert(self.gmap()[k4 as int] == (gid, gidx));
                assert(idx_of(self.gmap(), gid) == gidx as int) by {
                    let kk = choose|kk: int|
                        0 <= kk < self.gmap().len() && (#[trigger] self.gmap()[kk]).0 == gid;
                    assert(kk == k4);
                }
                assert(self.glive(gidx as int));
            }
            if self.grantees_arena.get(gidx).is_root {
                let ghost r0 = replay@;
                proof {
                    assert(m.grantees.dom().contains(gid));
                    assert(m.grantees[gid].root);
                    if replay@.contains(Replay::Root(gid)) {
                        let j2 = choose|j2: int|
                            0 <= j2 < k4 && (#[trigger] self.gmap()[j2]).0 == gid;
                        assert(self.gmap()[j2].0 == self.gmap()[k4 as int].0);
                        assert(false);
                    }
                    lemma_no_dup_push(r0, Replay::Root(gid));
                    lemma_contains_push(r0, Replay::Root(gid));
                }
                replay.push(Replay::Root(gid));
                proof {
                        assert forall|i2: int, j2: int|
                            #![trigger replay@[i2], replay@[j2]]
                            0 <= i2 < j2 < replay@.len() implies replay_kind_rank(replay@[i2])
                            <= replay_kind_rank(replay@[j2]) by {
                            if j2 == replay@.len() - 1 {
                                assert(replay@[i2] == r0[i2]);
                                assert(r0.contains(r0[i2]));
                                assert(replay@[j2] == Replay::Root(gid));
                            } else {
                                assert(replay@[i2] == r0[i2] && replay@[j2] == r0[j2]);
                            }
                        }
                }
            }
            k4 = k4 + 1;
        }

        proof {
            assert forall|e: Replay| #[trigger]
                replay@.contains(e) <==> replay_valid(m, e) by {
                if replay@.contains(e) {
                    let j = choose|j: int| 0 <= j < replay@.len() && replay@[j] == e;
                    assert(replay_valid(m, replay@[j]));
                }
                if replay_valid(m, e) {
                    match e {
                        Replay::Grant(g, a) => {
                            let kk = choose|kk: int|
                                0 <= kk < self.amap().len() && (#[trigger] self.amap()[kk]).0
                                    == a;
                        },
                        Replay::ConnectGrantees(g, h) => {},
                        Replay::ConnectActions(mn, sb) => {},
                        Replay::Root(g) => {
                            let kk = choose|kk: int|
                                0 <= kk < self.gmap().len() && (#[trigger] self.gmap()[kk]).0
                                    == g;
                            assert(m.grantees[self.gmap()[kk].0].root);
                        },
                    }
                }
            }
        }
        replay
    }

    /// Removes every node that cannot contribute to a `true` answer —
    /// re-scanning after each removal, since cutting one node can orphan
    /// another — then packs both arenas, rewriting every stored position
    /// through the reported moves, and returns a log from which the
    /// surviving graph can be rebuilt.  Roots are never removed.  The
    /// survivors keep exactly the edges they had among themselves.
    pub fn compact(&mut self) -> (replay: Vec<Replay>)
        requires
            old(self).wf(),
        ensures
            final(self).wf(),
            final(self).model() == crate::model::restricted(
                old(self).model(),
                final(self).model().grantees.dom(),
                final(self).model().actions.dom(),
            ),
            forall|g: u64|
                old(self).model().has_grantee(g) && old(self).model().grantees[g].root
                    ==> #[trigger] final(self).model().has_grantee(g),
            crate::model::no_orphans(final(self).model()),
            forall|gs: Set<u64>, as_: Set<u64>|
                #[trigger] crate::model::keep_closed(old(self).model(), gs, as_) ==> gs.subset_of(
                    final(self).model().grantees.dom(),
                ) && as_.subset_of(final(self).model().actions.dom()),
            forall|e: Replay| #[trigger]
                replay@.contains(e) <==> replay_valid(final(self).model(), e),
            replay@.no_duplicates(),
            forall|i: int, j: int|
                #![trigger replay@[i], replay@[j]]
                0 <= i < j < replay@.len() ==> replay_kind_rank(replay@[i]) <= replay_kind_rank(
                    replay@[j],
                ),
            crate::model::closed_graph(final(self).model()),
            crate::model::no_self_edges(final(self).model()),
    {
        let ghost m0 = self.model();
        proof {
            self.lemma_model_closed();
            crate::model::lemma_restricted_full(m0);
            assert(self.model().grantees.dom() =~= m0.grantees.dom());
            assert(self.model().actions.dom() =~= m0.actions.dom());
            assert(self.model() == crate::model::restricted(
                m0,
                self.model().grantees.dom(),
                self.model().actions.dom(),
            ));
        }
        loop
            invariant_except_break
                self.wf(),
                self.model() == crate::model::restricted(
                    m0,
                    self.model().grantees.dom(),
                    self.model().actions.dom(),
                ),
                forall|g: u64|
                    m0.has_grantee(g) && m0.grantees[g].root ==> #[trigger] self.model()
                        .has_grantee(g),
                forall|gs: Set<u64>, as_: Set<u64>|
                    #[trigger] crate::model::keep_closed(m0, gs, as_) ==> gs.subset_of(
                        self.model().grantees.dom(),
                    ) && as_.subset_of(self.model().actions.dom()),
            ensures
                self.wf(),
                self.model() == crate::model::restricted(
                    m0,
                    self.model().grantees.dom(),
                    self.model().actions.dom(),
                ),
                forall|g: u64|
                    m0.has_grantee(g) && m0.grantees[g].root ==> #[trigger] self.model()
                        .has_grantee(g),
                crate::model::no_orphans(self.model()),
                forall|gs: Set<u64>, as_: Set<u64>|
                    #[trigger] crate::model::keep_closed(m0, gs, as_) ==> gs.subset_of(
                        self.model().grantees.dom(),
                    ) && as_.subset_of(self.model().actions.dom()),
            decreases self.gmap().len() + self.amap().len(),
        {
            let ghost mc = self.model();
            let ghost gs = mc.grantees.dom();
            let ghost as_ = mc.actions.dom();
            if let Some(id) = self.find_orphan_action() {
                let r = self.remove_action(id);
                proof {
                    assert(r is Ok);
                    crate::model::lemma_restricted_remove_action(m0, gs, as_, id);
                    assert(self.model() == crate::model::restricted(m0, gs, as_.remove(id)));
                    assert(self.model().grantees.dom() =~= gs);
                    assert(self.model().actions.dom() =~= as_.remove(id));
                    assert forall|g: u64|
                        m0.has_grantee(g) && m0.grantees[g].root implies #[trigger] self.model()
                        .has_grantee(g) by {
                        assert(mc.has_grantee(g));
                    }
                    assert forall|gs2: Set<u64>, as2: Set<u64>|
                        #[trigger] crate::model::keep_closed(m0, gs2, as2) implies gs2.subset_of(
                        self.model().grantees.dom(),
                    ) && as2.subset_of(self.model().actions.dom()) by {
                        assert(gs2.subset_of(gs) && as2.subset_of(as_));
                        if as2.contains(id) {
                            crate::model::lemma_restricted_kept_monotone(m0, gs2, as2, gs, as_);
                            assert(crate::model::restricted(m0, gs2, as2).actions.dom().contains(
                                id,
                            ));
                            assert(crate::model::action_kept(
                                crate::model::restricted(m0, gs2, as2),
                                id,
                            ));
                            assert(crate::model::action_kept(mc, id));
                            assert(false);
                        }
                        assert(as2.subset_of(as_.remove(id)));
                    }
                }
            } else if let Some(id) = self.find_orphan_grantee() {
                let r = self.remove_grantee(id);
                proof {
                    assert(r is Ok);
                    crate::model::lemma_restricted_remove_grantee(m0, gs, as_, id);
                    assert(self.model() == crate::model::restricted(m0, gs.remove(id), as_));
                    assert(self.model().grantees.dom() =~= gs.remove(id));
                    assert(self.model().actions.dom() =~= as_);
                    assert forall|g: u64|
                        m0.has_grantee(g) && m0.grantees[g].root implies #[trigger] self.model()
                        .has_grantee(g) by {
                        assert(mc.has_grantee(g));
                        assert(mc.grantees[g].root == m0.grantees[g].root);
                        assert(g != id);
                    }
                    assert forall|gs2: Set<u64>, as2: Set<u64>|
                        #[trigger] crate::model::keep_closed(m0, gs2, as2) implies gs2.subset_of(
                        self.model().grantees.dom(),
                    ) && as2.subset_of(self.model().actions.dom()) by {
                        assert(gs2.subset_of(gs) && as2.subset_of(as_));
                        if gs2.contains(id) {
                            crate::model::lemma_restricted_kept_monotone(m0, gs2, as2, gs, as_);
                            assert(crate::model::restricted(m0, gs2, as2).grantees.dom().contains(
                                id,
                            ));
                            assert(crate::model::grantee_kept(
                                crate::model::restricted(m0, gs2, as2),
                                id,
                            ));
                            assert(crate::model::grantee_kept(mc, id));
                            assert(false);
                        }
                        assert(gs2.subset_of(gs.remove(id)));
                    }
                }
            } else {
                proof {
                    assert forall|a: u64| #[trigger]
                        self.model().actions.dom().contains(a)
                        implies crate::model::action_kept(self.model(), a) by {
                        assert(self.model().has_action(a));
                    }
                    assert forall|g: u64| #[trigger]
                        self.model().grantees.dom().contains(g)
                        implies crate::model::grantee_kept(self.model(), g) by {
                        assert(self.model().has_grantee(g));
                    }
                }
                break ;
            }
        }
        self.defragment();
        proof {
            self.lemma_model_closed();
            self.lemma_model_no_self_edges();
        }
        self.emit_replay()
    }

    /// Does this graph know `grantee_id`?
    pub fn contains_grantee(&self, grantee_id: u64) -> (r: bool)
        requires
            self.wf(),
        ensures
            r == self.model().has_grantee(grantee_id),
    {
        self.lookup_grantee(grantee_id).is_some()
    }

    /// Does this graph know `action_id`?
    pub fn contains_action(&self, action_id: u64) -> (r: bool)
        requires
            self.wf(),
        ensures
            r == self.model().has_action(action_id),
    {
        self.lookup_action(action_id).is_some()
    }

    /// The arena position of a grantee, if it exists.  Positions are what
    /// compaction reports move; they are not stable across `compact`.
    pub fn grantee_index_of(&self, grantee_id: u64) -> (r: Option<usize>)
        requires
            self.wf(),
        ensures
            r is Some <==> self.model().has_grantee(grantee_id),
            r matches Some(i) ==> (i as int) == idx_of(self.gmap(), grantee_id),
    {
        self.lookup_grantee(grantee_id)
    }

    /// The arena position of an action, if it exists.
    pub fn action_index_of(&self, action_id: u64) -> (r: Option<usize>)
        requires
            self.wf(),
        ensures
            r is Some <==> self.model().has_action(action_id),
            r matches Some(i) ==> (i as int) == idx_of(self.amap(), action_id),
    {
        self.lookup_action(action_id)
    }

    /// Translates a list of live grantee positions into their ids.
    fn gids_vec(&self, list: &Vec<usize>) -> (r: Vec<u64>)
        requires
            self.wf(),
            forall|l: int| 0 <= l < list@.len() ==> self.glive((#[trigger] list@[l]) as int),
        ensures
            r@.len() == list@.len(),
            forall|id: u64| #[trigger] r@.contains(id) <==> ids_of(self.gmap(), list@).contains(
                id,
            ),
    {
        proof {
            lemma_entries_bijective(self.gmap());
        }
        let mut r: Vec<u64> = Vec::new();
        let mut l: usize = 0;
        while l < list.len()
            invariant
                self.wf(),
                forall|l2: int| 0 <= l2 < list@.len() ==> self.glive((#[trigger] list@[l2]) as int),
                l <= list@.len(),
                r@.len() == l,
                forall|l2: int|
                    0 <= l2 < l ==> #[trigger] r@[l2] == key_of(self.gmap(), list@[l2] as int),
            decreases list@.len() - l,
        {
            let x = list[l];
            let id = self.grantee_key_at(x);
            let ghost r0 = r@;
            r.push(id);
            proof {
                assert(r@[l as int] == key_of(self.gmap(), list@[l as int] as int));
            }
            l = l + 1;
        }
        proof {
            assert forall|id: u64| #[trigger]
                r@.contains(id) <==> ids_of(self.gmap(), list@).contains(id) by {
                if r@.contains(id) {
                    let l2 = choose|l2: int| 0 <= l2 < r@.len() && r@[l2] == id;
                    assert(self.glive(list@[l2] as int));
                    assert(has_val(self.gmap(), list@[l2] as int));
                    let k = choose|k: int|
                        0 <= k < self.gmap().len() && ((#[trigger] self.gmap()[k]).1 as int)
                            == list@[l2] as int;
                    assert(self.gmap()[k].0 == id);
                    assert(list_has(list@, self.gmap()[k].1 as int)) by {
                        assert((list@[l2] as int) == self.gmap()[k].1 as int);
                    }
                    assert(ids_of(self.gmap(), list@).contains(id));
                }
                if ids_of(self.gmap(), list@).contains(id) {
                    let k = choose|k: int|
                        0 <= k < self.gmap().len() && (#[trigger] self.gmap()[k]).0 == id
                            && list_has(list@, self.gmap()[k].1 as int);
                    let l2 = choose|l2: int|
                        0 <= l2 < list@.len() && ((#[trigger] list@[l2]) as int)
                            == self.gmap()[k].1 as int;
                    assert(r@[l2] == key_of(self.gmap(), list@[l2] as int));
                    assert(key_of(self.gmap(), self.gmap()[k].1 as int) == id);
                }
            }
        }
        r
    }

    /// Translates a list of live action positions into their ids.
    fn aids_vec(&self, list: &Vec<usize>) -> (r: Vec<u64>)
        requires
            self.wf(),
            forall|l: int| 0 <= l < list@.len() ==> self.alive((#[trigger] list@[l]) as int),
        ensures
            r@.len() == list@.len(),
            forall|id: u64| #[trigger] r@.contains(id) <==> ids_of(self.amap(), list@).contains(
                id,
            ),
    {
        proof {
            lemma_entries_bijective(self.amap());
        }
        let mut r: Vec<u64> = Vec::new();
        let mut l: usize = 0;
        while l < list.len()
            invariant
                self.wf(),
                forall|l2: int| 0 <= l2 < list@.len() ==> self.alive((#[trigger] list@[l2]) as int),
                l <= list@.len(),
                r@.len() == l,
                forall|l2: int|
                    0 <= l2 < l ==> #[trigger] r@[l2] == key_of(self.amap(), list@[l2] as int),
            decreases list@.len() - l,
        {
            let x = list[l];
            let id = self.action_key_at(x);
            r.push(id);
            proof {
                assert(r@[l as int] == key_of(self.amap(), list@[l as int] as int));
            }
            l = l + 1;
        }
        proof {
            assert forall|id: u64| #[trigger]
                r@.contains(id) <==> ids_of(self.amap(), list@).contains(id) by {
                if r@.contains(id) {
                    let l2 = choose|l2: int| 0 <= l2 < r@.len() && r@[l2] == id;
                    assert(self.alive(list@[l2] as int));
                    assert(has_val(self.amap(), list@[l2] as int));
                    let k = choose|k: int|
                        0 <= k < self.amap().len() && ((#[trigger] self.amap()[k]).1 as int)
                            == list@[l2] as int;
                    assert(self.amap()[k].0 == id);
                    assert(list_has(list@, self.amap()[k].1 as int)) by {
                        assert((list@[l2] as int) == self.amap()[k].1 as int);
                    }
                    assert(ids_of(self.amap(), list@).contains(id));
                }
                if ids_of(self.amap(), list@).contains(id) {
                    let k = choose|k: int|
                        0 <= k < self.amap().len() && (#[trigger] self.amap()[k]).0 == id
                            && list_has(list@, self.amap()[k].1 as int);
                    let l2 = choose|l2: int|
                        0 <= l2 < list@.len() && ((#[trigger] list@[l2]) as int)
                            == self.amap()[k].1 as int;
                    assert(r@[l2] == key_of(self.amap(), list@[l2] as int));
                    assert(key_of(self.amap(), self.amap()[k].1 as int) == id);
                }
            }
        }
        r
    }

    /// The ids of the grantees that `grantee_id` inherits from, one entry
    /// per stored edge.
    pub fn grantee_parent_ids(&self, grantee_id: u64) -> (r: Option<Vec<u64>>)
        requires
            self.wf(),
        ensures
            r is Some <==> self.model().has_grantee(grantee_id),
            r matches Some(v) ==> forall|id: u64| #[trigger]
                v@.contains(id) <==> self.model().grantees[grantee_id].parents.contains(id),
    {
        let gi = match self.lookup_grantee(grantee_id) {
            Some(gi) => gi,
            None => {
                return None;
            },
        };
        let list = copy_list(&self.grantees_arena.get(gi).grantee_of);
        proof {
            assert forall|l: int|
                0 <= l < list@.len() implies self.glive((#[trigger] list@[l]) as int) by {
                assert(self.gnode(gi as int).grantee_of@[l] == list@[l]);
            }
        }
        Some(self.gids_vec(&list))
    }

    /// The ids of the grantees that inherit from `grantee_id`, one entry
    /// per stored edge.  Every entry `x` satisfies exactly the mirrored
    /// relation: `grantee_id` is among the parents of `x`.
    #[verifier::rlimit(100)]
    pub fn grantee_child_ids(&self, grantee_id: u64) -> (r: Option<Vec<u64>>)
        requires
            self.wf(),
        ensures
            r is Some <==> self.model().has_grantee(grantee_id),
            r matches Some(v) ==> forall|id: u64| #[trigger]
                v@.contains(id) <==> self.model().has_grantee(id) && self.model().grantees[id]
                    .parents.contains(grantee_id),
    {
        let gi = match self.lookup_grantee(grantee_id) {
            Some(gi) => gi,
            None => {
                return None;
            },
        };
        let list = copy_list(&self.grantees_arena.get(gi).grantees);
        proof {
            assert forall|l: int|
                0 <= l < list@.len() implies self.glive((#[trigger] list@[l]) as int) by {
                assert(self.gnode(gi as int).grantees@[l] == list@[l]);
            }
        }
        let v = self.gids_vec(&list);
        proof {
            let es = self.gmap();
            lemma_entries_bijective(es);
            assert forall|id: u64| #[trigger]
                v@.contains(id) <==> self.model().has_grantee(id) && self.model().grantees[id]
                    .parents.contains(grantee_id) by {
                if v@.contains(id) {
                    assert(ids_of(es, self.gnode(gi as int).grantees@).contains(id));
                    let k = choose|k: int|
                        0 <= k < es.len() && (#[trigger] es[k]).0 == id && list_has(
                            self.gnode(gi as int).grantees@,
                            es[k].1 as int,
                        );
                    let x = es[k].1 as int;
                    let l = choose|l: int|
                        0 <= l < self.gnode(gi as int).grantees@.len() && (((#[trigger] self.gnode(
                            gi as int,
                        ).grantees@[l])) as int) == x;
                    assert(self.glive(x) && list_has(self.gnode(x).grantee_of@, gi as int));
                    assert(idx_of(es, id) == x);
                    assert(self.model().grantees[id].parents.contains(grantee_id)) by {
                        let kg = choose|kg: int|
                            0 <= kg < es.len() && ((#[trigger] es[kg]).1 as int) == gi as int;
                        assert(es[kg].0 == grantee_id);
                        assert(ids_of(es, self.gnode(x).grantee_of@).contains(grantee_id));
                    }
                }
                if self.model().has_grantee(id) && self.model().grantees[id].parents.contains(
                    grantee_id,
                ) {
                    let x = idx_of(es, id);
                    assert(has_key(es, id));
                    assert(self.glive(x));
                    let k = choose|k: int|
                        0 <= k < es.len() && (#[trigger] es[k]).0 == grantee_id && list_has(
                            self.gnode(x).grantee_of@,
                            es[k].1 as int,
                        );
                    assert((es[k].1 as int) == gi as int) by {
                        let k2 = choose|k2: int|
                            0 <= k2 < es.len() && (#[trigger] es[k2]).0 == grantee_id;
                        assert(k2 == k);
                    }
                    let l = choose|l: int|
                        0 <= l < self.gnode(x).grantee_of@.len() && (((#[trigger] self.gnode(
                            x,
                        ).grantee_of@[l])) as int) == gi as int;
                    assert(list_has(self.gnode(gi as int).grantees@, x));
                    assert(has_val(es, x));
                    let kx = choose|kx: int|
                        0 <= kx < es.len() && ((#[trigger] es[kx]).1 as int) == x;
                    assert(es[kx].0 == id);
                    assert(ids_of(es, self.gnode(gi as int).grantees@).contains(id));
                }
            }
        }
        Some(v)
    }

    /// The ids of the actions granted to `grantee_id` directly, one entry
    /// per stored edge.
    pub fn grantee_action_ids(&self, grantee_id: u64) -> (r: Option<Vec<u64>>)
        requires
            self.wf(),
        ensures
            r is Some <==> self.model().has_grantee(grantee_id),
            r matches Some(v) ==> forall|id: u64| #[trigger]
                v@.contains(id) <==> self.model().grantees[grantee_id].acts.contains(id),
    {
        let gi = match self.lookup_grantee(grantee_id) {
            Some(gi) => gi,
            None => {
                return None;
            },
        };
        let list = copy_list(&self.grantees_arena.get(gi).actions);
        proof {
            assert forall|l: int|
                0 <= l < list@.len() implies self.alive((#[trigger] list@[l]) as int) by {
                assert(self.gnode(gi as int).actions@[l] == list@[l]);
            }
        }
        Some(self.aids_vec(&list))
    }

    /// The ids of the grantees holding `action_id` directly, one entry per
    /// stored edge.  Every entry `x` satisfies exactly the mirrored
    /// relation: `action_id` is among the direct grants of `x`.
    #[verifier::rlimit(100)]
    pub fn action_holder_ids(&self, action_id: u64) -> (r: Option<Vec<u64>>)
        requires
            self.wf(),
        ensures
            r is Some <==> self.model().has_action(action_id),
            r matches Some(v) ==> forall|id: u64| #[trigger]
                v@.contains(id) <==> self.model().has_grantee(id) && self.model().grantees[id]
                    .acts.contains(action_id),
    {
        let ai = match self.lookup_action(action_id) {
            Some(ai) => ai,
            None => {
                return None;
            },
        };
        let list = copy_list(&self.actions_arena.get(ai).grantees);
        proof {
            assert forall|l: int|
                0 <= l < list@.len() implies self.glive((#[trigger] list@[l]) as int) by {
                assert(self.anode(ai as int).grantees@[l] == list@[l]);
            }
        }
        let v = self.gids_vec(&list);
        proof {
            let es = self.gmap();
            let aes = self.amap();
            lemma_entries_bijective(es);
            lemma_entries_bijective(aes);
            assert forall|id: u64| #[trigger]
                v@.contains(id) <==> self.model().has_grantee(id) && self.model().grantees[id]
                    .acts.contains(action_id) by {
                if v@.contains(id) {
                    assert(ids_of(es, self.anode(ai as int).grantees@).contains(id));
                    let k = choose|k: int|
                        0 <= k < es.len() && (#[trigger] es[k]).0 == id && list_has(
                            self.anode(ai as int).grantees@,
                            es[k].1 as int,
                        );
                    let x = es[k].1 as int;
                    let l = choose|l: int|
                        0 <= l < self.anode(ai as int).grantees@.len() && (((#[trigger] self.anode(
                            ai as int,
                        ).grantees@[l])) as int) == x;
                    assert(self.glive(x) && list_has(self.gnode(x).actions@, ai as int));
                    assert(idx_of(es, id) == x);
                    assert(self.model().grantees[id].acts.contains(action_id)) by {
                        let ka = choose|ka: int|
                            0 <= ka < aes.len() && ((#[trigger] aes[ka]).1 as int) == ai as int;
                        assert(aes[ka].0 == action_id);
                        assert(ids_of(aes, self.gnode(x).actions@).contains(action_id));
                    }
                }
                if self.model().has_grantee(id) && self.model().grantees[id].acts.contains(
                    action_id,
                ) {
                    let x = idx_of(es, id);
                    assert(has_key(es, id));
                    assert(self.glive(x));
                    let k = choose|k: int|
                        0 <= k < aes.len() && (#[trigger] aes[k]).0 == action_id && list_has(
                            self.gnode(x).actions@,
                            aes[k].1 as int,
                        );
                    assert((aes[k].1 as int) == ai as int) by {
                        let k2 = choose|k2: int|
                            0 <= k2 < aes.len() && (#[trigger] aes[k2]).0 == action_id;
                        assert(k2 == k);
                    }
                    let l = choose|l: int|
                        0 <= l < self.gnode(x).actions@.len() && (((#[trigger] self.gnode(
                            x,
                        ).actions@[l])) as int) == ai as int;
                    assert(list_has(self.anode(ai as int).grantees@, x));
                    assert(has_val(es, x));
                    let kx = choose|kx: int|
                        0 <= kx < es.len() && ((#[trigger] es[kx]).1 as int) == x;
                    assert(es[kx].0 == id);
                    assert(ids_of(es, self.anode(ai as int).grantees@).contains(id));
                }
            }
        }
        Some(v)
    }

    /// The ids of the super-actions of `action_id`, one entry per stored
    /// edge.
    pub fn action_super_ids(&self, action_id: u64) -> (r: Option<Vec<u64>>)
        requires
            self.wf(),
        ensures
            r is Some <==> self.model().has_action(action_id),
            r matches Some(v) ==> forall|id: u64| #[trigger]
                v@.contains(id) <==> self.model().actions[action_id].contains(id),
    {
        let ai = match self.lookup_action(action_id) {
            Some(ai) => ai,
            None => {
                return None;
            },
        };
        let list = copy_list(&self.actions_arena.get(ai).sub_action_of);
        proof {
            assert forall|l: int|
                0 <= l < list@.len() implies self.alive((#[trigger] list@[l]) as int) by {
                assert(self.anode(ai as int).sub_action_of@[l] == list@[l]);
            }
        }
        Some(self.aids_vec(&list))
    }

    /// The ids of the actions that `action_id` is a super-action of, one
    /// entry per stored edge.  Every entry `x` satisfies exactly the
    /// mirrored relation: `action_id` is among the super-actions of `x`.
    #[verifier::rlimit(100)]
    pub fn action_sub_ids(&self, action_id: u64) -> (r: Option<Vec<u64>>)
        requires
            self.wf(),
        ensures
            r is Some <==> self.model().has_action(action_id),
            r matches Some(v) ==> forall|id: u64| #[trigger]
                v@.contains(id) <==> self.model().has_action(id) && self.model().actions[id]
                    .contains(action_id),
    {
        let ai = match self.lookup_action(action_id) {
            Some(ai) => ai,
            None => {
                return None;
            },
        };
        let list = copy_list(&self.actions_arena.get(ai).main_action_of);
        proof {
            assert forall|l: int|
                0 <= l < list@.len() implies self.alive((#[trigger] list@[l]) as int) by {
                assert(self.anode(ai as int).main_action_of@[l] == list@[l]);
            }
        }
        let v = self.aids_vec(&list);
        proof {
            let aes = self.amap();
            lemma_entries_bijective(aes);
            assert forall|id: u64| #[trigger]
                v@.contains(id) <==> self.model().has_action(id) && self.model().actions[id]
                    .contains(action_id) by {
                if v@.contains(id) {
                    assert(ids_of(aes, self.anode(ai as int).main_action_of@).contains(id));
                    let k = choose|k: int|
                        0 <= k < aes.len() && (#[trigger] aes[k]).0 == id && list_has(
                            self.anode(ai as int).main_action_of@,
                            aes[k].1 as int,
                        );
                    let x = aes[k].1 as int;
                    let l = choose|l: int|
                        0 <= l < self.anode(ai as int).main_action_of@.len() && (((
                        #[trigger] self.anode(ai as int).main_action_of@[l])) as int) == x;
                    assert(self.alive(x) && list_has(self.anode(x).sub_action_of@, ai as int));
                    assert(idx_of(aes, id) == x);
                    assert(self.model().actions[id].contains(action_id)) by {
                        let ka = choose|ka: int|
                            0 <= ka < aes.len() && ((#[trigger] aes[ka]).1 as int) == ai as int;
                        assert(aes[ka].0 == action_id);
                        assert(ids_of(aes, self.anode(x).sub_action_of@).contains(action_id));
                    }
                }
                if self.model().has_action(id) && self.model().actions[id].contains(action_id) {
                    let x = idx_of(aes, id);
                    assert(has_key(aes, id));
                    assert(self.alive(x));
                    let k = choose|k: int|
                        0 <= k < aes.len() && (#[trigger] aes[k]).0 == action_id && list_has(
                            self.anode(x).sub_action_of@,
                            aes[k].1 as int,
                        );
                    assert((aes[k].1 as int) == ai as int) by {
                        let k2 = choose|k2: int|
                            0 <= k2 < aes.len() && (#[trigger] aes[k2]).0 == action_id;
                        assert(k2 == k);
                    }
                    let l = choose|l: int|
                        0 <= l < self.anode(x).sub_action_of@.len() && (((#[trigger] self.anode(
                            x,
                        ).sub_action_of@[l])) as int) == ai as int;
                    assert(list_has(self.anode(ai as int).main_action_of@, x));
                    assert(has_val(aes, x));
                    let kx = choose|kx: int|
                        0 <= kx < aes.len() && ((#[trigger] aes[kx]).1 as int) == x;
                    assert(aes[kx].0 == id);
                    assert(ids_of(aes, self.anode(ai as int).main_action_of@).contains(id));
                }
            }
        }
        Some(v)
    }

    /// Whether `grantee_id` is marked as a root, if it exists.
    pub fn grantee_is_root(&self, grantee_id: u64) -> (r: Option<bool>)
        requires
            self.wf(),
        ensures
            r is Some <==> self.model().has_grantee(grantee_id),
            r matches Some(b) ==> b == self.model().grantees[grantee_id].root,
    {
        let gi = match self.lookup_grantee(grantee_id) {
            Some(gi) => gi,
            None => {
                return None;
            },
        };
        Some(self.grantees_arena.get(gi).is_root)
    }

    /// Packs both arenas, eliminating every tombstone, and rewrites the
    /// entry tables and all edge lists through the reported moves.  The
    /// id-level graph is unchanged.
    fn defragment(&mut self)
        requires
            old(self).wf(),
        ensures
            final(self).wf(),
            final(self).model() == old(self).model(),
    {
        let ghost pre = *self;
        let gmoves = self.grantees_arena.compact();
        let amoves = self.actions_arena.compact();
        let ghost gm = gmoves@;
        let ghost am = amoves@;
        let ghost gl = self.gslots().len();
        let ghost al = self.aslots().len();
        proof {
            crate::remap::lemma_remap_positions(pre.gslots(), self.gslots(), gm);
            crate::remap::lemma_remap_positions(pre.aslots(), self.aslots(), am);
            assert forall|i: int|
                0 <= i < gl implies #[trigger] crate::remap::covered(gm, pre.gslots(), i) by {
                assert(self.gslots()[i] is Some);
            }
            assert forall|i: int|
                0 <= i < al implies #[trigger] crate::remap::covered(am, pre.aslots(), i) by {
                assert(self.aslots()[i] is Some);
            }
        }

        let ghost mid = *self;
        proof {
            lemma_entries_bijective(pre.gmap());
            lemma_entries_bijective(pre.amap());
            assert forall|j: int|
                #![trigger pre.gmap()[j]]
                0 <= j < pre.gmap().len() implies self.gnode(
                crate::remap::remap_spec(gm, pre.gmap()[j].1 as int),
            ) == pre.gnode(pre.gmap()[j].1 as int) by {
                let p = pre.gmap()[j].1 as int;
                assert(pre.glive(p));
                assert(pre.gslots()[p] is Some);
            }
            assert forall|j: int|
                #![trigger pre.amap()[j]]
                0 <= j < pre.amap().len() implies self.anode(
                crate::remap::remap_spec(am, pre.amap()[j].1 as int),
            ) == pre.anode(pre.amap()[j].1 as int) by {
                let p = pre.amap()[j].1 as int;
                assert(pre.alive(p));
                assert(pre.aslots()[p] is Some);
            }
        }

        // Rewrite the entry tables.
        let ng = self.grantees.len();
        let mut k: usize = 0;
        while k < ng
            invariant
                gm == gmoves@,
                am == amoves@,
                ng == self.gmap().len(),
                ng == pre.gmap().len(),
                k <= ng,
                self.grantees_arena == mid.grantees_arena,
                self.actions_arena == mid.actions_arena,
                self.amap() == pre.amap(),
                forall|j: int, k2: int|
                    #![trigger gm[j], gm[k2]]
                    0 <= j < k2 < gm.len() ==> gm[j].0 > gm[k2].0,
                forall|j: int|
                    0 <= j < k ==> (#[trigger] self.gmap()[j]).0 == pre.gmap()[j].0 && (
                    self.gmap()[j].1 as int) == crate::remap::remap_spec(
                        gm,
                        pre.gmap()[j].1 as int,
                    ),
                forall|j: int| k <= j < ng ==> #[trigger] self.gmap()[j] == pre.gmap()[j],
                forall|i: int| 0 <= i < gl ==> #[trigger] crate::remap::covered(
                    gm,
                    pre.gslots(),
                    i,
                ),
                forall|i: int| 0 <= i < al ==> #[trigger] crate::remap::covered(
                    am,
                    pre.aslots(),
                    i,
                ),
                forall|p1: int, p2: int|
                    #![trigger pre.gslots()[p1], pre.gslots()[p2]]
                    pre.glive(p1) && pre.glive(p2) && p1 != p2 ==> crate::remap::remap_spec(
                        gm,
                        p1,
                    ) != crate::remap::remap_spec(gm, p2),
                forall|p1: int, p2: int|
                    #![trigger pre.aslots()[p1], pre.aslots()[p2]]
                    pre.alive(p1) && pre.alive(p2) && p1 != p2 ==> crate::remap::remap_spec(
                        am,
                        p1,
                    ) != crate::remap::remap_spec(am, p2),
                forall|p: int|
                    pre.glive(p) ==> 0 <= crate::remap::remap_spec(gm, p) < gl
                        && #[trigger] self.gslots()[crate::remap::remap_spec(gm, p)] is Some,
                forall|p: int|
                    pre.alive(p) ==> 0 <= crate::remap::remap_spec(am, p) < al
                        && #[trigger] self.aslots()[crate::remap::remap_spec(am, p)] is Some,
                self.gslots().len() == gl,
                self.aslots().len() == al,
                forall|i: int| 0 <= i < gl ==> (#[trigger] self.gslots()[i]) is Some,
                forall|i: int| 0 <= i < al ==> (#[trigger] self.aslots()[i]) is Some,
                self.grantees_arena.wf(),
                self.actions_arena.wf(),
                pre.wf(),
                forall|j: int|
                    #![trigger pre.gmap()[j]]
                    0 <= j < ng ==> self.gnode(
                        crate::remap::remap_spec(gm, pre.gmap()[j].1 as int),
                    ) == pre.gnode(pre.gmap()[j].1 as int),
                forall|j: int|
                    #![trigger pre.amap()[j]]
                    0 <= j < pre.amap().len() ==> self.anode(
                        crate::remap::remap_spec(am, pre.amap()[j].1 as int),
                    ) == pre.anode(pre.amap()[j].1 as int),
            decreases ng - k,
        {
            proof {
                assert forall|j: int, j2: int|
                    #![trigger gmoves@[j], gmoves@[j2]]
                    0 <= j < j2 < gmoves@.len() implies gmoves@[j].0 != gmoves@[j2].0 by {
                    assert(gm[j].0 > gm[j2].0);
                }
            }
            let (id, idx) = self.grantees[k];
            proof {
                assert(self.gmap()[k as int] == pre.gmap()[k as int]);
            }
            let idx2 = crate::remap::remap_pos(&gmoves, idx);
            self.grantees.set(k, (id, idx2));
            proof {
                assert(self.gmap()[k as int] == (id, idx2));
                assert((id, idx) == pre.gmap()[k as int]);
            }
            k = k + 1;
        }
        let na = self.actions.len();
        let mut k2: usize = 0;
        while k2 < na
            invariant
                gm == gmoves@,
                am == amoves@,
                na == self.amap().len(),
                na == pre.amap().len(),
                k2 <= na,
                self.grantees_arena == mid.grantees_arena,
                self.actions_arena == mid.actions_arena,
                forall|j: int, j2: int|
                    #![trigger am[j], am[j2]]
                    0 <= j < j2 < am.len() ==> am[j].0 > am[j2].0,
                forall|j: int|
                    0 <= j < ng ==> (#[trigger] self.gmap()[j]).0 == pre.gmap()[j].0 && (
                    self.gmap()[j].1 as int) == crate::remap::remap_spec(
                        gm,
                        pre.gmap()[j].1 as int,
                    ),
                ng == self.gmap().len(),
                forall|j: int|
                    0 <= j < k2 ==> (#[trigger] self.amap()[j]).0 == pre.amap()[j].0 && (
                    self.amap()[j].1 as int) == crate::remap::remap_spec(
                        am,
                        pre.amap()[j].1 as int,
                    ),
                forall|j: int| k2 <= j < na ==> #[trigger] self.amap()[j] == pre.amap()[j],
                forall|i: int| 0 <= i < gl ==> #[trigger] crate::remap::covered(
                    gm,
                    pre.gslots(),
                    i,
                ),
                forall|i: int| 0 <= i < al ==> #[trigger] crate::remap::covered(
                    am,
                    pre.aslots(),
                    i,
                ),
                forall|j: int, k3: int|
                    #![trigger gm[j], gm[k3]]
                    0 <= j < k3 < gm.len() ==> gm[j].0 > gm[k3].0,
                forall|p1: int, p2: int|
                    #![trigger pre.gslots()[p1], pre.gslots()[p2]]
                    pre.glive(p1) && pre.glive(p2) && p1 != p2 ==> crate::remap::remap_spec(
                        gm,
                        p1,
                    ) != crate::remap::remap_spec(gm, p2),
                forall|p1: int, p2: int|
                    #![trigger pre.aslots()[p1], pre.aslots()[p2]]
                    pre.alive(p1) && pre.alive(p2) && p1 != p2 ==> crate::remap::remap_spec(
                        am,
                        p1,
                    ) != crate::remap::remap_spec(am, p2),
                forall|p: int|
                    pre.glive(p) ==> 0 <= crate::remap::remap_spec(gm, p) < gl
                        && #[trigger] self.gslots()[crate::remap::remap_spec(gm, p)] is Some,
                forall|p: int|
                    pre.alive(p) ==> 0 <= crate::remap::remap_spec(am, p) < al
                        && #[trigger] self.aslots()[crate::remap::remap_spec(am, p)] is Some,
                self.gslots().len() == gl,
                self.aslots().len() == al,
                forall|i: int| 0 <= i < gl ==> (#[trigger] self.gslots()[i]) is Some,
                forall|i: int| 0 <= i < al ==> (#[trigger] self.aslots()[i]) is Some,
                pre.wf(),
                self.grantees_arena.wf(),
                self.actions_arena.wf(),
                forall|j: int|
                    #![trigger pre.gmap()[j]]
                    0 <= j < ng ==> self.gnode(
                        crate::remap::remap_spec(gm, pre.gmap()[j].1 as int),
                    ) == pre.gnode(pre.gmap()[j].1 as int),
                forall|j: int|
                    #![trigger pre.amap()[j]]
                    0 <= j < na ==> self.anode(
                        crate::remap::remap_spec(am, pre.amap()[j].1 as int),
                    ) == pre.anode(pre.amap()[j].1 as int),
            decreases na - k2,
        {
            proof {
                assert forall|j: int, j2: int|
                    #![trigger amoves@[j], amoves@[j2]]
                    0 <= j < j2 < amoves@.len() implies amoves@[j].0 != amoves@[j2].0 by {
                    assert(am[j].0 > am[j2].0);
                }
            }
            let (id, idx) = self.actions[k2];
            proof {
                assert(self.amap()[k2 as int] == pre.amap()[k2 as int]);
            }
            let idx2 = crate::remap::remap_pos(&amoves, idx);
            self.actions.set(k2, (id, idx2));
            proof {
                assert(self.amap()[k2 as int] == (id, idx2));
                assert((id, idx) == pre.amap()[k2 as int]);
            }
            k2 = k2 + 1;
        }

        // Rewrite the edge lists of every grantee node, which now sits at
        // its remapped position and still holds its old lists.
        let mut k3: usize = 0;
        while k3 < ng
            invariant
                gm == gmoves@,
                am == amoves@,
                ng == self.gmap().len(),
                ng == pre.gmap().len(),
                na == self.amap().len(),
                na == pre.amap().len(),
                k3 <= ng,
                pre.wf(),
                self.actions_arena == mid.actions_arena,
                self.grantees_arena.wf(),
                self.gslots().len() == gl,
                forall|i: int| 0 <= i < gl ==> (#[trigger] self.gslots()[i]) is Some,
                forall|j: int, j2: int|
                    #![trigger gm[j], gm[j2]]
                    0 <= j < j2 < gm.len() ==> gm[j].0 > gm[j2].0,
                forall|j: int|
                    0 <= j < ng ==> (#[trigger] self.gmap()[j]).0 == pre.gmap()[j].0 && (
                    self.gmap()[j].1 as int) == crate::remap::remap_spec(
                        gm,
                        pre.gmap()[j].1 as int,
                    ),
                forall|j: int|
                    0 <= j < na ==> (#[trigger] self.amap()[j]).0 == pre.amap()[j].0 && (
                    self.amap()[j].1 as int) == crate::remap::remap_spec(
                        am,
                        pre.amap()[j].1 as int,
                    ),
                forall|p1: int, p2: int|
                    #![trigger pre.gslots()[p1], pre.gslots()[p2]]
                    pre.glive(p1) && pre.glive(p2) && p1 != p2 ==> crate::remap::remap_spec(
                        gm,
                        p1,
                    ) != crate::remap::remap_spec(gm, p2),
                forall|p: int|
                    pre.glive(p) ==> 0 <= crate::remap::remap_spec(gm, p) < gl
                        && #[trigger] self.gslots()[crate::remap::remap_spec(gm, p)] is Some,
                forall|j: int|
                    #![trigger pre.gmap()[j]]
                    0 <= j < k3 ==> {
                        let p = pre.gmap()[j].1 as int;
                        let q = crate::remap::remap_spec(gm, p);
                        &&& self.gnode(q).is_root == pre.gnode(p).is_root
                        &&& self.gnode(q).grantee_of@.len() == pre.gnode(p).grantee_of@.len()
                        &&& self.gnode(q).grantees@.len() == pre.gnode(p).grantees@.len()
                        &&& self.gnode(q).actions@.len() == pre.gnode(p).actions@.len()
                        &&& forall|l: int|
                            0 <= l < pre.gnode(p).grantee_of@.len() ==> ((#[trigger] self.gnode(
                                q,
                            ).grantee_of@[l]) as int) == crate::remap::remap_spec(
                                gm,
                                pre.gnode(p).grantee_of@[l] as int,
                            )
                        &&& forall|l: int|
                            0 <= l < pre.gnode(p).grantees@.len() ==> ((#[trigger] self.gnode(
                                q,
                            ).grantees@[l]) as int) == crate::remap::remap_spec(
                                gm,
                                pre.gnode(p).grantees@[l] as int,
                            )
                        &&& forall|l: int|
                            0 <= l < pre.gnode(p).actions@.len() ==> ((#[trigger] self.gnode(
                                q,
                            ).actions@[l]) as int) == crate::remap::remap_spec(
                                am,
                                pre.gnode(p).actions@[l] as int,
                            )
                    },
                forall|j: int|
                    #![trigger pre.gmap()[j]]
                    k3 <= j < ng ==> self.gnode(
                        crate::remap::remap_spec(gm, pre.gmap()[j].1 as int),
                    ) == pre.gnode(pre.gmap()[j].1 as int),
                forall|i: int| 0 <= i < gl ==> #[trigger] crate::remap::covered(
                    gm,
                    pre.gslots(),
                    i,
                ),
                forall|i: int| 0 <= i < al ==> #[trigger] crate::remap::covered(
                    am,
                    pre.aslots(),
                    i,
                ),
                forall|j: int, j2: int|
                    #![trigger am[j], am[j2]]
                    0 <= j < j2 < am.len() ==> am[j].0 > am[j2].0,
                forall|p1: int, p2: int|
                    #![trigger pre.aslots()[p1], pre.aslots()[p2]]
                    pre.alive(p1) && pre.alive(p2) && p1 != p2 ==> crate::remap::remap_spec(
                        am,
                        p1,
                    ) != crate::remap::remap_spec(am, p2),
                forall|p: int|
                    pre.alive(p) ==> 0 <= crate::remap::remap_spec(am, p) < al
                        && #[trigger] self.aslots()[crate::remap::remap_spec(am, p)] is Some,
                self.aslots().len() == al,
                forall|i: int| 0 <= i < al ==> (#[trigger] self.aslots()[i]) is Some,
            decreases ng - k3,
        {
            let idx = self.grantees[k3].1;
            proof {
                assert(pre.glive(pre.gmap()[k3 as int].1 as int));
                assert((idx as int) == crate::remap::remap_spec(
                    gm,
                    pre.gmap()[k3 as int].1 as int,
                ));
            }
            proof {
                assert forall|j: int, j2: int|
                    #![trigger gmoves@[j], gmoves@[j2]]
                    0 <= j < j2 < gmoves@.len() implies gmoves@[j].0 != gmoves@[j2].0 by {
                    assert(gm[j].0 > gm[j2].0);
                }
                assert forall|j: int, j2: int|
                    #![trigger amoves@[j], amoves@[j2]]
                    0 <= j < j2 < amoves@.len() implies amoves@[j].0 != amoves@[j2].0 by {
                    assert(am[j].0 > am[j2].0);
                }
            }
            let ghost snap = *self;
            let node = self.grantees_arena.get_mut(idx);
            let new_go = crate::remap::remap_list(&node.grantee_of, &gmoves);
            let new_gs = crate::remap::remap_list(&node.grantees, &gmoves);
            let new_ac = crate::remap::remap_list(&node.actions, &amoves);
            node.grantee_of = new_go;
            node.grantees = new_gs;
            node.actions = new_ac;
            proof {
                let p0 = pre.gmap()[k3 as int].1 as int;
                let q0 = crate::remap::remap_spec(gm, p0);
                assert forall|i: int|
                    0 <= i < gl && i != q0 implies #[trigger] self.gslots()[i]
                    == snap.gslots()[i] by {}
                assert(self.gslots()[q0] is Some);
                assert forall|j: int|
                    #![trigger pre.gmap()[j]]
                    0 <= j < k3 + 1 implies {
                    let p = pre.gmap()[j].1 as int;
                    let q = crate::remap::remap_spec(gm, p);
                    &&& self.gnode(q).is_root == pre.gnode(p).is_root
                    &&& self.gnode(q).grantee_of@.len() == pre.gnode(p).grantee_of@.len()
                    &&& self.gnode(q).grantees@.len() == pre.gnode(p).grantees@.len()
                    &&& self.gnode(q).actions@.len() == pre.gnode(p).actions@.len()
                    &&& forall|l: int|
                        0 <= l < pre.gnode(p).grantee_of@.len() ==> ((#[trigger] self.gnode(
                            q,
                        ).grantee_of@[l]) as int) == crate::remap::remap_spec(
                            gm,
                            pre.gnode(p).grantee_of@[l] as int,
                        )
                    &&& forall|l: int|
                        0 <= l < pre.gnode(p).grantees@.len() ==> ((#[trigger] self.gnode(
                            q,
                        ).grantees@[l]) as int) == crate::remap::remap_spec(
                            gm,
                            pre.gnode(p).grantees@[l] as int,
                        )
                    &&& forall|l: int|
                        0 <= l < pre.gnode(p).actions@.len() ==> ((#[trigger] self.gnode(
                            q,
                        ).actions@[l]) as int) == crate::remap::remap_spec(
                            am,
                            pre.gnode(p).actions@[l] as int,
                        )
                } by {
                    let p = pre.gmap()[j].1 as int;
                    let q = crate::remap::remap_spec(gm, p);
                    assert(pre.glive(p));
                    if j < k3 {
                        assert(q != q0) by {
                            if p != p0 {
                                assert(pre.gslots()[p] is Some && pre.gslots()[p0] is Some);
                            } else {
                                assert(pre.gmap()[j].1 == pre.gmap()[k3 as int].1);
                                assert(false);
                            }
                        }
                        assert(self.gslots()[q] == snap.gslots()[q]);
                    } else {
                        assert(q == q0);
                    }
                }
                assert forall|j: int|
                    #![trigger pre.gmap()[j]]
                    k3 + 1 <= j < ng implies self.gnode(
                    crate::remap::remap_spec(gm, pre.gmap()[j].1 as int),
                ) == pre.gnode(pre.gmap()[j].1 as int) by {
                    let p = pre.gmap()[j].1 as int;
                    let q = crate::remap::remap_spec(gm, p);
                    assert(pre.glive(p));
                    assert(q != q0) by {
                        if p != p0 {
                            assert(pre.gslots()[p] is Some && pre.gslots()[p0] is Some);
                        } else {
                            assert(pre.gmap()[j].1 == pre.gmap()[k3 as int].1);
                            assert(false);
                        }
                    }
                    assert(self.gslots()[q] == snap.gslots()[q]);
                }
            }
            k3 = k3 + 1;
        }

        // Rewrite the edge lists of every action node.
        let mut k4: usize = 0;
        while k4 < na
            invariant
                gm == gmoves@,
                am == amoves@,
                forall|j: int, j2: int|
                    #![trigger gm[j], gm[j2]]
                    0 <= j < j2 < gm.len() ==> gm[j].0 > gm[j2].0,
                ng == self.gmap().len(),
                ng == pre.gmap().len(),
                na == self.amap().len(),
                na == pre.amap().len(),
                k4 <= na,
                pre.wf(),
                self.grantees_arena.wf(),
                self.actions_arena.wf(),
                self.gslots().len() == gl,
                self.aslots().len() == al,
                forall|i: int| 0 <= i < gl ==> (#[trigger] self.gslots()[i]) is Some,
                forall|i: int| 0 <= i < al ==> (#[trigger] self.aslots()[i]) is Some,
                forall|j: int, j2: int|
                    #![trigger am[j], am[j2]]
                    0 <= j < j2 < am.len() ==> am[j].0 > am[j2].0,
                forall|j: int|
                    0 <= j < ng ==> (#[trigger] self.gmap()[j]).0 == pre.gmap()[j].0 && (
                    self.gmap()[j].1 as int) == crate::remap::remap_spec(
                        gm,
                        pre.gmap()[j].1 as int,
                    ),
                forall|j: int|
                    0 <= j < na ==> (#[trigger] self.amap()[j]).0 == pre.amap()[j].0 && (
                    self.amap()[j].1 as int) == crate::remap::remap_spec(
                        am,
                        pre.amap()[j].1 as int,
                    ),
                forall|p1: int, p2: int|
                    #![trigger pre.aslots()[p1], pre.aslots()[p2]]
                    pre.alive(p1) && pre.alive(p2) && p1 != p2 ==> crate::remap::remap_spec(
                        am,
                        p1,
                    ) != crate::remap::remap_spec(am, p2),
                forall|p: int|
                    pre.alive(p) ==> 0 <= crate::remap::remap_spec(am, p) < al
                        && #[trigger] self.aslots()[crate::remap::remap_spec(am, p)] is Some,
                forall|j: int|
                    #![trigger pre.gmap()[j]]
                    0 <= j < ng ==> {
                        let p = pre.gmap()[j].1 as int;
                        let q = crate::remap::remap_spec(gm, p);
                        &&& self.gnode(q).is_root == pre.gnode(p).is_root
                        &&& self.gnode(q).grantee_of@.len() == pre.gnode(p).grantee_of@.len()
                        &&& self.gnode(q).grantees@.len() == pre.gnode(p).grantees@.len()
                        &&& self.gnode(q).actions@.len() == pre.gnode(p).actions@.len()
                        &&& forall|l: int|
                            0 <= l < pre.gnode(p).grantee_of@.len() ==> ((#[trigger] self.gnode(
                                q,
                            ).grantee_of@[l]) as int) == crate::remap::remap_spec(
                                gm,
                                pre.gnode(p).grantee_of@[l] as int,
                            )
                        &&& forall|l: int|
                            0 <= l < pre.gnode(p).grantees@.len() ==> ((#[trigger] self.gnode(
                                q,
                            ).grantees@[l]) as int) == crate::remap::remap_spec(
                                gm,
                                pre.gnode(p).grantees@[l] as int,
                            )
                        &&& forall|l: int|
                            0 <= l < pre.gnode(p).actions@.len() ==> ((#[trigger] self.gnode(
                                q,
                            ).actions@[l]) as int) == crate::remap::remap_spec(
                                am,
                                pre.gnode(p).actions@[l] as int,
                            )
                    },
                forall|j: int|
                    #![trigger pre.amap()[j]]
                    0 <= j < k4 ==> {
                        let p = pre.amap()[j].1 as int;
                        let q = crate::remap::remap_spec(am, p);
                        &&& self.anode(q).grantees@.len() == pre.anode(p).grantees@.len()
                        &&& self.anode(q).main_action_of@.len() == pre.anode(
                            p,
                        ).main_action_of@.len()
                        &&& self.anode(q).sub_action_of@.len() == pre.anode(
                            p,
                        ).sub_action_of@.len()
                        &&& forall|l: int|
                            0 <= l < pre.anode(p).grantees@.len() ==> ((#[trigger] self.anode(
                                q,
                            ).grantees@[l]) as int) == crate::remap::remap_spec(
                                gm,
                                pre.anode(p).grantees@[l] as int,
                            )
                        &&& forall|l: int|
                            0 <= l < pre.anode(p).main_action_of@.len() ==> ((
                            #[trigger] self.anode(q).main_action_of@[l]) as int)
                                == crate::remap::remap_spec(
                                am,
                                pre.anode(p).main_action_of@[l] as int,
                            )
                        &&& forall|l: int|
                            0 <= l < pre.anode(p).sub_action_of@.len() ==> ((
                            #[trigger] self.anode(q).sub_action_of@[l]) as int)
                                == crate::remap::remap_spec(
                                am,
                                pre.anode(p).sub_action_of@[l] as int,
                            )
                    },
                forall|j: int|
                    #![trigger pre.amap()[j]]
                    k4 <= j < na ==> self.anode(
                        crate::remap::remap_spec(am, pre.amap()[j].1 as int),
                    ) == pre.anode(pre.amap()[j].1 as int),
                forall|i: int| 0 <= i < gl ==> #[trigger] crate::remap::covered(
                    gm,
                    pre.gslots(),
                    i,
                ),
                forall|i: int| 0 <= i < al ==> #[trigger] crate::remap::covered(
                    am,
                    pre.aslots(),
                    i,
                ),
                forall|p1: int, p2: int|
                    #![trigger pre.gslots()[p1], pre.gslots()[p2]]
                    pre.glive(p1) && pre.glive(p2) && p1 != p2 ==> crate::remap::remap_spec(
                        gm,
                        p1,
                    ) != crate::remap::remap_spec(gm, p2),
                forall|p: int|
                    pre.glive(p) ==> 0 <= crate::remap::remap_spec(gm, p) < gl
                        && #[trigger] self.gslots()[crate::remap::remap_spec(gm, p)] is Some,
            decreases na - k4,
        {
            let idx = self.actions[k4].1;
            proof {
                assert(pre.alive(pre.amap()[k4 as int].1 as int));
                assert((idx as int) == crate::remap::remap_spec(
                    am,
                    pre.amap()[k4 as int].1 as int,
                ));
            }
            proof {
                assert forall|j: int, j2: int|
                    #![trigger gmoves@[j], gmoves@[j2]]
                    0 <= j < j2 < gmoves@.len() implies gmoves@[j].0 != gmoves@[j2].0 by {
                    assert(gm[j].0 > gm[j2].0);
                }
                assert forall|j: int, j2: int|
                    #![trigger amoves@[j], amoves@[j2]]
                    0 <= j < j2 < amoves@.len() implies amoves@[j].0 != amoves@[j2].0 by {
                    assert(am[j].0 > am[j2].0);
                }
            }
            let ghost snap = *self;
            let node = self.actions_arena.get_mut(idx);
            let new_gr = crate::remap::remap_list(&node.grantees, &gmoves);
            let new_ma = crate::remap::remap_list(&node.main_action_of, &amoves);
            let new_sa = crate::remap::remap_list(&node.sub_action_of, &amoves);
            node.grantees = new_gr;
            node.main_action_of = new_ma;
            node.sub_action_of = new_sa;
            proof {
                let p0 = pre.amap()[k4 as int].1 as int;
                let q0 = crate::remap::remap_spec(am, p0);
                assert forall|i: int|
                    0 <= i < al && i != q0 implies #[trigger] self.aslots()[i]
                    == snap.aslots()[i] by {}
                assert(self.aslots()[q0] is Some);
                assert(self.gslots() == snap.gslots());
                assert forall|j: int|
                    #![trigger pre.gmap()[j]]
                    0 <= j < ng implies self.gnode(
                    crate::remap::remap_spec(gm, pre.gmap()[j].1 as int),
                ) == snap.gnode(crate::remap::remap_spec(gm, pre.gmap()[j].1 as int)) by {}
                assert forall|j: int|
                    #![trigger pre.amap()[j]]
                    0 <= j < k4 + 1 implies {
                    let p = pre.amap()[j].1 as int;
                    let q = crate::remap::remap_spec(am, p);
                    &&& self.anode(q).grantees@.len() == pre.anode(p).grantees@.len()
                    &&& self.anode(q).main_action_of@.len() == pre.anode(p).main_action_of@.len()
                    &&& self.anode(q).sub_action_of@.len() == pre.anode(p).sub_action_of@.len()
                    &&& forall|l: int|
                        0 <= l < pre.anode(p).grantees@.len() ==> ((#[trigger] self.anode(
                            q,
                        ).grantees@[l]) as int) == crate::remap::remap_spec(
                            gm,
                            pre.anode(p).grantees@[l] as int,
                        )
                    &&& forall|l: int|
                        0 <= l < pre.anode(p).main_action_of@.len() ==> ((#[trigger] self.anode(
                            q,
                        ).main_action_of@[l]) as int) == crate::remap::remap_spec(
                            am,
                            pre.anode(p).main_action_of@[l] as int,
                        )
                    &&& forall|l: int|
                        0 <= l < pre.anode(p).sub_action_of@.len() ==> ((#[trigger] self.anode(
                            q,
                        ).sub_action_of@[l]) as int) == crate::remap::remap_spec(
                            am,
                            pre.anode(p).sub_action_of@[l] as int,
                        )
                } by {
                    let p = pre.amap()[j].1 as int;
                    let q = crate::remap::remap_spec(am, p);
                    assert(pre.alive(p));
                    if j < k4 {
                        assert(q != q0) by {
                            if p != p0 {
                                assert(pre.aslots()[p] is Some && pre.aslots()[p0] is Some);
                            } else {
                                assert(pre.amap()[j].1 == pre.amap()[k4 as int].1);
                                assert(false);
                            }
                        }
                        assert(self.aslots()[q] == snap.aslots()[q]);
                    } else {
                        assert(q == q0);
                    }
                }
                assert forall|j: int|
                    #![trigger pre.amap()[j]]
                    k4 + 1 <= j < na implies self.anode(
                    crate::remap::remap_spec(am, pre.amap()[j].1 as int),
                ) == pre.anode(pre.amap()[j].1 as int) by {
                    let p = pre.amap()[j].1 as int;
                    let q = crate::remap::remap_spec(am, p);
                    assert(pre.alive(p));
                    assert(q != q0) by {
                        if p != p0 {
                            assert(pre.aslots()[p] is Some && pre.aslots()[p0] is Some);
                        } else {
                            assert(pre.amap()[j].1 == pre.amap()[k4 as int].1);
                            assert(false);
                        }
                    }
                    assert(self.aslots()[q] == snap.aslots()[q]);
                }
            }
            k4 = k4 + 1;
        }

        proof {
            self.lemma_after_defragment(pre, gm, am);
        }
    }

    /// The state right after defragmentation: every entry and every edge
    /// list has been rewritten through the two compaction reports, and the
    /// packed arenas have no tombstones left.
    spec fn defrag_state(&self, pre: CanDo, gm: Seq<(usize, usize)>, am: Seq<(usize, usize)>) -> bool {
        &&& pre.wf()
        &&& self.gmap().len() == pre.gmap().len()
        &&& self.amap().len() == pre.amap().len()
        &&& forall|j: int|
            0 <= j < pre.gmap().len() ==> (#[trigger] self.gmap()[j]).0 == pre.gmap()[j].0 && (
            self.gmap()[j].1 as int) == crate::remap::remap_spec(gm, pre.gmap()[j].1 as int)
        &&& forall|j: int|
            0 <= j < pre.amap().len() ==> (#[trigger] self.amap()[j]).0 == pre.amap()[j].0 && (
            self.amap()[j].1 as int) == crate::remap::remap_spec(am, pre.amap()[j].1 as int)
        &&& self.grantees_arena.wf()
        &&& self.actions_arena.wf()
        &&& forall|i: int|
            0 <= i < self.gslots().len() ==> (#[trigger] self.gslots()[i]) is Some
        &&& forall|i: int|
            0 <= i < self.aslots().len() ==> (#[trigger] self.aslots()[i]) is Some
        &&& forall|p1: int, p2: int|
            #![trigger pre.gslots()[p1], pre.gslots()[p2]]
            pre.glive(p1) && pre.glive(p2) && p1 != p2 ==> crate::remap::remap_spec(gm, p1)
                != crate::remap::remap_spec(gm, p2)
        &&& forall|p1: int, p2: int|
            #![trigger pre.aslots()[p1], pre.aslots()[p2]]
            pre.alive(p1) && pre.alive(p2) && p1 != p2 ==> crate::remap::remap_spec(am, p1)
                != crate::remap::remap_spec(am, p2)
        &&& forall|p: int|
            pre.glive(p) ==> 0 <= crate::remap::remap_spec(gm, p) < self.gslots().len()
        &&& forall|p: int|
            pre.alive(p) ==> 0 <= crate::remap::remap_spec(am, p) < self.aslots().len()
        &&& forall|i: int|
            0 <= i < self.gslots().len() ==> #[trigger] crate::remap::covered(
                gm,
                pre.gslots(),
                i,
            )
        &&& forall|i: int|
            0 <= i < self.aslots().len() ==> #[trigger] crate::remap::covered(
                am,
                pre.aslots(),
                i,
            )
        &&& forall|j: int|
            #![trigger pre.gmap()[j]]
            0 <= j < pre.gmap().len() ==> {
                let p = pre.gmap()[j].1 as int;
                let q = crate::remap::remap_spec(gm, p);
                &&& self.gnode(q).is_root == pre.gnode(p).is_root
                &&& self.gnode(q).grantee_of@.len() == pre.gnode(p).grantee_of@.len()
                &&& self.gnode(q).grantees@.len() == pre.gnode(p).grantees@.len()
                &&& self.gnode(q).actions@.len() == pre.gnode(p).actions@.len()
                &&& forall|l: int|
                    0 <= l < pre.gnode(p).grantee_of@.len() ==> ((#[trigger] self.gnode(
                        q,
                    ).grantee_of@[l]) as int) == crate::remap::remap_spec(
                        gm,
                        pre.gnode(p).grantee_of@[l] as int,
                    )
                &&& forall|l: int|
                    0 <= l < pre.gnode(p).grantees@.len() ==> ((#[trigger] self.gnode(
                        q,
                    ).grantees@[l]) as int) == crate::remap::remap_spec(
                        gm,
                        pre.gnode(p).grantees@[l] as int,
                    )
                &&& forall|l: int|
                    0 <= l < pre.gnode(p).actions@.len() ==> ((#[trigger] self.gnode(
                        q,
                    ).actions@[l]) as int) == crate::remap::remap_spec(
                        am,
                        pre.gnode(p).actions@[l] as int,
                    )
            }
        &&& forall|j: int|
            #![trigger pre.amap()[j]]
            0 <= j < pre.amap().len() ==> {
                let p = pre.amap()[j].1 as int;
                let q = crate::remap::remap_spec(am, p);
                &&& self.anode(q).grantees@.len() == pre.anode(p).grantees@.len()
                &&& self.anode(q).main_action_of@.len() == pre.anode(p).main_action_of@.len()
                &&& self.anode(q).sub_action_of@.len() == pre.anode(p).sub_action_of@.len()
                &&& forall|l: int|
                    0 <= l < pre.anode(p).grantees@.len() ==> ((#[trigger] self.anode(
                        q,
                    ).grantees@[l]) as int) == crate::remap::remap_spec(
                        gm,
                        pre.anode(p).grantees@[l] as int,
                    )
                &&& forall|l: int|
                    0 <= l < pre.anode(p).main_action_of@.len() ==> ((#[trigger] self.anode(
                        q,
                    ).main_action_of@[l]) as int) == crate::remap::remap_spec(
                        am,
                        pre.anode(p).main_action_of@[l] as int,
                    )
                &&& forall|l: int|
                    0 <= l < pre.anode(p).sub_action_of@.len() ==> ((#[trigger] self.anode(
                        q,
                    ).sub_action_of@[l]) as int) == crate::remap::remap_spec(
                        am,
                        pre.anode(p).sub_action_of@[l] as int,
                    )
            }
    }

    /// Bridges the entry-indexed rewrite facts to position-indexed ones.
    proof fn lemma_defrag_nodes(&self, pre: CanDo, gm: Seq<(usize, usize)>, am: Seq<(usize, usize)>)
        requires
            self.defrag_state(pre, gm, am),
        ensures
            forall|p: int|
                #![trigger pre.gslots()[p]]
                pre.glive(p) ==> {
                    let q = crate::remap::remap_spec(gm, p);
                    &&& self.gnode(q).is_root == pre.gnode(p).is_root
                    &&& self.gnode(q).grantee_of@.len() == pre.gnode(p).grantee_of@.len()
                    &&& self.gnode(q).grantees@.len() == pre.gnode(p).grantees@.len()
                    &&& self.gnode(q).actions@.len() == pre.gnode(p).actions@.len()
                    &&& forall|l: int|
                        0 <= l < pre.gnode(p).grantee_of@.len() ==> ((#[trigger] self.gnode(
                            q,
                        ).grantee_of@[l]) as int) == crate::remap::remap_spec(
                            gm,
                            pre.gnode(p).grantee_of@[l] as int,
                        )
                    &&& forall|l: int|
                        0 <= l < pre.gnode(p).grantees@.len() ==> ((#[trigger] self.gnode(
                            q,
                        ).grantees@[l]) as int) == crate::remap::remap_spec(
                            gm,
                            pre.gnode(p).grantees@[l] as int,
                        )
                    &&& forall|l: int|
                        0 <= l < pre.gnode(p).actions@.len() ==> ((#[trigger] self.gnode(
                            q,
                        ).actions@[l]) as int) == crate::remap::remap_spec(
                            am,
                            pre.gnode(p).actions@[l] as int,
                        )
                },
            forall|p: int|
                #![trigger pre.aslots()[p]]
                pre.alive(p) ==> {
                    let q = crate::remap::remap_spec(am, p);
                    &&& self.anode(q).grantees@.len() == pre.anode(p).grantees@.len()
                    &&& self.anode(q).main_action_of@.len() == pre.anode(p).main_action_of@.len()
                    &&& self.anode(q).sub_action_of@.len() == pre.anode(p).sub_action_of@.len()
                    &&& forall|l: int|
                        0 <= l < pre.anode(p).grantees@.len() ==> ((#[trigger] self.anode(
                            q,
                        ).grantees@[l]) as int) == crate::remap::remap_spec(
                            gm,
                            pre.anode(p).grantees@[l] as int,
                        )
                    &&& forall|l: int|
                        0 <= l < pre.anode(p).main_action_of@.len() ==> ((#[trigger] self.anode(
                            q,
                        ).main_action_of@[l]) as int) == crate::remap::remap_spec(
                            am,
                            pre.anode(p).main_action_of@[l] as int,
                        )
                    &&& forall|l: int|
                        0 <= l < pre.anode(p).sub_action_of@.len() ==> ((#[trigger] self.anode(
                            q,
                        ).sub_action_of@[l]) as int) == crate::remap::remap_spec(
                            am,
                            pre.anode(p).sub_action_of@[l] as int,
                        )
                },
    {
        assert forall|p: int|
            #![trigger pre.gslots()[p]]
            pre.glive(p) implies {
            let q = crate::remap::remap_spec(gm, p);
            &&& self.gnode(q).is_root == pre.gnode(p).is_root
            &&& self.gnode(q).grantee_of@.len() == pre.gnode(p).grantee_of@.len()
            &&& self.gnode(q).grantees@.len() == pre.gnode(p).grantees@.len()
            &&& self.gnode(q).actions@.len() == pre.gnode(p).actions@.len()
            &&& forall|l: int|
                0 <= l < pre.gnode(p).grantee_of@.len() ==> ((#[trigger] self.gnode(
                    q,
                ).grantee_of@[l]) as int) == crate::remap::remap_spec(
                    gm,
                    pre.gnode(p).grantee_of@[l] as int,
                )
            &&& forall|l: int|
                0 <= l < pre.gnode(p).grantees@.len() ==> ((#[trigger] self.gnode(
                    q,
                ).grantees@[l]) as int) == crate::remap::remap_spec(
                    gm,
                    pre.gnode(p).grantees@[l] as int,
                )
            &&& forall|l: int|
                0 <= l < pre.gnode(p).actions@.len() ==> ((#[trigger] self.gnode(
                    q,
                ).actions@[l]) as int) == crate::remap::remap_spec(
                    am,
                    pre.gnode(p).actions@[l] as int,
                )
        } by {
            assert(has_val(pre.gmap(), p));
            let j = choose|j: int|
                0 <= j < pre.gmap().len() && ((#[trigger] pre.gmap()[j]).1 as int) == p;
            assert(0 <= j < pre.gmap().len());
        }
        assert forall|p: int|
            #![trigger pre.aslots()[p]]
            pre.alive(p) implies {
            let q = crate::remap::remap_spec(am, p);
            &&& self.anode(q).grantees@.len() == pre.anode(p).grantees@.len()
            &&& self.anode(q).main_action_of@.len() == pre.anode(p).main_action_of@.len()
            &&& self.anode(q).sub_action_of@.len() == pre.anode(p).sub_action_of@.len()
            &&& forall|l: int|
                0 <= l < pre.anode(p).grantees@.len() ==> ((#[trigger] self.anode(
                    q,
                ).grantees@[l]) as int) == crate::remap::remap_spec(
                    gm,
                    pre.anode(p).grantees@[l] as int,
                )
            &&& forall|l: int|
                0 <= l < pre.anode(p).main_action_of@.len() ==> ((#[trigger] self.anode(
                    q,
                ).main_action_of@[l]) as int) == crate::remap::remap_spec(
                    am,
                    pre.anode(p).main_action_of@[l] as int,
                )
            &&& forall|l: int|
                0 <= l < pre.anode(p).sub_action_of@.len() ==> ((#[trigger] self.anode(
                    q,
                ).sub_action_of@[l]) as int) == crate::remap::remap_spec(
                    am,
                    pre.anode(p).sub_action_of@[l] as int,
                )
        } by {
            assert(has_val(pre.amap(), p));
            let j = choose|j: int|
                0 <= j < pre.amap().len() && ((#[trigger] pre.amap()[j]).1 as int) == p;
            assert(0 <= j < pre.amap().len());
        }
    }

    /// Rewriting everything through the compaction reports preserves
    /// well-formedness and leaves the id-level graph untouched.
    #[verifier::rlimit(100)]
    proof fn lemma_after_defragment(&self, pre: CanDo, gm: Seq<(usize, usize)>, am: Seq<(usize, usize)>)
        requires
            self.defrag_state(pre, gm, am),
        ensures
            self.wf(),
            self.model() == pre.model(),
    {
        let es = pre.gmap();
        let aes = pre.amap();
        let es2 = self.gmap();
        let aes2 = self.amap();
        lemma_entries_bijective(es);
        lemma_entries_bijective(aes);
        self.lemma_defrag_nodes(pre, gm, am);

        // Entry tables still map ids onto live slots, bijectively.
        assert(Self::table_ok(es2, self.gslots())) by {
            assert forall|j: int, k: int|
                #![trigger es2[j], es2[k]]
                0 <= j < k < es2.len() implies es2[j].0 != es2[k].0 && es2[j].1 != es2[k].1 by {
                assert(es[j].0 != es[k].0 && es[j].1 != es[k].1);
                assert(pre.glive(es[j].1 as int) && pre.glive(es[k].1 as int));
                assert(pre.gslots()[es[j].1 as int] is Some);
                assert(pre.gslots()[es[k].1 as int] is Some);
            }
            assert forall|k: int|
                0 <= k < es2.len() implies ((#[trigger] es2[k]).1 as int) < self.gslots().len()
                && self.gslots()[es2[k].1 as int] is Some by {
                assert(pre.glive(es[k].1 as int));
            }
            assert forall|i: int|
                0 <= i < self.gslots().len() && (#[trigger] self.gslots()[i]) is Some
                implies has_val(es2, i) by {
                assert(crate::remap::covered(gm, pre.gslots(), i));
                let p = choose|p: int|
                    0 <= p < pre.gslots().len() && (#[trigger] pre.gslots()[p]) is Some
                        && crate::remap::remap_spec(gm, p) == i;
                assert(has_val(es, p));
                let j = choose|j: int|
                    0 <= j < es.len() && ((#[trigger] es[j]).1 as int) == p;
                assert((es2[j].1 as int) == i);
            }
        }
        assert(Self::table_ok(aes2, self.aslots())) by {
            assert forall|j: int, k: int|
                #![trigger aes2[j], aes2[k]]
                0 <= j < k < aes2.len() implies aes2[j].0 != aes2[k].0 && aes2[j].1
                != aes2[k].1 by {
                assert(aes[j].0 != aes[k].0 && aes[j].1 != aes[k].1);
                assert(pre.alive(aes[j].1 as int) && pre.alive(aes[k].1 as int));
                assert(pre.aslots()[aes[j].1 as int] is Some);
                assert(pre.aslots()[aes[k].1 as int] is Some);
            }
            assert forall|k: int|
                0 <= k < aes2.len() implies ((#[trigger] aes2[k]).1 as int) < self.aslots().len()
                && self.aslots()[aes2[k].1 as int] is Some by {
                assert(pre.alive(aes[k].1 as int));
            }
            assert forall|i: int|
                0 <= i < self.aslots().len() && (#[trigger] self.aslots()[i]) is Some
                implies has_val(aes2, i) by {
                assert(crate::remap::covered(am, pre.aslots(), i));
                let p = choose|p: int|
                    0 <= p < pre.aslots().len() && (#[trigger] pre.aslots()[p]) is Some
                        && crate::remap::remap_spec(am, p) == i;
                assert(has_val(aes, p));
                let j = choose|j: int|
                    0 <= j < aes.len() && ((#[trigger] aes[j]).1 as int) == p;
                assert((aes2[j].1 as int) == i);
            }
        }

        // Every edge list was rewritten consistently on both endpoints.
        assert(self.edges_ok()) by {
            assert forall|i: int, j: int|
                self.glive(i) && 0 <= j < self.gnode(i).grantee_of@.len() implies {
                let x = (#[trigger] self.gnode(i).grantee_of@[j]) as int;
                x != i && self.glive(x) && list_has(self.gnode(x).grantees@, i)
            } by {
                assert(crate::remap::covered(gm, pre.gslots(), i));
                let p = choose|p: int|
                    0 <= p < pre.gslots().len() && (#[trigger] pre.gslots()[p]) is Some
                        && crate::remap::remap_spec(gm, p) == i;
                let y = pre.gnode(p).grantee_of@[j] as int;
                assert(y != p && pre.glive(y) && list_has(pre.gnode(y).grantees@, p));
                let x = (self.gnode(i).grantee_of@[j]) as int;
                assert(x == crate::remap::remap_spec(gm, y));
                assert(pre.gslots()[y] is Some && pre.gslots()[p] is Some);
                assert(x != i);
                assert(self.gslots()[x] is Some);
                let l = choose|l: int|
                    0 <= l < pre.gnode(y).grantees@.len() && (((#[trigger] pre.gnode(
                        y,
                    ).grantees@[l])) as int) == p;
                assert((self.gnode(x).grantees@[l] as int) == i);
                assert(list_has(self.gnode(x).grantees@, i));
            }
            assert forall|i: int, j: int|
                self.glive(i) && 0 <= j < self.gnode(i).grantees@.len() implies {
                let x = (#[trigger] self.gnode(i).grantees@[j]) as int;
                x != i && self.glive(x) && list_has(self.gnode(x).grantee_of@, i)
            } by {
                assert(crate::remap::covered(gm, pre.gslots(), i));
                let p = choose|p: int|
                    0 <= p < pre.gslots().len() && (#[trigger] pre.gslots()[p]) is Some
                        && crate::remap::remap_spec(gm, p) == i;
                let y = pre.gnode(p).grantees@[j] as int;
                assert(y != p && pre.glive(y) && list_has(pre.gnode(y).grantee_of@, p));
                let x = (self.gnode(i).grantees@[j]) as int;
                assert(x == crate::remap::remap_spec(gm, y));
                assert(pre.gslots()[y] is Some && pre.gslots()[p] is Some);
                assert(x != i);
                assert(self.gslots()[x] is Some);
                let l = choose|l: int|
                    0 <= l < pre.gnode(y).grantee_of@.len() && (((#[trigger] pre.gnode(
                        y,
                    ).grantee_of@[l])) as int) == p;
                assert((self.gnode(x).grantee_of@[l] as int) == i);
                assert(list_has(self.gnode(x).grantee_of@, i));
            }
            assert forall|i: int, j: int|
                self.glive(i) && 0 <= j < self.gnode(i).actions@.len() implies {
                let x = (#[trigger] self.gnode(i).actions@[j]) as int;
                self.alive(x) && list_has(self.anode(x).grantees@, i)
            } by {
                assert(crate::remap::covered(gm, pre.gslots(), i));
                let p = choose|p: int|
                    0 <= p < pre.gslots().len() && (#[trigger] pre.gslots()[p]) is Some
                        && crate::remap::remap_spec(gm, p) == i;
                let y = pre.gnode(p).actions@[j] as int;
                assert(pre.alive(y) && list_has(pre.anode(y).grantees@, p));
                let x = (self.gnode(i).actions@[j]) as int;
                assert(x == crate::remap::remap_spec(am, y));
                assert(pre.aslots()[y] is Some);
                assert(self.aslots()[x] is Some);
                let l = choose|l: int|
                    0 <= l < pre.anode(y).grantees@.len() && (((#[trigger] pre.anode(
                        y,
                    ).grantees@[l])) as int) == p;
                assert((self.anode(x).grantees@[l] as int) == i);
                assert(list_has(self.anode(x).grantees@, i));
            }
            assert forall|i: int, j: int|
                self.alive(i) && 0 <= j < self.anode(i).grantees@.len() implies {
                let x = (#[trigger] self.anode(i).grantees@[j]) as int;
                self.glive(x) && list_has(self.gnode(x).actions@, i)
            } by {
                assert(crate::remap::covered(am, pre.aslots(), i));
                let p = choose|p: int|
                    0 <= p < pre.aslots().len() && (#[trigger] pre.aslots()[p]) is Some
                        && crate::remap::remap_spec(am, p) == i;
                let y = pre.anode(p).grantees@[j] as int;
                assert(pre.glive(y) && list_has(pre.gnode(y).actions@, p));
                let x = (self.anode(i).grantees@[j]) as int;
                assert(x == crate::remap::remap_spec(gm, y));
                assert(pre.gslots()[y] is Some);
                assert(self.gslots()[x] is Some);
                let l = choose|l: int|
                    0 <= l < pre.gnode(y).actions@.len() && (((#[trigger] pre.gnode(
                        y,
                    ).actions@[l])) as int) == p;
                assert((self.gnode(x).actions@[l] as int) == i);
                assert(list_has(self.gnode(x).actions@, i));
            }
            assert forall|i: int, j: int|
                self.alive(i) && 0 <= j < self.anode(i).main_action_of@.len() implies {
                let x = (#[trigger] self.anode(i).main_action_of@[j]) as int;
                x != i && self.alive(x) && list_has(self.anode(x).sub_action_of@, i)
            } by {
                assert(crate::remap::covered(am, pre.aslots(), i));
                let p = choose|p: int|
                    0 <= p < pre.aslots().len() && (#[trigger] pre.aslots()[p]) is Some
                        && crate::remap::remap_spec(am, p) == i;
                let y = pre.anode(p).main_action_of@[j] as int;
                assert(y != p && pre.alive(y) && list_has(pre.anode(y).sub_action_of@, p));
                let x = (self.anode(i).main_action_of@[j]) as int;
                assert(x == crate::remap::remap_spec(am, y));
                assert(pre.aslots()[y] is Some && pre.aslots()[p] is Some);
                assert(x != i);
                assert(self.aslots()[x] is Some);
                let l = choose|l: int|
                    0 <= l < pre.anode(y).sub_action_of@.len() && (((#[trigger] pre.anode(
                        y,
                    ).sub_action_of@[l])) as int) == p;
                assert((self.anode(x).sub_action_of@[l] as int) == i);
                assert(list_has(self.anode(x).sub_action_of@, i));
            }
            assert forall|i: int, j: int|
                self.alive(i) && 0 <= j < self.anode(i).sub_action_of@.len() implies {
                let x = (#[trigger] self.anode(i).sub_action_of@[j]) as int;
                x != i && self.alive(x) && list_has(self.anode(x).main_action_of@, i)
            } by {
                assert(crate::remap::covered(am, pre.aslots(), i));
                let p = choose|p: int|
                    0 <= p < pre.aslots().len() && (#[trigger] pre.aslots()[p]) is Some
                        && crate::remap::remap_spec(am, p) == i;
                let y = pre.anode(p).sub_action_of@[j] as int;
                assert(y != p && pre.alive(y) && list_has(pre.anode(y).main_action_of@, p));
                let x = (self.anode(i).sub_action_of@[j]) as int;
                assert(x == crate::remap::remap_spec(am, y));
                assert(pre.aslots()[y] is Some && pre.aslots()[p] is Some);
                assert(x != i);
                assert(self.aslots()[x] is Some);
                let l = choose|l: int|
                    0 <= l < pre.anode(y).main_action_of@.len() && (((#[trigger] pre.anode(
                        y,
                    ).main_action_of@[l])) as int) == p;
                assert((self.anode(x).main_action_of@[l] as int) == i);
                assert(list_has(self.anode(x).main_action_of@, i));
            }
        }

        self.lemma_defrag_model(pre, gm, am);
    }

    /// The id-level model is unchanged by the rewrite.
    #[verifier::rlimit(100)]
    proof fn lemma_defrag_model(&self, pre: CanDo, gm: Seq<(usize, usize)>, am: Seq<(usize, usize)>)
        requires
            self.defrag_state(pre, gm, am),
        ensures
            self.model() == pre.model(),
    {
        let es = pre.gmap();
        let aes = pre.amap();
        let es2 = self.gmap();
        let aes2 = self.amap();
        lemma_entries_bijective(es);
        lemma_entries_bijective(aes);
        self.lemma_defrag_nodes(pre, gm, am);
        let m1 = self.model();
        let m2 = pre.model();

        assert forall|g: u64| #[trigger] has_key(es2, g) <==> has_key(es, g) by {
            if has_key(es2, g) {
                let k = choose|k: int| 0 <= k < es2.len() && (#[trigger] es2[k]).0 == g;
                assert(es[k].0 == g);
            }
            if has_key(es, g) {
                let k = choose|k: int| 0 <= k < es.len() && (#[trigger] es[k]).0 == g;
                assert(es2[k].0 == g);
            }
        }
        assert forall|a: u64| #[trigger] has_key(aes2, a) <==> has_key(aes, a) by {
            if has_key(aes2, a) {
                let k = choose|k: int| 0 <= k < aes2.len() && (#[trigger] aes2[k]).0 == a;
                assert(aes[k].0 == a);
            }
            if has_key(aes, a) {
                let k = choose|k: int| 0 <= k < aes.len() && (#[trigger] aes[k]).0 == a;
                assert(aes2[k].0 == a);
            }
        }

        assert forall|g: u64| m1.grantees.dom().contains(g) implies #[trigger] m1.grantees[g]
            =~= m2.grantees[g] by {
            let k = choose|k: int| 0 <= k < es.len() && (#[trigger] es[k]).0 == g;
            let p = es[k].1 as int;
            let q = crate::remap::remap_spec(gm, p);
            assert(pre.glive(p));
            assert(idx_of(es, g) == p) by {
                let k2 = choose|k2: int| 0 <= k2 < es.len() && (#[trigger] es[k2]).0 == g;
                assert(k2 == k);
            }
            assert(idx_of(es2, g) == q) by {
                let k2 = choose|k2: int| 0 <= k2 < es2.len() && (#[trigger] es2[k2]).0 == g;
                assert(k2 == k);
            }
            assert(m1.grantees[g].root == m2.grantees[g].root);
            assert forall|id: u64|
                ids_of(es2, self.gnode(q).grantee_of@).contains(id) <==> #[trigger] ids_of(
                es,
                pre.gnode(p).grantee_of@,
            ).contains(id) by {
                if ids_of(es2, self.gnode(q).grantee_of@).contains(id) {
                    let kk = choose|kk: int|
                        0 <= kk < es2.len() && (#[trigger] es2[kk]).0 == id && list_has(
                            self.gnode(q).grantee_of@,
                            es2[kk].1 as int,
                        );
                    let l = choose|l: int|
                        0 <= l < self.gnode(q).grantee_of@.len() && (((#[trigger] self.gnode(
                            q,
                        ).grantee_of@[l])) as int) == es2[kk].1 as int;
                    let y = pre.gnode(p).grantee_of@[l] as int;
                    assert(pre.glive(y));
                    assert(pre.glive(es[kk].1 as int));
                    assert(crate::remap::remap_spec(gm, y) == crate::remap::remap_spec(
                        gm,
                        es[kk].1 as int,
                    ));
                    assert(y == es[kk].1 as int) by {
                        if y != es[kk].1 as int {
                            assert(pre.gslots()[y] is Some);
                            assert(pre.gslots()[es[kk].1 as int] is Some);
                        }
                    }
                    assert(list_has(pre.gnode(p).grantee_of@, es[kk].1 as int));
                    assert(ids_of(es, pre.gnode(p).grantee_of@).contains(id));
                }
                if ids_of(es, pre.gnode(p).grantee_of@).contains(id) {
                    let kk = choose|kk: int|
                        0 <= kk < es.len() && (#[trigger] es[kk]).0 == id && list_has(
                            pre.gnode(p).grantee_of@,
                            es[kk].1 as int,
                        );
                    let l = choose|l: int|
                        0 <= l < pre.gnode(p).grantee_of@.len() && (((#[trigger] pre.gnode(
                            p,
                        ).grantee_of@[l])) as int) == es[kk].1 as int;
                    assert((self.gnode(q).grantee_of@[l] as int) == crate::remap::remap_spec(
                        gm,
                        es[kk].1 as int,
                    ));
                    assert((es2[kk].1 as int) == crate::remap::remap_spec(gm, es[kk].1 as int));
                    assert(list_has(self.gnode(q).grantee_of@, es2[kk].1 as int));
                    assert(ids_of(es2, self.gnode(q).grantee_of@).contains(id));
                }
            }
            assert(m1.grantees[g].parents =~= m2.grantees[g].parents);
            assert forall|id: u64|
                ids_of(aes2, self.gnode(q).actions@).contains(id) <==> #[trigger] ids_of(
                aes,
                pre.gnode(p).actions@,
            ).contains(id) by {
                if ids_of(aes2, self.gnode(q).actions@).contains(id) {
                    let kk = choose|kk: int|
                        0 <= kk < aes2.len() && (#[trigger] aes2[kk]).0 == id && list_has(
                            self.gnode(q).actions@,
                            aes2[kk].1 as int,
                        );
                    let l = choose|l: int|
                        0 <= l < self.gnode(q).actions@.len() && (((#[trigger] self.gnode(
                            q,
                        ).actions@[l])) as int) == aes2[kk].1 as int;
                    let y = pre.gnode(p).actions@[l] as int;
                    assert(pre.alive(y));
                    assert(pre.alive(aes[kk].1 as int));
                    assert(crate::remap::remap_spec(am, y) == crate::remap::remap_spec(
                        am,
                        aes[kk].1 as int,
                    ));
                    assert(y == aes[kk].1 as int) by {
                        if y != aes[kk].1 as int {
                            assert(pre.aslots()[y] is Some);
                            assert(pre.aslots()[aes[kk].1 as int] is Some);
                        }
                    }
                    assert(list_has(pre.gnode(p).actions@, aes[kk].1 as int));
                    assert(ids_of(aes, pre.gnode(p).actions@).contains(id));
                }
                if ids_of(aes, pre.gnode(p).actions@).contains(id) {
                    let kk = choose|kk: int|
                        0 <= kk < aes.len() && (#[trigger] aes[kk]).0 == id && list_has(
                            pre.gnode(p).actions@,
                            aes[kk].1 as int,
                        );
                    let l = choose|l: int|
                        0 <= l < pre.gnode(p).actions@.len() && (((#[trigger] pre.gnode(
                            p,
                        ).actions@[l])) as int) == aes[kk].1 as int;
                    assert((self.gnode(q).actions@[l] as int) == crate::remap::remap_spec(
                        am,
                        aes[kk].1 as int,
                    ));
                    assert((aes2[kk].1 as int) == crate::remap::remap_spec(am, aes[kk].1 as int));
                    assert(list_has(self.gnode(q).actions@, aes2[kk].1 as int));
                    assert(ids_of(aes2, self.gnode(q).actions@).contains(id));
                }
            }
            assert(m1.grantees[g].acts =~= m2.grantees[g].acts);
        }
        assert(m1.grantees =~= m2.grantees);

        assert forall|a: u64| m1.actions.dom().contains(a) implies #[trigger] m1.actions[a]
            =~= m2.actions[a] by {
            let k = choose|k: int| 0 <= k < aes.len() && (#[trigger] aes[k]).0 == a;
            let p = aes[k].1 as int;
            let q = crate::remap::remap_spec(am, p);
            assert(pre.alive(p));
            assert(idx_of(aes, a) == p) by {
                let k2 = choose|k2: int| 0 <= k2 < aes.len() && (#[trigger] aes[k2]).0 == a;
                assert(k2 == k);
            }
            assert(idx_of(aes2, a) == q) by {
                let k2 = choose|k2: int| 0 <= k2 < aes2.len() && (#[trigger] aes2[k2]).0 == a;
                assert(k2 == k);
            }
            assert forall|id: u64|
                ids_of(aes2, self.anode(q).sub_action_of@).contains(id) <==> #[trigger] ids_of(
                aes,
                pre.anode(p).sub_action_of@,
            ).contains(id) by {
                if ids_of(aes2, self.anode(q).sub_action_of@).contains(id) {
                    let kk = choose|kk: int|
                        0 <= kk < aes2.len() && (#[trigger] aes2[kk]).0 == id && list_has(
                            self.anode(q).sub_action_of@,
                            aes2[kk].1 as int,
                        );
                    let l = choose|l: int|
                        0 <= l < self.anode(q).sub_action_of@.len() && (((#[trigger] self.anode(
                            q,
                        ).sub_action_of@[l])) as int) == aes2[kk].1 as int;
                    let y = pre.anode(p).sub_action_of@[l] as int;
                    assert(pre.alive(y));
                    assert(pre.alive(aes[kk].1 as int));
                    assert(crate::remap::remap_spec(am, y) == crate::remap::remap_spec(
                        am,
                        aes[kk].1 as int,
                    ));
                    assert(y == aes[kk].1 as int) by {
                        if y != aes[kk].1 as int {
                            assert(pre.aslots()[y] is Some);
                            assert(pre.aslots()[aes[kk].1 as int] is Some);
                        }
                    }
                    assert(list_has(pre.anode(p).sub_action_of@, aes[kk].1 as int));
                    assert(ids_of(aes, pre.anode(p).sub_action_of@).contains(id));
                }
                if ids_of(aes, pre.anode(p).sub_action_of@).contains(id) {
                    let kk = choose|kk: int|
                        0 <= kk < aes.len() && (#[trigger] aes[kk]).0 == id && list_has(
                            pre.anode(p).sub_action_of@,
                            aes[kk].1 as int,
                        );
                    let l = choose|l: int|
                        0 <= l < pre.anode(p).sub_action_of@.len() && (((#[trigger] pre.anode(
                            p,
                        ).sub_action_of@[l])) as int) == aes[kk].1 as int;
                    assert((self.anode(q).sub_action_of@[l] as int) == crate::remap::remap_spec(
                        am,
                        aes[kk].1 as int,
                    ));
                    assert((aes2[kk].1 as int) == crate::remap::remap_spec(am, aes[kk].1 as int));
                    assert(list_has(self.anode(q).sub_action_of@, aes2[kk].1 as int));
                    assert(ids_of(aes2, self.anode(q).sub_action_of@).contains(id));
                }
            }
            assert(m1.actions[a] =~= m2.actions[a]);
        }
        assert(m1.actions =~= m2.actions);
        assert(m1 =~= m2);
    }
}

} // verus!
