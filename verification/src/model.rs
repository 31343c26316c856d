//! The id-level ghost model of the authorization graph.
//!
//! A graph holds grantees and actions under caller-chosen `u64` identifiers.
//! Each grantee lists the grantees it inherits rights from (`parents`) and
//! the actions granted to it directly (`acts`); each action lists its
//! super-actions.  Edge lists at the model level are sets: duplicate edges in
//! a representation are equivalent to one edge.

use vstd::prelude::*;

verus! {

/// One grantee in the id-level graph model.
#[verifier::ext_equal]
pub struct GranteeModel {
    /// Ids of the grantees this one inherits rights from.
    pub parents: Set<u64>,
    /// Ids of the actions granted to this grantee directly.
    pub acts: Set<u64>,
    /// Roots survive compaction unconditionally.
    pub root: bool,
}

/// The id-level model of an authorization graph.
#[verifier::ext_equal]
pub struct GraphModel {
    pub grantees: Map<u64, GranteeModel>,
    /// Maps each action id to the set of its super-action ids: if `m` is in
    /// `actions[s]`, anyone who may perform `m` may also perform `s`.
    pub actions: Map<u64, Set<u64>>,
}

/// A grantee with no edges and no root mark, as created on first reference.
pub open spec fn new_grantee() -> GranteeModel {
    GranteeModel { parents: Set::empty(), acts: Set::empty(), root: false }
}

impl GraphModel {
    pub open spec fn empty() -> GraphModel {
        GraphModel { grantees: Map::empty(), actions: Map::empty() }
    }

    pub open spec fn has_grantee(self, g: u64) -> bool {
        self.grantees.dom().contains(g)
    }

    pub open spec fn has_action(self, a: u64) -> bool {
        self.actions.dom().contains(a)
    }

    /// Creates grantee `g` with no edges if it does not exist yet.
    pub open spec fn ensure_grantee(self, g: u64) -> GraphModel {
        if self.has_grantee(g) {
            self
        } else {
            GraphModel { grantees: self.grantees.insert(g, new_grantee()), actions: self.actions }
        }
    }

    /// Creates action `a` with no super-actions if it does not exist yet.
    pub open spec fn ensure_action(self, a: u64) -> GraphModel {
        if self.has_action(a) {
            self
        } else {
            GraphModel { grantees: self.grantees, actions: self.actions.insert(a, Set::empty()) }
        }
    }

    /// Grants `a` to `g` directly, creating either node if missing.
    pub open spec fn add_grant_m(self, g: u64, a: u64) -> GraphModel {
        let m = self.ensure_grantee(g).ensure_action(a);
        GraphModel {
            grantees: m.grantees.insert(
                g,
                GranteeModel { acts: m.grantees[g].acts.insert(a), ..m.grantees[g] },
            ),
            actions: m.actions,
        }
    }

    /// Makes `g` inherit from `h`, creating either grantee if missing.
    /// A self-edge is silently ignored.
    pub open spec fn connect_grantees_m(self, g: u64, h: u64) -> GraphModel {
        let m = self.ensure_grantee(g).ensure_grantee(h);
        if g == h {
            m
        } else {
            GraphModel {
                grantees: m.grantees.insert(
                    g,
                    GranteeModel { parents: m.grantees[g].parents.insert(h), ..m.grantees[g] },
                ),
                actions: m.actions,
            }
        }
    }

    /// Makes `main` a super-action of `sub`, creating either action if
    /// missing.  A self-edge is silently ignored.
    pub open spec fn connect_actions_m(self, main: u64, sub: u64) -> GraphModel {
        let m = self.ensure_action(main).ensure_action(sub);
        if main == sub {
            m
        } else {
            GraphModel {
                grantees: m.grantees,
                actions: m.actions.insert(sub, m.actions[sub].insert(main)),
            }
        }
    }

    /// Marks `g` as a root, creating it if missing.
    pub open spec fn add_root_m(self, g: u64) -> GraphModel {
        let m = self.ensure_grantee(g);
        GraphModel {
            grantees: m.grantees.insert(g, GranteeModel { root: true, ..m.grantees[g] }),
            actions: m.actions,
        }
    }

    /// Removes the root mark of `g`, creating it if missing.
    pub open spec fn remove_root_m(self, g: u64) -> GraphModel {
        let m = self.ensure_grantee(g);
        GraphModel {
            grantees: m.grantees.insert(g, GranteeModel { root: false, ..m.grantees[g] }),
            actions: m.actions,
        }
    }

    /// Deletes grantee `g` together with every edge touching it.
    pub open spec fn remove_grantee_m(self, g: u64) -> GraphModel
        recommends
            self.has_grantee(g),
    {
        GraphModel {
            grantees: Map::new(
                |k: u64| self.grantees.dom().contains(k) && k != g,
                |k: u64|
                    GranteeModel { parents: self.grantees[k].parents.remove(g), ..self.grantees[k] },
            ),
            actions: self.actions,
        }
    }

    /// Deletes action `a` together with every edge touching it.
    pub open spec fn remove_action_m(self, a: u64) -> GraphModel
        recommends
            self.has_action(a),
    {
        GraphModel {
            grantees: Map::new(
                |k: u64| self.grantees.dom().contains(k),
                |k: u64| GranteeModel { acts: self.grantees[k].acts.remove(a), ..self.grantees[k] },
            ),
            actions: Map::new(
                |k: u64| self.actions.dom().contains(k) && k != a,
                |k: u64| self.actions[k].remove(a),
            ),
        }
    }

    /// Revokes the direct grant of `a` to `g`; both must exist.
    pub open spec fn remove_grant_m(self, g: u64, a: u64) -> GraphModel
        recommends
            self.has_grantee(g),
            self.has_action(a),
    {
        GraphModel {
            grantees: self.grantees.insert(
                g,
                GranteeModel { acts: self.grantees[g].acts.remove(a), ..self.grantees[g] },
            ),
            actions: self.actions,
        }
    }

    /// Removes the inheritance edge from `g` to `h`; both must exist.
    /// Disconnecting a grantee from itself changes nothing.
    pub open spec fn disconnect_grantees_m(self, g: u64, h: u64) -> GraphModel
        recommends
            self.has_grantee(g),
            self.has_grantee(h),
    {
        if g == h {
            self
        } else {
            GraphModel {
            grantees: self.grantees.insert(
                g,
                GranteeModel { parents: self.grantees[g].parents.remove(h), ..self.grantees[g] },
                ),
                actions: self.actions,
            }
        }
    }

    /// Removes the super-action edge from `main` to `sub`; both must exist.
    /// Disconnecting an action from itself changes nothing.
    pub open spec fn disconnect_actions_m(self, main: u64, sub: u64) -> GraphModel
        recommends
            self.has_action(main),
            self.has_action(sub),
    {
        if main == sub {
            self
        } else {
            GraphModel {
                grantees: self.grantees,
                actions: self.actions.insert(sub, self.actions[sub].remove(main)),
            }
        }
    }

    /// The inheritance edges, as a map from a grantee to its parents.
    pub open spec fn parent_edges(self) -> Map<u64, Set<u64>> {
        Map::new(|g: u64| self.grantees.dom().contains(g), |g: u64| self.grantees[g].parents)
    }

    /// Whether grantee `g` may perform action `a`: some grantee `h` reachable
    /// from `g` upward through inheritance edges holds a direct grant of some
    /// action `b` from which `a` inherits.
    pub open spec fn can_do(self, g: u64, a: u64) -> bool {
        exists|h: u64, b: u64|
            #![trigger reaches(self.parent_edges(), g, h), reaches(self.actions, a, b)]
            {
                &&& reaches(self.parent_edges(), g, h)
                &&& reaches(self.actions, a, b)
                &&& self.grantees[h].acts.contains(b)
            }
    }
}

/// `path` is a walk through `edges`: every node exists and consecutive nodes
/// are connected.
pub open spec fn is_path(edges: Map<u64, Set<u64>>, path: Seq<u64>) -> bool {
    &&& path.len() > 0
    &&& forall|i: int| 0 <= i < path.len() ==> edges.dom().contains(#[trigger] path[i])
    &&& forall|i: int| 0 <= i < path.len() - 1 ==> edges[#[trigger] path[i]].contains(path[i + 1])
}

/// `to` is reachable from `from` along `edges` (reflexively: every existing
/// node reaches itself).
pub open spec fn reaches(edges: Map<u64, Set<u64>>, from: u64, to: u64) -> bool {
    exists|p: Seq<u64>|
        #![trigger is_path(edges, p)]
        is_path(edges, p) && p.first() == from && p.last() == to
}

/// Connecting two grantees twice changes nothing beyond the first time: the
/// second application returns the same graph, so every reachability answer —
/// in particular every `can_do` answer — is unchanged.
pub proof fn lemma_connect_grantees_idempotent(m: GraphModel, g: u64, h: u64)
    ensures
        m.connect_grantees_m(g, h).connect_grantees_m(g, h) == m.connect_grantees_m(g, h),
        forall|x: u64, a: u64|
            m.connect_grantees_m(g, h).connect_grantees_m(g, h).can_do(x, a)
                == #[trigger] m.connect_grantees_m(g, h).can_do(x, a),
{
    let m1 = m.connect_grantees_m(g, h);
    let m2 = m1.connect_grantees_m(g, h);
    assert(m1.has_grantee(g) && m1.has_grantee(h));
    if g == h {
        assert(m2 =~= m1);
    } else {
        assert(m2.grantees =~= m1.grantees) by {
            assert(m1.grantees[g].parents.insert(h) =~= m1.grantees[g].parents);
            assert(GranteeModel {
                parents: m1.grantees[g].parents.insert(h),
                ..m1.grantees[g]
            } =~= m1.grantees[g]);
        }
        assert(m2 =~= m1);
    }
}

/// Connecting two actions twice changes nothing beyond the first time.
pub proof fn lemma_connect_actions_idempotent(m: GraphModel, main: u64, sub: u64)
    ensures
        m.connect_actions_m(main, sub).connect_actions_m(main, sub) == m.connect_actions_m(
            main,
            sub,
        ),
        forall|x: u64, a: u64|
            m.connect_actions_m(main, sub).connect_actions_m(main, sub).can_do(x, a)
                == #[trigger] m.connect_actions_m(main, sub).can_do(x, a),
{
    let m1 = m.connect_actions_m(main, sub);
    let m2 = m1.connect_actions_m(main, sub);
    assert(m1.has_action(main) && m1.has_action(sub));
    if main == sub {
        assert(m2 =~= m1);
    } else {
        assert(m2.actions =~= m1.actions) by {
            assert(m1.actions[sub].insert(main) =~= m1.actions[sub]);
        }
        assert(m2 =~= m1);
    }
}


/// `m` restricted to the grantees in `gs` and the actions in `as_`: the
/// surviving nodes keep exactly their edges among themselves.
pub open spec fn restricted(m: GraphModel, gs: Set<u64>, as_: Set<u64>) -> GraphModel {
    GraphModel {
        grantees: Map::new(
            |k: u64| m.grantees.dom().contains(k) && gs.contains(k),
            |k: u64|
                GranteeModel {
                    parents: m.grantees[k].parents.intersect(gs),
                    acts: m.grantees[k].acts.intersect(as_),
                    root: m.grantees[k].root,
                },
        ),
        actions: Map::new(
            |k: u64| m.actions.dom().contains(k) && as_.contains(k),
            |k: u64| m.actions[k].intersect(as_),
        ),
    }
}

/// Every edge of `m` stays inside `m`'s own domains.
pub open spec fn closed_graph(m: GraphModel) -> bool {
    &&& forall|g: u64, p: u64|
        m.grantees.dom().contains(g) && (#[trigger] m.grantees[g].parents.contains(p))
            ==> m.grantees.dom().contains(p)
    &&& forall|g: u64, a: u64|
        m.grantees.dom().contains(g) && (#[trigger] m.grantees[g].acts.contains(a))
            ==> m.actions.dom().contains(a)
    &&& forall|s: u64, a: u64|
        m.actions.dom().contains(s) && (#[trigger] m.actions[s].contains(a))
            ==> m.actions.dom().contains(a)
}

/// Action `a` can still contribute to an answer: someone holds it directly,
/// or it is a super-action of some action.
pub open spec fn action_kept(m: GraphModel, a: u64) -> bool {
    ||| exists|g: u64|
        #[trigger] m.grantees.dom().contains(g) && m.grantees[g].acts.contains(a)
    ||| exists|s: u64| #[trigger] m.actions.dom().contains(s) && m.actions[s].contains(a)
}

/// Grantee `g` can still contribute to an answer: it is a root, or it has a
/// parent and either a direct grant or a child.
pub open spec fn grantee_kept(m: GraphModel, g: u64) -> bool {
    ||| m.grantees[g].root
    ||| {
        &&& {
            ||| exists|a: u64| #[trigger] m.grantees[g].acts.contains(a)
            ||| exists|h: u64|
                #[trigger] m.grantees.dom().contains(h) && m.grantees[h].parents.contains(g)
        }
        &&& exists|p: u64| #[trigger] m.grantees[g].parents.contains(p)
    }
}

/// No node of `m` is an orphan.
pub open spec fn no_orphans(m: GraphModel) -> bool {
    &&& forall|a: u64| #[trigger] m.actions.dom().contains(a) ==> action_kept(m, a)
    &&& forall|g: u64| #[trigger] m.grantees.dom().contains(g) ==> grantee_kept(m, g)
}

/// Restricting a closed graph to its full domains changes nothing.
pub proof fn lemma_restricted_full(m: GraphModel)
    requires
        closed_graph(m),
    ensures
        restricted(m, m.grantees.dom(), m.actions.dom()) == m,
{
    let r = restricted(m, m.grantees.dom(), m.actions.dom());
    assert forall|g: u64| m.grantees.dom().contains(g) implies #[trigger] r.grantees[g]
        =~= m.grantees[g] by {
        assert(m.grantees[g].parents.intersect(m.grantees.dom()) =~= m.grantees[g].parents);
        assert(m.grantees[g].acts.intersect(m.actions.dom()) =~= m.grantees[g].acts);
    }
    assert(r.grantees =~= m.grantees);
    assert forall|a: u64| m.actions.dom().contains(a) implies #[trigger] r.actions[a]
        =~= m.actions[a] by {
        assert(m.actions[a].intersect(m.actions.dom()) =~= m.actions[a]);
    }
    assert(r.actions =~= m.actions);
    assert(r =~= m);
}

/// Deleting a grantee from a restriction tightens the restriction.
pub proof fn lemma_restricted_remove_grantee(m: GraphModel, gs: Set<u64>, as_: Set<u64>, g: u64)
    requires
        restricted(m, gs, as_).has_grantee(g),
    ensures
        restricted(m, gs, as_).remove_grantee_m(g) == restricted(m, gs.remove(g), as_),
{
    let r1 = restricted(m, gs, as_).remove_grantee_m(g);
    let r2 = restricted(m, gs.remove(g), as_);
    assert forall|k: u64| r1.grantees.dom().contains(k) implies #[trigger] r1.grantees[k]
        =~= r2.grantees[k] by {
        assert(m.grantees[k].parents.intersect(gs).remove(g) =~= m.grantees[k].parents.intersect(
            gs.remove(g),
        ));
    }
    assert(r1.grantees.dom() =~= r2.grantees.dom());
    assert(r1.grantees =~= r2.grantees);
    assert(r1.actions =~= r2.actions);
    assert(r1 =~= r2);
}

/// Deleting an action from a restriction tightens the restriction.
pub proof fn lemma_restricted_remove_action(m: GraphModel, gs: Set<u64>, as_: Set<u64>, a: u64)
    requires
        restricted(m, gs, as_).has_action(a),
    ensures
        restricted(m, gs, as_).remove_action_m(a) == restricted(m, gs, as_.remove(a)),
{
    let r1 = restricted(m, gs, as_).remove_action_m(a);
    let r2 = restricted(m, gs, as_.remove(a));
    assert forall|k: u64| r1.grantees.dom().contains(k) implies #[trigger] r1.grantees[k]
        =~= r2.grantees[k] by {
        assert(m.grantees[k].acts.intersect(as_).remove(a) =~= m.grantees[k].acts.intersect(
            as_.remove(a),
        ));
    }
    assert(r1.grantees.dom() =~= r2.grantees.dom());
    assert(r1.grantees =~= r2.grantees);
    assert forall|k: u64| r1.actions.dom().contains(k) implies #[trigger] r1.actions[k]
        =~= r2.actions[k] by {
        assert(m.actions[k].intersect(as_).remove(a) =~= m.actions[k].intersect(as_.remove(a)));
    }
    assert(r1.actions.dom() =~= r2.actions.dom());
    assert(r1.actions =~= r2.actions);
    assert(r1 =~= r2);
}


/// `gs`/`as_` are a keep-closed pair of `m`: restricting `m` to them leaves
/// no orphan, so compaction has no reason to remove any of them.
pub open spec fn keep_closed(m: GraphModel, gs: Set<u64>, as_: Set<u64>) -> bool {
    &&& forall|g: u64| #[trigger] gs.contains(g) ==> m.grantees.dom().contains(g)
    &&& forall|a: u64| #[trigger] as_.contains(a) ==> m.actions.dom().contains(a)
    &&& no_orphans(restricted(m, gs, as_))
}

/// Being kept is monotone in the restriction: a node that survives inside a
/// smaller restriction also survives inside a larger one.
pub proof fn lemma_restricted_kept_monotone(
    m: GraphModel,
    gs: Set<u64>,
    as_: Set<u64>,
    gbig: Set<u64>,
    abig: Set<u64>,
)
    requires
        gs.subset_of(gbig),
        as_.subset_of(abig),
    ensures
        forall|a: u64|
            as_.contains(a) && m.actions.dom().contains(a) && #[trigger] action_kept(
                restricted(m, gs, as_),
                a,
            ) ==> action_kept(restricted(m, gbig, abig), a),
        forall|g: u64|
            gs.contains(g) && m.grantees.dom().contains(g) && #[trigger] grantee_kept(
                restricted(m, gs, as_),
                g,
            ) ==> grantee_kept(restricted(m, gbig, abig), g),
{
    let small = restricted(m, gs, as_);
    let big = restricted(m, gbig, abig);
    assert forall|a: u64|
        as_.contains(a) && m.actions.dom().contains(a) && #[trigger] action_kept(small, a)
        implies action_kept(big, a) by {
        if exists|g: u64|
            #[trigger] small.grantees.dom().contains(g) && small.grantees[g].acts.contains(a) {
            let g = choose|g: u64|
                #[trigger] small.grantees.dom().contains(g) && small.grantees[g].acts.contains(
                    a,
                );
            assert(big.grantees.dom().contains(g));
            assert(big.grantees[g].acts.contains(a));
        } else {
            let s2 = choose|s2: u64|
                #[trigger] small.actions.dom().contains(s2) && small.actions[s2].contains(a);
            assert(big.actions.dom().contains(s2));
            assert(big.actions[s2].contains(a));
        }
    }
    assert forall|g: u64|
        gs.contains(g) && m.grantees.dom().contains(g) && #[trigger] grantee_kept(small, g)
        implies grantee_kept(big, g) by {
        assert(big.grantees.dom().contains(g));
        if small.grantees[g].root {
            assert(big.grantees[g].root);
        } else {
            let p2 = choose|p2: u64| #[trigger] small.grantees[g].parents.contains(p2);
            assert(big.grantees[g].parents.contains(p2));
            if exists|a: u64| #[trigger] small.grantees[g].acts.contains(a) {
                let a = choose|a: u64| #[trigger] small.grantees[g].acts.contains(a);
                assert(big.grantees[g].acts.contains(a));
            } else {
                let h = choose|h: u64|
                    #[trigger] small.grantees.dom().contains(h) && small.grantees[h].parents
                        .contains(g);
                assert(big.grantees.dom().contains(h));
                assert(big.grantees[h].parents.contains(g));
            }
        }
    }
}

/// No node lists itself as its own parent or super-action.
pub open spec fn no_self_edges(m: GraphModel) -> bool {
    &&& forall|g: u64|
        m.grantees.dom().contains(g) ==> !(#[trigger] m.grantees[g].parents.contains(g))
    &&& forall|a: u64| m.actions.dom().contains(a) ==> !(#[trigger] m.actions[a].contains(a))
}

/// `m` with the parent edges of its roots forgotten.  A reconstruction log
/// emits parent edges only for non-root grantees, so rebuilding from it
/// recovers a graph exactly up to those edges.
pub open spec fn strip_root_parents(m: GraphModel) -> GraphModel {
    GraphModel {
        grantees: Map::new(
            |g: u64| m.grantees.dom().contains(g),
            |g: u64|
                GranteeModel {
                    parents: if m.grantees[g].root {
                        Set::empty()
                    } else {
                        m.grantees[g].parents
                    },
                    acts: m.grantees[g].acts,
                    root: m.grantees[g].root,
                },
        ),
        actions: m.actions,
    }
}

/// A walk inside a restriction is a walk of the full graph.
proof fn lemma_restricted_path_lifts(
    m: GraphModel,
    gs: Set<u64>,
    as_: Set<u64>,
    p: Seq<u64>,
)
    requires
        is_path(restricted(m, gs, as_).parent_edges(), p),
    ensures
        is_path(m.parent_edges(), p),
{
    let r = restricted(m, gs, as_);
    assert forall|i: int|
        0 <= i < p.len() implies m.parent_edges().dom().contains(#[trigger] p[i]) by {
        assert(r.parent_edges().dom().contains(p[i]));
    }
    assert forall|i: int|
        0 <= i < p.len() - 1 implies m.parent_edges()[#[trigger] p[i]].contains(p[i + 1]) by {
        assert(r.parent_edges()[p[i]].contains(p[i + 1]));
        assert(m.grantees[p[i]].parents.intersect(gs).contains(p[i + 1]));
    }
}

/// A super-action walk inside a restriction is a walk of the full graph.
proof fn lemma_restricted_action_path_lifts(
    m: GraphModel,
    gs: Set<u64>,
    as_: Set<u64>,
    p: Seq<u64>,
)
    requires
        is_path(restricted(m, gs, as_).actions, p),
    ensures
        is_path(m.actions, p),
{
    let r = restricted(m, gs, as_);
    assert forall|i: int| 0 <= i < p.len() implies m.actions.dom().contains(#[trigger] p[i]) by {
        assert(r.actions.dom().contains(p[i]));
    }
    assert forall|i: int|
        0 <= i < p.len() - 1 implies m.actions[#[trigger] p[i]].contains(p[i + 1]) by {
        assert(r.actions[p[i]].contains(p[i + 1]));
        assert(m.actions[p[i]].intersect(as_).contains(p[i + 1]));
    }
}

/// Restriction never creates a permission: any `true` answer of a restricted
/// graph — in particular of a compacted one, which is the restriction of its
/// predecessor to the surviving ids — was already a `true` answer before.
pub proof fn lemma_restricted_can_do(m: GraphModel, gs: Set<u64>, as_: Set<u64>, g: u64, a: u64)
    requires
        restricted(m, gs, as_).can_do(g, a),
    ensures
        m.can_do(g, a),
{
    let r = restricted(m, gs, as_);
    let (h, b) = choose|h: u64, b: u64|
        #![trigger reaches(r.parent_edges(), g, h), reaches(r.actions, a, b)]
        {
            &&& reaches(r.parent_edges(), g, h)
            &&& reaches(r.actions, a, b)
            &&& r.grantees[h].acts.contains(b)
        };
    let pg = choose|p: Seq<u64>|
        #![trigger is_path(r.parent_edges(), p)]
        is_path(r.parent_edges(), p) && p.first() == g && p.last() == h;
    lemma_restricted_path_lifts(m, gs, as_, pg);
    assert(reaches(m.parent_edges(), g, h));
    let pa = choose|p: Seq<u64>|
        #![trigger is_path(r.actions, p)]
        is_path(r.actions, p) && p.first() == a && p.last() == b;
    lemma_restricted_action_path_lifts(m, gs, as_, pa);
    assert(reaches(m.actions, a, b));
    assert(m.grantees[h].acts.contains(b)) by {
        assert(r.grantees.dom().contains(h)) by {
            assert(r.parent_edges().dom().contains(pg.last()));
        }
        assert(m.grantees[h].acts.intersect(as_).contains(b));
    }
    assert(m.can_do(g, a));
}
} // verus!
