//! Rebuilding a graph from a compaction log.
//!
//! [`CanDo::compact`](crate::cando::CanDo::compact) returns a log whose
//! membership is pinned by its contract.  This module states what such a log
//! is worth: folding it — in any order — into an empty graph reconstructs
//! the compacted graph exactly, up to the parent edges of roots, which the
//! log deliberately omits.

use vstd::prelude::*;
use crate::cando::{replay_valid, Replay};
use crate::model::{
    closed_graph, no_orphans, no_self_edges, strip_root_parents, GranteeModel, GraphModel,
};

verus! {

/// Absorbing one replay record into a graph.
pub open spec fn apply_replay_m(m: GraphModel, e: Replay) -> GraphModel {
    match e {
        Replay::Grant(g, a) => m.add_grant_m(g, a),
        Replay::ConnectGrantees(g, h) => m.connect_grantees_m(g, h),
        Replay::ConnectActions(mn, sb) => m.connect_actions_m(mn, sb),
        Replay::Root(g) => m.add_root_m(g),
    }
}

/// Absorbing a whole replay log, in order.
pub open spec fn apply_replay_seq_m(m: GraphModel, es: Seq<Replay>) -> GraphModel
    decreases es.len(),
{
    if es.len() == 0 {
        m
    } else {
        apply_replay_seq_m(apply_replay_m(m, es.first()), es.drop_first())
    }
}

/// Appending one record to a log applies it after the log.
pub proof fn lemma_apply_replay_push(m: GraphModel, es: Seq<Replay>, e: Replay)
    ensures
        apply_replay_seq_m(m, es.push(e)) == apply_replay_m(apply_replay_seq_m(m, es), e),
    decreases es.len(),
{
    if es.len() == 0 {
        assert(es.push(e).len() == 1);
        assert(es.push(e).drop_first() =~= Seq::<Replay>::empty());
        assert(es.push(e).first() == e);
        assert(apply_replay_seq_m(m, es) == m);
        assert(apply_replay_seq_m(apply_replay_m(m, e), Seq::<Replay>::empty())
            == apply_replay_m(m, e));
        assert(apply_replay_seq_m(m, es.push(e)) == apply_replay_m(m, e));
    } else {
        assert(es.push(e).first() == es.first());
        assert(es.push(e).drop_first() =~= es.drop_first().push(e));
        lemma_apply_replay_push(apply_replay_m(m, es.first()), es.drop_first(), e);
    }
}

/// `g` occurs somewhere in the log as a grantee.
pub open spec fn log_mentions_grantee(es: Seq<Replay>, g: u64) -> bool {
    ||| exists|h: u64| #[trigger] es.contains(Replay::ConnectGrantees(g, h))
    ||| exists|x: u64| #[trigger] es.contains(Replay::ConnectGrantees(x, g))
    ||| exists|a: u64| #[trigger] es.contains(Replay::Grant(g, a))
    ||| es.contains(Replay::Root(g))
}

/// `a` occurs somewhere in the log as an action.
pub open spec fn log_mentions_action(es: Seq<Replay>, a: u64) -> bool {
    ||| exists|sb: u64| #[trigger] es.contains(Replay::ConnectActions(a, sb))
    ||| exists|mn: u64| #[trigger] es.contains(Replay::ConnectActions(mn, a))
    ||| exists|g: u64| #[trigger] es.contains(Replay::Grant(g, a))
}

/// The graph whose nodes and edges are exactly the facts the log records:
/// each mentioned node exists, and every edge, grant and root mark is read
/// straight off the records.
pub open spec fn log_model(es: Seq<Replay>) -> GraphModel {
    GraphModel {
        grantees: Map::new(
            |g: u64| log_mentions_grantee(es, g),
            |g: u64|
                GranteeModel {
                    parents: Set::new(
                        |h: u64| es.contains(Replay::ConnectGrantees(g, h)),
                    ),
                    acts: Set::new(|a: u64| es.contains(Replay::Grant(g, a))),
                    root: es.contains(Replay::Root(g)),
                },
        ),
        actions: Map::new(
            |a: u64| log_mentions_action(es, a),
            |a: u64| Set::new(|mn: u64| es.contains(Replay::ConnectActions(mn, a))),
        ),
    }
}

/// The log never connects a node to itself.
pub open spec fn log_no_self_edges(es: Seq<Replay>) -> bool {
    &&& forall|g: u64| !(#[trigger] es.contains(Replay::ConnectGrantees(g, g)))
    &&& forall|a: u64| !(#[trigger] es.contains(Replay::ConnectActions(a, a)))
}

/// Folding a self-edge-free log over the empty graph yields exactly the
/// graph of its recorded facts — whatever order the records come in.
pub proof fn lemma_fold_is_log_model(es: Seq<Replay>)
    requires
        log_no_self_edges(es),
    ensures
        apply_replay_seq_m(GraphModel::empty(), es) == log_model(es),
    decreases es.len(),
{
    crate::cando::lemma_contains_push(es.drop_last(), es.last());
    if es.len() == 0 {
        assert(log_model(es).grantees =~= GraphModel::empty().grantees) by {
            assert forall|g: u64| !log_mentions_grantee(es, g) by {
                if log_mentions_grantee(es, g) {
                    assert(false);
                }
            }
        }
        assert(log_model(es).actions =~= GraphModel::empty().actions) by {
            assert forall|a: u64| !log_mentions_action(es, a) by {
                if log_mentions_action(es, a) {
                    assert(false);
                }
            }
        }
        assert(log_model(es) =~= GraphModel::empty());
    } else {
        let es0 = es.drop_last();
        let e = es.last();
        assert(es =~= es0.push(e));
        assert(log_no_self_edges(es0)) by {
            assert forall|g: u64|
                !(#[trigger] es0.contains(Replay::ConnectGrantees(g, g))) by {
                if es0.contains(Replay::ConnectGrantees(g, g)) {
                    assert(es.contains(Replay::ConnectGrantees(g, g)));
                }
            }
            assert forall|a: u64|
                !(#[trigger] es0.contains(Replay::ConnectActions(a, a))) by {
                if es0.contains(Replay::ConnectActions(a, a)) {
                    assert(es.contains(Replay::ConnectActions(a, a)));
                }
            }
        }
        lemma_fold_is_log_model(es0);
        lemma_apply_replay_push(GraphModel::empty(), es0, e);
        let m0 = log_model(es0);
        let m1 = apply_replay_m(m0, e);
        let m2 = log_model(es);
        // Membership in the longer log is membership in the shorter one or
        // being the appended record itself.
        assert forall|e2: Replay| #[trigger] es.contains(e2) <==> es0.contains(e2) || e2 == e by {
            assert(es0.push(e).contains(e2) <==> es0.contains(e2) || e2 == e);
        }
        assert forall|g: u64| #[trigger]
            log_mentions_grantee(es, g) <==> m1.grantees.dom().contains(g) by {
            if log_mentions_grantee(es, g) && !log_mentions_grantee(es0, g) {
                match e {
                    Replay::ConnectGrantees(x, h) => {
                        assert(g == x || g == h);
                    },
                    Replay::Grant(x, a) => {
                        assert(g == x);
                    },
                    Replay::Root(x) => {
                        assert(g == x);
                    },
                    Replay::ConnectActions(_, _) => {
                        assert(false);
                    },
                }
            }
            if m1.grantees.dom().contains(g) && !m0.grantees.dom().contains(g) {
                match e {
                    Replay::ConnectGrantees(x, h) => {
                        assert(es.contains(e));
                        if g == x {
                            assert(log_mentions_grantee(es, g));
                        } else {
                            assert(g == h);
                            assert(log_mentions_grantee(es, g));
                        }
                    },
                    Replay::Grant(x, a) => {
                        assert(g == x);
                        assert(es.contains(e));
                        assert(log_mentions_grantee(es, g));
                    },
                    Replay::Root(x) => {
                        assert(g == x);
                        assert(es.contains(e));
                        assert(log_mentions_grantee(es, g));
                    },
                    Replay::ConnectActions(_, _) => {},
                }
            }
            if log_mentions_grantee(es0, g) {
                assert(log_mentions_grantee(es, g)) by {
                    if exists|h: u64| #[trigger] es0.contains(Replay::ConnectGrantees(g, h)) {
                        let h = choose|h: u64|
                            #[trigger] es0.contains(Replay::ConnectGrantees(g, h));
                        assert(es.contains(Replay::ConnectGrantees(g, h)));
                    } else if exists|x: u64|
                        #[trigger] es0.contains(Replay::ConnectGrantees(x, g)) {
                        let x = choose|x: u64|
                            #[trigger] es0.contains(Replay::ConnectGrantees(x, g));
                        assert(es.contains(Replay::ConnectGrantees(x, g)));
                    } else if exists|a: u64| #[trigger] es0.contains(Replay::Grant(g, a)) {
                        let a = choose|a: u64| #[trigger] es0.contains(Replay::Grant(g, a));
                        assert(es.contains(Replay::Grant(g, a)));
                    } else {
                        assert(es.contains(Replay::Root(g)));
                    }
                }
            }
        }
        assert forall|a: u64| #[trigger]
            log_mentions_action(es, a) <==> m1.actions.dom().contains(a) by {
            if log_mentions_action(es, a) && !log_mentions_action(es0, a) {
                match e {
                    Replay::ConnectActions(mn, sb) => {
                        assert(a == mn || a == sb);
                    },
                    Replay::Grant(g, a2) => {
                        assert(a == a2);
                    },
                    _ => {
                        assert(false);
                    },
                }
            }
            if m1.actions.dom().contains(a) && !m0.actions.dom().contains(a) {
                match e {
                    Replay::ConnectActions(mn, sb) => {
                        assert(es.contains(e));
                        if a == mn {
                            assert(log_mentions_action(es, a));
                        } else {
                            assert(a == sb);
                            assert(log_mentions_action(es, a));
                        }
                    },
                    Replay::Grant(g, a2) => {
                        assert(a == a2);
                        assert(es.contains(e));
                        assert(log_mentions_action(es, a));
                    },
                    _ => {},
                }
            }
            if log_mentions_action(es0, a) {
                assert(log_mentions_action(es, a)) by {
                    if exists|sb: u64| #[trigger] es0.contains(Replay::ConnectActions(a, sb)) {
                        let sb = choose|sb: u64|
                            #[trigger] es0.contains(Replay::ConnectActions(a, sb));
                        assert(es.contains(Replay::ConnectActions(a, sb)));
                    } else if exists|mn: u64|
                        #[trigger] es0.contains(Replay::ConnectActions(mn, a)) {
                        let mn = choose|mn: u64|
                            #[trigger] es0.contains(Replay::ConnectActions(mn, a));
                        assert(es.contains(Replay::ConnectActions(mn, a)));
                    } else {
                        let g = choose|g: u64| #[trigger] es0.contains(Replay::Grant(g, a));
                        assert(es.contains(Replay::Grant(g, a)));
                    }
                }
            }
        }
        assert forall|g: u64| m1.grantees.dom().contains(g) implies #[trigger] m1.grantees[g]
            =~= m2.grantees[g] by {
            assert(m1.grantees[g].parents =~= m2.grantees[g].parents);
            assert(m1.grantees[g].acts =~= m2.grantees[g].acts);
        }
        assert(m1.grantees.dom() =~= m2.grantees.dom());
        assert(m1.grantees =~= m2.grantees);
        assert forall|a: u64| m1.actions.dom().contains(a) implies #[trigger] m1.actions[a]
            =~= m2.actions[a] by {}
        assert(m1.actions.dom() =~= m2.actions.dom());
        assert(m1.actions =~= m2.actions);
        assert(m1 =~= m2);
    }
}

/// The reconstruction law: a log that records exactly the facts of a closed,
/// orphan-free graph — as the log of `compact` does by its contract —
/// rebuilds that graph from empty, up to the parent edges of roots.  The
/// statement constrains the log only through membership, so any reordering
/// of the records rebuilds the same graph.
pub proof fn lemma_replay_reconstructs(m: GraphModel, es: Seq<Replay>)
    requires
        closed_graph(m),
        no_orphans(m),
        no_self_edges(m),
        forall|e: Replay| #[trigger] es.contains(e) <==> replay_valid(m, e),
    ensures
        apply_replay_seq_m(GraphModel::empty(), es) == strip_root_parents(m),
{
    assert(log_no_self_edges(es)) by {
        assert forall|g: u64| !(#[trigger] es.contains(Replay::ConnectGrantees(g, g))) by {
            if es.contains(Replay::ConnectGrantees(g, g)) {
                assert(replay_valid(m, Replay::ConnectGrantees(g, g)));
            }
        }
        assert forall|a: u64| !(#[trigger] es.contains(Replay::ConnectActions(a, a))) by {
            if es.contains(Replay::ConnectActions(a, a)) {
                assert(replay_valid(m, Replay::ConnectActions(a, a)));
            }
        }
    }
    lemma_fold_is_log_model(es);
    let lm = log_model(es);
    let sm = strip_root_parents(m);
    assert forall|g: u64| #[trigger]
        log_mentions_grantee(es, g) <==> m.grantees.dom().contains(g) by {
        if log_mentions_grantee(es, g) {
            if exists|h: u64| #[trigger] es.contains(Replay::ConnectGrantees(g, h)) {
                let h = choose|h: u64| #[trigger] es.contains(Replay::ConnectGrantees(g, h));
                assert(replay_valid(m, Replay::ConnectGrantees(g, h)));
            } else if exists|x: u64| #[trigger] es.contains(Replay::ConnectGrantees(x, g)) {
                let x = choose|x: u64| #[trigger] es.contains(Replay::ConnectGrantees(x, g));
                assert(replay_valid(m, Replay::ConnectGrantees(x, g)));
                assert(m.grantees[x].parents.contains(g));
            } else if exists|a: u64| #[trigger] es.contains(Replay::Grant(g, a)) {
                let a = choose|a: u64| #[trigger] es.contains(Replay::Grant(g, a));
                assert(replay_valid(m, Replay::Grant(g, a)));
            } else {
                assert(replay_valid(m, Replay::Root(g)));
            }
        }
        if m.grantees.dom().contains(g) {
            assert(crate::model::grantee_kept(m, g));
            if m.grantees[g].root {
                assert(replay_valid(m, Replay::Root(g)));
                assert(es.contains(Replay::Root(g)));
                assert(log_mentions_grantee(es, g));
            } else {
                let p2 = choose|p2: u64| #[trigger] m.grantees[g].parents.contains(p2);
                assert(replay_valid(m, Replay::ConnectGrantees(g, p2)));
                assert(es.contains(Replay::ConnectGrantees(g, p2)));
                assert(log_mentions_grantee(es, g));
            }
        }
    }
    assert forall|a: u64| #[trigger]
        log_mentions_action(es, a) <==> m.actions.dom().contains(a) by {
        if log_mentions_action(es, a) {
            if exists|sb: u64| #[trigger] es.contains(Replay::ConnectActions(a, sb)) {
                let sb = choose|sb: u64| #[trigger] es.contains(Replay::ConnectActions(a, sb));
                assert(replay_valid(m, Replay::ConnectActions(a, sb)));
                assert(m.actions[sb].contains(a));
            } else if exists|mn: u64| #[trigger] es.contains(Replay::ConnectActions(mn, a)) {
                let mn = choose|mn: u64| #[trigger] es.contains(Replay::ConnectActions(mn, a));
                assert(replay_valid(m, Replay::ConnectActions(mn, a)));
            } else {
                let g = choose|g: u64| #[trigger] es.contains(Replay::Grant(g, a));
                assert(replay_valid(m, Replay::Grant(g, a)));
                assert(m.grantees[g].acts.contains(a));
            }
        }
        if m.actions.dom().contains(a) {
            assert(crate::model::action_kept(m, a));
            if exists|g: u64|
                #[trigger] m.grantees.dom().contains(g) && m.grantees[g].acts.contains(a) {
                let g = choose|g: u64|
                    #[trigger] m.grantees.dom().contains(g) && m.grantees[g].acts.contains(a);
                assert(replay_valid(m, Replay::Grant(g, a)));
                assert(es.contains(Replay::Grant(g, a)));
                assert(log_mentions_action(es, a));
            } else {
                let s2 = choose|s2: u64|
                    #[trigger] m.actions.dom().contains(s2) && m.actions[s2].contains(a);
                assert(replay_valid(m, Replay::ConnectActions(a, s2)));
                assert(es.contains(Replay::ConnectActions(a, s2)));
                assert(log_mentions_action(es, a));
            }
        }
    }
    assert forall|g: u64| lm.grantees.dom().contains(g) implies #[trigger] lm.grantees[g]
        =~= sm.grantees[g] by {
        assert(lm.grantees[g].parents =~= sm.grantees[g].parents) by {
            assert forall|h: u64| #[trigger]
                es.contains(Replay::ConnectGrantees(g, h)) <==> (!m.grantees[g].root
                    && m.grantees[g].parents.contains(h)) by {}
        }
        assert(lm.grantees[g].acts =~= sm.grantees[g].acts) by {
            assert forall|a: u64| #[trigger]
                es.contains(Replay::Grant(g, a)) <==> m.grantees[g].acts.contains(a) by {}
        }
    }
    assert(lm.grantees.dom() =~= sm.grantees.dom());
    assert(lm.grantees =~= sm.grantees);
    assert forall|a: u64| lm.actions.dom().contains(a) implies #[trigger] lm.actions[a]
        =~= sm.actions[a] by {
        assert forall|mn: u64| #[trigger]
            es.contains(Replay::ConnectActions(mn, a)) <==> m.actions[a].contains(mn) by {}
    }
    assert(lm.actions.dom() =~= sm.actions.dom());
    assert(lm.actions =~= sm.actions);
    assert(lm =~= sm);
}


/// Rebuilds a graph by absorbing a replay log, in order, into an empty one.
pub fn rebuild_from(log: &Vec<Replay>) -> (graph: crate::cando::CanDo)
    ensures
        graph.wf(),
        graph.model() == apply_replay_seq_m(GraphModel::empty(), log@),
{
    let mut graph = crate::cando::CanDo::new();
    let n = log.len();
    let mut i: usize = 0;
    while i < n
        invariant
            n == log@.len(),
            i <= n,
            graph.wf(),
            graph.model() == apply_replay_seq_m(GraphModel::empty(), log@.subrange(0, i as int)),
        decreases n - i,
    {
        let ghost sub0 = log@.subrange(0, i as int);
        let entry = log[i];
        match entry {
            Replay::Grant(g, a) => graph.add_grant(g, a),
            Replay::ConnectGrantees(g, h) => graph.connect_grantees(g, h),
            Replay::ConnectActions(mn, sb) => graph.connect_actions(mn, sb),
            Replay::Root(g) => graph.add_root(g),
        }
        proof {
            lemma_apply_replay_push(GraphModel::empty(), sub0, log@[i as int]);
            assert(log@.subrange(0, i as int + 1) =~= sub0.push(log@[i as int]));
        }
        i = i + 1;
    }
    proof {
        assert(log@.subrange(0, n as int) =~= log@);
    }
    graph
}
} // verus!
