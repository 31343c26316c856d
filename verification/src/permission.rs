//! The durable, journalled facade over the authorization graph.
//!
//! Every mutation batch is first written to an I/O sink; only once the sink
//! has flushed is the batch applied to the write-side graph and published to
//! the read-side graph.  A batch is therefore visible to readers either
//! completely or not at all, and a batch the sink never made durable is
//! never visible: on any failure both copies are exactly what they were
//! before the call.  If the sink can neither flush nor clear, the engine
//! poisons itself and refuses all further work.

use vstd::prelude::*;
use crate::cando::{CanDo, CanDoError};
use crate::model::GraphModel;

verus! {

/// A failure reported by the journal sink, named after the phase.
#[derive(Debug, PartialEq, Eq, Structural, Clone, Copy)]
pub enum IOError {
    Write,
    Flush,
    Clear,
}

/// A failure reported by the permission engine.
#[derive(Debug, PartialEq, Eq, Structural, Clone, Copy)]
pub enum PermissionError {
    /// The engine is poisoned and refuses all further work.
    Failed,
    /// A reachability query referenced an unknown id.
    Check(CanDoError),
    /// The journal sink failed at the named phase.
    Io(IOError),
}

/// One journalled mutation of the authorization graph.
#[derive(Debug, PartialEq, Eq, Structural, Clone, Copy)]
pub enum Change {
    Clear,
    RemoveGrantee(u64),
    RemoveAction(u64),
    AddGrant(u64, u64),
    RemoveGrant(u64, u64),
    /// Grantee, grantee it inherits from.
    ConnectGrantees(u64, u64),
    DisconnectGrantees(u64, u64),
    /// Main action, sub action.
    ConnectActions(u64, u64),
    DisconnectActions(u64, u64),
    AddRoot(u64),
    RemoveRoot(u64),
}

/// The journal sink.  It must be crash-safe: after a restart, `read_all`
/// replays exactly the changes for which `flush` reported success — never a
/// partial batch, never a cleared batch.
pub trait IO {
    /// Every change journalled so far, in historical order.  Called once
    /// when the engine is built.
    fn read_all(&mut self) -> Vec<Change>;

    /// Appends one record.
    fn write(&mut self, change: &Change) -> Result<(), IOError>;

    /// Durably persists everything written since the previous flush.
    fn flush(&mut self) -> Result<(), IOError>;

    /// Discards everything written since the last successful flush.
    fn clear(&mut self) -> Result<(), IOError>;
}

/// The effect of one change on the id-level graph model.  Removals of
/// missing nodes or edges are tolerated silently, so that replaying an
/// out-of-order log cannot abort.
pub open spec fn apply_change_m(m: GraphModel, c: Change) -> GraphModel {
    match c {
        Change::Clear => GraphModel::empty(),
        Change::RemoveGrantee(g) => if m.has_grantee(g) {
            m.remove_grantee_m(g)
        } else {
            m
        },
        Change::RemoveAction(a) => if m.has_action(a) {
            m.remove_action_m(a)
        } else {
            m
        },
        Change::AddGrant(g, a) => m.add_grant_m(g, a),
        Change::RemoveGrant(g, a) => if m.has_grantee(g) && m.has_action(a) {
            m.remove_grant_m(g, a)
        } else {
            m
        },
        Change::ConnectGrantees(g, h) => m.connect_grantees_m(g, h),
        Change::DisconnectGrantees(g, h) => if m.has_grantee(g) && m.has_grantee(h) {
            m.disconnect_grantees_m(g, h)
        } else {
            m
        },
        Change::ConnectActions(mn, sb) => m.connect_actions_m(mn, sb),
        Change::DisconnectActions(mn, sb) => if m.has_action(mn) && m.has_action(sb) {
            m.disconnect_actions_m(mn, sb)
        } else {
            m
        },
        Change::AddRoot(g) => m.add_root_m(g),
        Change::RemoveRoot(g) => m.remove_root_m(g),
    }
}

/// The effect of a whole batch, applied in order.
pub open spec fn apply_batch_m(m: GraphModel, cs: Seq<Change>) -> GraphModel
    decreases cs.len(),
{
    if cs.len() == 0 {
        m
    } else {
        apply_batch_m(apply_change_m(m, cs.first()), cs.drop_first())
    }
}

/// Appending one change to a batch applies it after the batch.
pub proof fn lemma_apply_batch_push(m: GraphModel, cs: Seq<Change>, c: Change)
    ensures
        apply_batch_m(m, cs.push(c)) == apply_change_m(apply_batch_m(m, cs), c),
    decreases cs.len(),
{
    if cs.len() == 0 {
        assert(cs.push(c).len() == 1);
        assert(cs.push(c).drop_first() =~= Seq::<Change>::empty());
        assert(cs.push(c).first() == c);
        assert(apply_batch_m(m, cs) == m);
        assert(apply_batch_m(apply_change_m(m, c), Seq::<Change>::empty()) == apply_change_m(
            m,
            c,
        ));
        assert(apply_batch_m(m, cs.push(c)) == apply_change_m(m, c));
    } else {
        assert(cs.push(c).first() == cs.first());
        assert(cs.push(c).drop_first() =~= cs.drop_first().push(c));
        lemma_apply_batch_push(apply_change_m(m, cs.first()), cs.drop_first(), c);
    }
}

/// Applies one change to a graph, honouring the per-operation missing-node
/// policies but tolerating removals of missing nodes, as replay requires.
fn absorb(graph: &mut CanDo, change: &Change)
    requires
        old(graph).wf(),
    ensures
        final(graph).wf(),
        final(graph).model() == apply_change_m(old(graph).model(), *change),
{
    match change {
        Change::Clear => graph.clear(),
        Change::RemoveGrantee(g) => {
            let _ = graph.remove_grantee(*g);
        },
        Change::RemoveAction(a) => {
            let _ = graph.remove_action(*a);
        },
        Change::AddGrant(g, a) => graph.add_grant(*g, *a),
        Change::RemoveGrant(g, a) => {
            let _ = graph.remove_grant(*g, *a);
        },
        Change::ConnectGrantees(g, h) => graph.connect_grantees(*g, *h),
        Change::DisconnectGrantees(g, h) => {
            let _ = graph.disconnect_grantees(*g, *h);
        },
        Change::ConnectActions(mn, sb) => graph.connect_actions(*mn, *sb),
        Change::DisconnectActions(mn, sb) => {
            let _ = graph.disconnect_actions(*mn, *sb);
        },
        Change::AddRoot(g) => graph.add_root(*g),
        Change::RemoveRoot(g) => graph.remove_root(*g),
    }
}

/// Replays a change history, in order, into a fresh graph.  Removals of
/// missing nodes are swallowed silently, as an out-of-order log requires.
pub fn replay_history(history: &Vec<Change>) -> (graph: CanDo)
    ensures
        graph.wf(),
        graph.model() == apply_batch_m(GraphModel::empty(), history@),
{
    let mut graph = CanDo::new();
    let n = history.len();
    let mut i: usize = 0;
    while i < n
        invariant
            n == history@.len(),
            i <= n,
            graph.wf(),
            graph.model() == apply_batch_m(GraphModel::empty(), history@.subrange(0, i as int)),
        decreases n - i,
    {
        let ghost sub0 = history@.subrange(0, i as int);
        absorb(&mut graph, &history[i]);
        proof {
            lemma_apply_batch_push(GraphModel::empty(), sub0, history@[i as int]);
            assert(history@.subrange(0, i as int + 1) =~= sub0.push(history@[i as int]));
        }
        i = i + 1;
    }
    proof {
        assert(history@.subrange(0, n as int) =~= history@);
    }
    graph
}

/// The authorization engine: a poisoned flag, a write-side graph, the
/// read-side graph that queries run against, and the owned journal sink.
/// The two copies agree between calls; a batch reaches them only after the
/// sink has flushed it.
pub struct Permission<S> {
    is_failed: bool,
    write_side: CanDo,
    read_side: CanDo,
    io: S,
}

impl<S: IO> Permission<S> {
    /// The engine refuses all further work.
    pub closed spec fn poisoned(&self) -> bool {
        self.is_failed
    }

    /// The graph that readers observe.
    pub closed spec fn reader(&self) -> GraphModel {
        self.read_side.model()
    }

    /// The graph that the writer has built up, published or not.
    pub closed spec fn writer(&self) -> GraphModel {
        self.write_side.model()
    }

    /// Both graph copies are well-formed and agree: nothing journalled is
    /// ever left unpublished between calls.
    pub closed spec fn wf(&self) -> bool {
        &&& self.write_side.wf()
        &&& self.read_side.wf()
        &&& self.read_side.model() == self.write_side.model()
    }

    /// Builds an engine by replaying the sink's history into both graph
    /// copies and publishing that state as the first reader snapshot.
    pub fn new(io: S) -> (p: Permission<S>)
        ensures
            p.wf(),
            !p.poisoned(),
            p.reader() == p.writer(),
    {
        let mut io = io;
        let history = io.read_all();
        let write_side = replay_history(&history);
        let read_side = replay_history(&history);
        Permission { is_failed: false, write_side, read_side, io }
    }

    /// Journals `changes` to the sink and, once the sink has flushed,
    /// applies them to both graph copies, publishing them to readers.  A
    /// batch is visible to readers either completely or not at all, and a
    /// batch the sink never made durable is never visible: on any failure
    /// both copies are exactly what they were before the call.  If the sink
    /// fails to flush and then also fails to clear, the engine poisons
    /// itself.
    pub fn change(&mut self, changes: Vec<Change>) -> (r: Result<(), PermissionError>)
        requires
            old(self).wf(),
        ensures
            final(self).wf(),
            old(self).poisoned() ==> {
                &&& r == Result::<(), PermissionError>::Err(PermissionError::Failed)
                &&& final(self).poisoned()
                &&& final(self).reader() == old(self).reader()
                &&& final(self).writer() == old(self).writer()
            },
            r matches Ok(_) ==> {
                &&& !old(self).poisoned()
                &&& !final(self).poisoned()
                &&& final(self).writer() == apply_batch_m(old(self).writer(), changes@)
                &&& final(self).reader() == final(self).writer()
            },
            r matches Err(_) ==> {
                &&& final(self).reader() == old(self).reader()
                &&& final(self).writer() == old(self).writer()
            },
            !old(self).poisoned() ==> r != Result::<(), PermissionError>::Err(
                PermissionError::Failed,
            ) && !(r matches Err(PermissionError::Check(_))),
            !old(self).poisoned() && final(self).poisoned() ==> r matches Err(
                PermissionError::Io(_),
            ),
    {
        if self.is_failed {
            return Err(PermissionError::Failed);
        }

        // Journal the whole batch before touching either graph copy.
        let n = changes.len();
        let mut i: usize = 0;
        while i < n
            invariant
                n == changes@.len(),
                i <= n,
                self.write_side == old(self).write_side,
                self.read_side == old(self).read_side,
                self.is_failed == old(self).is_failed,
                !old(self).poisoned(),
                old(self).wf(),
            decreases n - i,
        {
            if let Err(write_error) = self.io.write(&changes[i]) {
                return Err(PermissionError::Io(write_error));
            }
            i = i + 1;
        }

        // Flush before applying anything: a batch the sink did not make
        // durable must never become visible.  On flush failure ask the sink
        // to discard the batch, and poison the engine if even that fails.
        if let Err(flush_error) = self.io.flush() {
            if let Err(clear_error) = self.io.clear() {
                self.is_failed = true;
                return Err(PermissionError::Io(clear_error));
            }
            return Err(PermissionError::Io(flush_error));
        }

        // Publish: apply the flushed batch to both copies.
        let ghost w0 = self.write_side.model();
        let mut i2: usize = 0;
        while i2 < n
            invariant
                n == changes@.len(),
                i2 <= n,
                self.is_failed == old(self).is_failed,
                !old(self).poisoned(),
                w0 == old(self).write_side.model(),
                self.read_side.wf(),
                self.write_side.wf(),
                self.read_side.model() == self.write_side.model(),
                self.write_side.model() == apply_batch_m(w0, changes@.subrange(0, i2 as int)),
            decreases n - i2,
        {
            let c = changes[i2];
            let ghost sub0 = changes@.subrange(0, i2 as int);
            absorb(&mut self.write_side, &c);
            absorb(&mut self.read_side, &c);
            proof {
                lemma_apply_batch_push(w0, sub0, c);
                assert(changes@.subrange(0, i2 as int + 1) =~= sub0.push(c));
            }
            i2 = i2 + 1;
        }
        proof {
            assert(changes@.subrange(0, n as int) =~= changes@);
        }
        Ok(())
    }

    /// Answers whether `grantee_id` may perform `action_id` against the
    /// published reader snapshot.  A poisoned engine refuses the query.
    pub fn check(&self, grantee_id: u64, action_id: u64) -> (r: Result<bool, PermissionError>)
        requires
            self.wf(),
        ensures
            self.poisoned() <==> r == Result::<bool, PermissionError>::Err(
                PermissionError::Failed,
            ),
            !self.poisoned() ==> (r matches Ok(b) ==> self.reader().has_grantee(grantee_id)
                && self.reader().has_action(action_id) && b == self.reader().can_do(
                grantee_id,
                action_id,
            )),
            !self.poisoned() ==> (r == Result::<bool, PermissionError>::Err(
                PermissionError::Check(CanDoError::GranteeNotFound),
            ) <==> !self.reader().has_grantee(grantee_id)),
            !self.poisoned() ==> (r == Result::<bool, PermissionError>::Err(
                PermissionError::Check(CanDoError::ActionNotFound),
            ) <==> self.reader().has_grantee(grantee_id) && !self.reader().has_action(action_id)),
    {
        if self.is_failed {
            return Err(PermissionError::Failed);
        }
        match self.read_side.can_grantee_do(grantee_id, action_id) {
            Ok(result) => Ok(result),
            Err(check_error) => Err(PermissionError::Check(check_error)),
        }
    }
}

} // verus!
