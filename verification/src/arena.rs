//! A slab allocator over a `Vec` of optional slots.
//!
//! Removal tombstones a slot instead of shifting later elements, so every
//! index stays valid until the caller explicitly compacts.  Freed positions
//! are kept on a stack and reused by later insertions, most recent first.

use vstd::prelude::*;
use vstd::multiset::Multiset;

verus! {

broadcast use vstd::multiset::group_multiset_axioms;

// ---------------------------------------------------------------------------
// Ghost model
// ---------------------------------------------------------------------------

/// Ghost description of an arena: the slot sequence (`None` marks a
/// tombstone) and the stack of free positions kept for reuse.
#[verifier::ext_equal]
pub struct ArenaModel<T> {
    pub slots: Seq<Option<T>>,
    pub free: Seq<usize>,
}

/// The multiset of live values stored in `s`.
pub open spec fn contents<T>(s: Seq<Option<T>>) -> Multiset<T>
    decreases s.len(),
{
    if s.len() == 0 {
        Multiset::empty()
    } else {
        match s.last() {
            Some(v) => contents(s.drop_last()).insert(v),
            None => contents(s.drop_last()),
        }
    }
}

impl<T> ArenaModel<T> {
    /// Position `i` holds a live value.
    pub open spec fn live(self, i: int) -> bool {
        0 <= i < self.slots.len() && self.slots[i] is Some
    }

    /// The value stored at live position `i`.
    pub open spec fn value_at(self, i: int) -> T
        recommends
            self.live(i),
    {
        self.slots[i].unwrap()
    }

    /// The free stack lists exactly the tombstoned positions, each once.
    pub open spec fn wf(self) -> bool {
        &&& forall|k: int|
            0 <= k < self.free.len() ==> (#[trigger] self.free[k]) < self.slots.len()
                && self.slots[self.free[k] as int] is None
        &&& forall|i: int|
            0 <= i < self.slots.len() && (#[trigger] self.slots[i]) is None
                ==> self.free.contains(i as usize)
        &&& forall|j: int, k: int|
            #![trigger self.free[j], self.free[k]]
            0 <= j < k < self.free.len() ==> self.free[j] != self.free[k]
    }

    /// The position the next insertion will use.
    pub open spec fn insert_index(self) -> int {
        if self.free.len() == 0 {
            self.slots.len() as int
        } else {
            self.free.last() as int
        }
    }

    /// The model after inserting `value`.
    pub open spec fn inserted(self, value: T) -> ArenaModel<T> {
        if self.free.len() == 0 {
            ArenaModel { slots: self.slots.push(Some(value)), free: self.free }
        } else {
            ArenaModel {
                slots: self.slots.update(self.free.last() as int, Some(value)),
                free: self.free.drop_last(),
            }
        }
    }

    /// The model after removing the value at live position `i`.
    pub open spec fn removed(self, i: int) -> ArenaModel<T>
        recommends
            self.live(i),
    {
        ArenaModel { slots: self.slots.update(i, None), free: self.free.push(i as usize) }
    }
}

// ---------------------------------------------------------------------------
// Lemmas about `contents`
// ---------------------------------------------------------------------------

/// Updating a tombstone to `Some(v)` adds `v` to the stored multiset.
pub proof fn lemma_contents_fill<T>(s: Seq<Option<T>>, i: int, v: T)
    requires
        0 <= i < s.len(),
        s[i] is None,
    ensures
        contents(s.update(i, Some(v))) == contents(s).insert(v),
    decreases s.len(),
{
    let t = s.update(i, Some(v));
    if i == s.len() - 1 {
        assert(t.drop_last() =~= s.drop_last());
    } else {
        lemma_contents_fill(s.drop_last(), i, v);
        assert(t.drop_last() =~= s.drop_last().update(i, Some(v)));
        assert(t.last() == s.last());
        if s.last() is Some {
            assert(contents(t) == contents(s.drop_last()).insert(v).insert(s.last().unwrap()));
            assert(contents(s.drop_last()).insert(v).insert(s.last().unwrap())
                =~= contents(s.drop_last()).insert(s.last().unwrap()).insert(v));
        }
    }
}

/// Tombstoning a live slot removes its value from the stored multiset.
pub proof fn lemma_contents_clear<T>(s: Seq<Option<T>>, i: int)
    requires
        0 <= i < s.len(),
        s[i] is Some,
    ensures
        contents(s).contains(s[i].unwrap()),
        contents(s.update(i, None)) == contents(s).remove(s[i].unwrap()),
    decreases s.len(),
{
    let v = s[i].unwrap();
    let t = s.update(i, None);
    if i == s.len() - 1 {
        assert(t.drop_last() =~= s.drop_last());
        assert(contents(s).remove(v) =~= contents(s.drop_last()).insert(v).remove(v));
        assert(contents(s.drop_last()).insert(v).remove(v) =~= contents(s.drop_last()));
    } else {
        lemma_contents_clear(s.drop_last(), i);
        assert(t.drop_last() =~= s.drop_last().update(i, None));
        assert(t.last() == s.last());
        if s.last() is Some {
            let w = s.last().unwrap();
            assert(contents(t) == contents(s.drop_last()).remove(v).insert(w));
            assert(contents(s.drop_last()).remove(v).insert(w)
                =~= contents(s.drop_last()).insert(w).remove(v));
        }
    }
}

/// A sequence of tombstones stores nothing.
pub proof fn lemma_contents_all_none<T>(s: Seq<Option<T>>)
    requires
        forall|i: int| 0 <= i < s.len() ==> (#[trigger] s[i]) is None,
    ensures
        contents(s) =~= Multiset::empty(),
    decreases s.len(),
{
    if s.len() > 0 {
        lemma_contents_all_none(s.drop_last());
    }
}

/// A sequence with no tombstones stores one value per slot.
pub proof fn lemma_contents_all_some_len<T>(s: Seq<Option<T>>)
    requires
        forall|i: int| 0 <= i < s.len() ==> (#[trigger] s[i]) is Some,
    ensures
        contents(s).len() == s.len(),
    decreases s.len(),
{
    if s.len() > 0 {
        lemma_contents_all_some_len(s.drop_last());
    }
}

/// Dropping an all-tombstone tail does not change the stored multiset.
pub proof fn lemma_contents_drop_none_tail<T>(s: Seq<Option<T>>, m: int)
    requires
        0 <= m <= s.len(),
        forall|i: int| m <= i < s.len() ==> (#[trigger] s[i]) is None,
    ensures
        contents(s.subrange(0, m)) == contents(s),
    decreases s.len() - m,
{
    if m < s.len() {
        assert(s.drop_last() =~= s.subrange(0, s.len() - 1));
        lemma_contents_drop_none_tail(s.subrange(0, s.len() - 1), m);
        assert(s.subrange(0, s.len() - 1).subrange(0, m) =~= s.subrange(0, m));
    } else {
        assert(s.subrange(0, m) =~= s);
    }
}

// ---------------------------------------------------------------------------
// Model-level transition lemmas
// ---------------------------------------------------------------------------

/// Insertion preserves well-formedness and adds the value to the contents.
pub proof fn lemma_inserted_wf<T>(m: ArenaModel<T>, value: T)
    requires
        m.wf(),
        m.slots.len() <= usize::MAX,
    ensures
        m.inserted(value).wf(),
        m.inserted(value).live(m.insert_index()),
        m.inserted(value).value_at(m.insert_index()) == value,
        contents(m.inserted(value).slots) == contents(m.slots).insert(value),
{
    let m2 = m.inserted(value);
    if m.free.len() == 0 {
        assert(m2.slots.drop_last() =~= m.slots);
        assert(contents(m2.slots) == contents(m.slots).insert(value));
        assert forall|i: int|
            0 <= i < m2.slots.len() && (#[trigger] m2.slots[i]) is None
            implies m2.free.contains(i as usize) by {
            assert(m.slots[i] is None);
        }
    } else {
        let reused = m.free.last();
        lemma_contents_fill(m.slots, reused as int, value);
        assert forall|k: int|
            0 <= k < m2.free.len() implies ((#[trigger] m2.free[k]) as int) < m2.slots.len()
            && m2.slots[m2.free[k] as int] is None by {
            assert(m.free[k] != m.free[m.free.len() - 1]);
            assert(m.slots[m.free[k] as int] is None);
        }
        assert forall|i: int|
            0 <= i < m2.slots.len() && (#[trigger] m2.slots[i]) is None
            implies m2.free.contains(i as usize) by {
            assert(m.slots[i] is None);
            let k = choose|k: int| 0 <= k < m.free.len() && m.free[k] == i as usize;
            assert((i as usize) as int == i);
            assert(m2.slots[reused as int] is Some);
            if k == m.free.len() - 1 {
                assert(m.free[k] == reused);
                assert(i == reused as int);
                assert(false);
            }
            assert(m2.free[k] == i as usize);
        }
    }
}

/// Removal preserves well-formedness and deletes the value from the contents.
pub proof fn lemma_removed_wf<T>(m: ArenaModel<T>, i: int)
    requires
        m.wf(),
        m.slots.len() <= usize::MAX,
        m.live(i),
    ensures
        m.removed(i).wf(),
        contents(m.removed(i).slots) == contents(m.slots).remove(m.value_at(i)),
{
    let m2 = m.removed(i);
    lemma_contents_clear(m.slots, i);
    assert forall|j: int, k: int|
        #![trigger m2.free[j], m2.free[k]]
        0 <= j < k < m2.free.len() implies m2.free[j] != m2.free[k] by {
        if k == m2.free.len() - 1 {
            assert(m.slots[m.free[j] as int] is None);
        }
    }
    assert forall|k: int|
        0 <= k < m2.free.len() implies ((#[trigger] m2.free[k]) as int) < m2.slots.len()
        && m2.slots[m2.free[k] as int] is None by {
        if k < m.free.len() {
            assert(m.slots[m.free[k] as int] is None);
            assert((m.free[k] as int) != i);
        }
    }
    assert forall|j: int|
        0 <= j < m2.slots.len() && (#[trigger] m2.slots[j]) is None
        implies m2.free.contains(j as usize) by {
        if j != i {
            assert(m.slots[j] is None);
            let k = choose|k: int| 0 <= k < m.free.len() && m.free[k] == j as usize;
            assert(m2.free[k] == j as usize);
        } else {
            assert(m2.free[m2.free.len() - 1] == j as usize);
        }
    }
}

// ---------------------------------------------------------------------------
// Operation sequences
// ---------------------------------------------------------------------------

/// A single arena operation, for stating laws over whole call sequences.
pub enum ArenaOp<T> {
    Insert(T),
    Remove(usize),
}

/// The model transition of one operation.
pub open spec fn apply_op<T>(m: ArenaModel<T>, op: ArenaOp<T>) -> ArenaModel<T> {
    match op {
        ArenaOp::Insert(v) => m.inserted(v),
        ArenaOp::Remove(i) => m.removed(i as int),
    }
}

/// The model after running all of `ops` in order.
pub open spec fn run_ops<T>(m: ArenaModel<T>, ops: Seq<ArenaOp<T>>) -> ArenaModel<T>
    decreases ops.len(),
{
    if ops.len() == 0 {
        m
    } else {
        run_ops(apply_op(m, ops.first()), ops.drop_first())
    }
}

/// Every removal in `ops` targets a slot that is live when it runs.
pub open spec fn ops_valid<T>(m: ArenaModel<T>, ops: Seq<ArenaOp<T>>) -> bool
    decreases ops.len(),
{
    if ops.len() == 0 {
        true
    } else {
        &&& match ops.first() {
            ArenaOp::Insert(_) => true,
            ArenaOp::Remove(i) => m.live(i as int),
        }
        &&& ops_valid(apply_op(m, ops.first()), ops.drop_first())
    }
}

/// The inserted-but-not-removed balance of `ops`: starting from `start`,
/// each insertion adds its value and each removal deletes the value that the
/// targeted slot holds when the removal runs.
pub open spec fn net_contents<T>(
    start: Multiset<T>,
    m: ArenaModel<T>,
    ops: Seq<ArenaOp<T>>,
) -> Multiset<T>
    decreases ops.len(),
{
    if ops.len() == 0 {
        start
    } else {
        let rest = ops.drop_first();
        match ops.first() {
            ArenaOp::Insert(v) => net_contents(start.insert(v), m.inserted(v), rest),
            ArenaOp::Remove(i) => net_contents(
                start.remove(m.value_at(i as int)),
                m.removed(i as int),
                rest,
            ),
        }
    }
}

/// For every sequence of insert/remove operations that never touches a dead
/// slot, the multiset of values the arena stores equals the multiset of
/// values inserted but not removed.
pub proof fn lemma_contents_tracks_ops<T>(m: ArenaModel<T>, ops: Seq<ArenaOp<T>>)
    requires
        m.wf(),
        m.slots.len() + ops.len() <= usize::MAX,
        ops_valid(m, ops),
    ensures
        run_ops(m, ops).wf(),
        contents(run_ops(m, ops).slots) == net_contents(contents(m.slots), m, ops),
    decreases ops.len(),
{
    if ops.len() > 0 {
        let m1 = apply_op(m, ops.first());
        match ops.first() {
            ArenaOp::Insert(v) => {
                lemma_inserted_wf(m, v);
            },
            ArenaOp::Remove(i) => {
                lemma_removed_wf(m, i as int);
            },
        }
        assert(m1.slots.len() <= m.slots.len() + 1);
        lemma_contents_tracks_ops(m1, ops.drop_first());
    }
}

// ---------------------------------------------------------------------------
// Compaction
// ---------------------------------------------------------------------------

/// Compacting a fully tombstoned arena yields an empty arena and an empty
/// report.
pub proof fn lemma_compact_all_tombstones<T>(
    pre: Seq<Option<T>>,
    post: Seq<Option<T>>,
    moves: Seq<(usize, usize)>,
)
    requires
        compact_spec(pre, post, moves),
        forall|i: int| 0 <= i < pre.len() ==> (#[trigger] pre[i]) is None,
    ensures
        post.len() == 0,
        moves.len() == 0,
{
    lemma_contents_all_none(pre);
    vstd::multiset::lemma_multiset_empty_len::<T>(contents(pre));
    assert(post.len() == 0);
    if moves.len() > 0 {
        assert((moves[0].1 as int) < post.len());
    }
}


/// The elements of `s` appear in non-decreasing order.
pub open spec fn sorted_ascending(s: Seq<usize>) -> bool {
    forall|j: int, k: int|
        #![trigger s[j], s[k]]
        0 <= j < k < s.len() ==> s[j] <= s[k]
}

/// What `Arena::compact` guarantees: `post` packs the live values of `pre`
/// into a tombstone-free prefix, and `moves` lists exactly the elements that
/// changed position, highest origin first, lowest destination first.
pub open spec fn compact_spec<T>(
    pre: Seq<Option<T>>,
    post: Seq<Option<T>>,
    moves: Seq<(usize, usize)>,
) -> bool {
    &&& post.len() == contents(pre).len()
    &&& forall|i: int| 0 <= i < post.len() ==> (#[trigger] post[i]) is Some
    &&& forall|k: int|
        0 <= k < moves.len() ==> {
            let m = #[trigger] moves[k];
            &&& post.len() <= m.0 < pre.len()
            &&& pre[m.0 as int] is Some
            &&& (m.1 as int) < post.len()
            &&& pre[m.1 as int] is None
            &&& post[m.1 as int] == pre[m.0 as int]
        }
    &&& forall|j: int, k: int|
        #![trigger moves[j], moves[k]]
        0 <= j < k < moves.len() ==> moves[j].0 > moves[k].0 && moves[j].1 < moves[k].1
    &&& forall|i: int| 0 <= i < post.len() && (#[trigger] pre[i]) is Some ==> post[i] == pre[i]
    &&& forall|i: int|
        0 <= i < post.len() && (#[trigger] pre[i]) is None ==> exists|k: int|
            0 <= k < moves.len() && (moves[k].1 as int) == i
    &&& forall|i: int|
        post.len() <= i < pre.len() && (#[trigger] pre[i]) is Some ==> exists|k: int|
            0 <= k < moves.len() && (moves[k].0 as int) == i
}

/// Sorts a vector of positions into ascending order by insertion sort.
fn sort_positions(v: &mut Vec<usize>)
    ensures
        sorted_ascending(final(v)@),
        final(v)@.to_multiset() == old(v)@.to_multiset(),
        final(v)@.len() == old(v)@.len(),
{
    broadcast use vstd::seq_lib::group_to_multiset_ensures;
    broadcast use vstd::seq_lib::to_multiset_update;
    broadcast use vstd::multiset::group_multiset_properties;

    let n = v.len();
    if n <= 1 {
        return ;
    }
    let mut i: usize = 1;
    while i < n
        invariant
            n == v@.len(),
            1 <= i <= n,
            v@.to_multiset() == old(v)@.to_multiset(),
            forall|a: int, b: int|
                #![trigger v@[a], v@[b]]
                0 <= a < b < i ==> v@[a] <= v@[b],
        decreases n - i,
    {
        let mut j: usize = i;
        while j > 0 && v[j - 1] > v[j]
            invariant
                n == v@.len(),
                0 <= j <= i < n,
                v@.to_multiset() == old(v)@.to_multiset(),
                forall|a: int, b: int|
                    #![trigger v@[a], v@[b]]
                    0 <= a < b <= i && b != j ==> v@[a] <= v@[b],
            decreases j,
        {
            let ghost s0 = v@;
            let x = v[j - 1];
            let y = v[j];
            v.set(j - 1, y);
            let ghost s1 = v@;
            v.set(j, x);
            proof {
                assert(s0[j - 1] == x);
                assert(s0.contains(x));
                s0.to_multiset_ensures();
                assert(s0.to_multiset().count(x) > 0);
                assert(s1 =~= s0.update(j - 1, y));
                vstd::seq_lib::to_multiset_update::<usize>(s0, j - 1, y);
                assert(s1.to_multiset() == s0.to_multiset().insert(y).remove(x));
                assert(s1[j as int] == y);
                assert(v@ =~= s1.update(j as int, x));
                vstd::seq_lib::to_multiset_update::<usize>(s1, j as int, x);
                assert(v@.to_multiset() == s1.to_multiset().insert(x).remove(y));
                assert(v@.to_multiset() =~= s0.to_multiset());
            }
            j = j - 1;
        }
        i = i + 1;
    }
}

// ---------------------------------------------------------------------------
// The arena
// ---------------------------------------------------------------------------

/// Indexed slab storage with tombstoned removal and index reuse.
pub struct Arena<T> {
    fields: Vec<Option<T>>,
    empty_fields: Vec<usize>,
}

impl<T> Arena<T> {
    /// Ghost view of the arena.
    pub closed spec fn model(&self) -> ArenaModel<T> {
        ArenaModel { slots: self.fields@, free: self.empty_fields@ }
    }

    /// Shorthand for the slot sequence of the model.
    pub open spec fn slots(&self) -> Seq<Option<T>> {
        self.model().slots
    }

    /// Shorthand for well-formedness of the model.
    pub open spec fn wf(&self) -> bool {
        self.model().wf()
    }

    /// Position `i` holds a live value.
    pub open spec fn live(&self, i: int) -> bool {
        self.model().live(i)
    }

    /// Returns a new empty arena.
    pub fn new() -> (arena: Self)
        ensures
            arena.wf(),
            arena.model().slots =~= Seq::<Option<T>>::empty(),
            arena.model().free =~= Seq::<usize>::empty(),
    {
        Arena { fields: Vec::new(), empty_fields: Vec::new() }
    }

    /// The number of slots, live or tombstoned.
    pub fn len(&self) -> (n: usize)
        ensures
            n == self.slots().len(),
    {
        self.fields.len()
    }

    /// The number of positions currently free for reuse.
    pub fn free_count(&self) -> (n: usize)
        ensures
            n == self.model().free.len(),
    {
        self.empty_fields.len()
    }

    /// Inserts `value` and returns its position, reusing the most recently
    /// freed position if one exists.
    pub fn insert(&mut self, value: T) -> (index: usize)
        requires
            old(self).wf(),
        ensures
            final(self).wf(),
            index == old(self).model().insert_index(),
            final(self).model() == old(self).model().inserted(value),
            final(self).live(index as int),
            final(self).model().value_at(index as int) == value,
            contents(final(self).slots()) == contents(old(self).slots()).insert(value),
    {
        let slot_count = self.fields.len();
        proof {
            assert(self.fields@.len() == slot_count);
            if self.empty_fields@.len() > 0 {
                lemma_contents_fill(self.fields@, self.empty_fields@.last() as int, value);
            }
        }
        match self.empty_fields.pop() {
            None => {
                self.fields.push(Some(value));
                let index = self.fields.len() - 1;
                proof {
                    assert(self.model() =~= old(self).model().inserted(value));
                    assert(self.fields@.drop_last() =~= old(self).fields@);
                    assert(contents(self.fields@) == contents(old(self).fields@).insert(value));
                    assert forall|i: int|
                        0 <= i < self.fields@.len() && (#[trigger] self.fields@[i]) is None
                        implies self.empty_fields@.contains(i as usize) by {
                        assert(old(self).model().slots[i] is None);
                    }
                }
                index
            },
            Some(reused_index) => {
                self.fields.set(reused_index, Some(value));
                proof {
                    assert(self.model() =~= old(self).model().inserted(value));
                    let oldm = old(self).model();
                    assert forall|k: int|
                        0 <= k < self.empty_fields@.len() implies ((
                        #[trigger] self.empty_fields@[k]) as int) < self.fields@.len()
                        && self.fields@[self.empty_fields@[k] as int] is None by {
                        assert(oldm.free[k] != oldm.free[oldm.free.len() - 1]);
                        assert(oldm.slots[oldm.free[k] as int] is None);
                    }
                    assert forall|i: int|
                        0 <= i < self.fields@.len() && (#[trigger] self.fields@[i]) is None
                        implies self.empty_fields@.contains(i as usize) by {
                        assert(oldm.slots[i] is None);
                        let k = choose|k: int|
                            0 <= k < oldm.free.len() && oldm.free[k] == i as usize;
                        assert(i <= slot_count);
                        assert((i as usize) as int == i);
                        assert(self.fields@[reused_index as int] is Some);
                        if k == oldm.free.len() - 1 {
                            assert(oldm.free[k] == reused_index);
                            assert(i == reused_index as int);
                            assert(false);
                        }
                        assert(k < oldm.free.len() - 1);
                        assert(self.empty_fields@[k] == i as usize);
                    }
                }
                reused_index
            },
        }
    }

    /// Returns a reference to the value at live position `index`.
    pub fn get(&self, index: usize) -> (value: &T)
        requires
            self.live(index as int),
        ensures
            *value == self.model().value_at(index as int),
    {
        match &self.fields[index] {
            Some(v) => v,
            None => vstd::pervasive::unreached(),
        }
    }

    /// Returns a mutable reference to the value at live position `index`.
    pub fn get_mut(&mut self, index: usize) -> (value: &mut T)
        requires
            old(self).wf(),
            old(self).live(index as int),
        ensures
            *value == old(self).model().value_at(index as int),
            final(self).model().slots == old(self).model().slots.update(
                index as int,
                Some(*final(value)),
            ),
            final(self).model().free == old(self).model().free,
            final(self).wf(),
    {
        let slot = vstd::std_specs::vec::vec_index_mut(&mut self.fields, index);
        match slot {
            Some(v) => v,
            None => vstd::pervasive::unreached(),
        }
    }

    /// Removes and returns the value at live position `index`, recording the
    /// position for reuse.
    pub fn remove(&mut self, index: usize) -> (value: T)
        requires
            old(self).wf(),
            old(self).live(index as int),
        ensures
            final(self).wf(),
            value == old(self).model().value_at(index as int),
            final(self).model() == old(self).model().removed(index as int),
            contents(final(self).slots()) == contents(old(self).slots()).remove(value),
    {
        proof {
            lemma_contents_clear(self.fields@, index as int);
        }
        let slot = vstd::std_specs::vec::vec_index_mut(&mut self.fields, index);
        let value = match slot.take() {
            Some(v) => v,
            None => vstd::pervasive::unreached(),
        };
        self.empty_fields.push(index);
        proof {
            assert(self.model() =~= old(self).model().removed(index as int));
            let oldm = old(self).model();
            assert forall|j: int, k: int|
                #![trigger self.model().free[j], self.model().free[k]]
                0 <= j < k < self.model().free.len() implies self.model().free[j]
                != self.model().free[k] by {
                if k == self.model().free.len() - 1 {
                    assert(oldm.slots[oldm.free[j] as int] is None);
                }
            }
            assert forall|k: int|
                0 <= k < self.empty_fields@.len() implies ((
                #[trigger] self.empty_fields@[k]) as int) < self.fields@.len()
                && self.fields@[self.empty_fields@[k] as int] is None by {
                if k < oldm.free.len() {
                    assert(oldm.slots[oldm.free[k] as int] is None);
                    assert(oldm.free[k] != index);
                }
            }
            assert forall|i: int|
                0 <= i < self.fields@.len() && (#[trigger] self.fields@[i]) is None
                implies self.empty_fields@.contains(i as usize) by {
                if i != index as int {
                    assert(oldm.slots[i] is None);
                    let k = choose|k: int|
                        0 <= k < oldm.free.len() && oldm.free[k] == i as usize;
                    assert(self.empty_fields@[k] == i as usize);
                } else {
                    assert(self.empty_fields@[self.empty_fields@.len() - 1] == i as usize);
                }
            }
        }
        value
    }

    /// Eliminates every tombstone, packing the live values into a prefix and
    /// truncating the backing storage to their count.  Returns the list of
    /// `(from, to)` position moves performed, so that callers can rewrite any
    /// indices they hold; a live value that did not need to move is not
    /// reported.  The walk runs from the highest position downwards, swapping
    /// each live trailing value into the lowest free position still open.
    pub fn compact(&mut self) -> (moves: Vec<(usize, usize)>)
        requires
            old(self).wf(),
        ensures
            final(self).wf(),
            final(self).model().free.len() == 0,
            compact_spec(old(self).slots(), final(self).slots(), moves@),
            contents(final(self).slots()) == contents(old(self).slots()),
    {
        broadcast use vstd::seq_lib::group_to_multiset_ensures;

        let mut moves: Vec<(usize, usize)> = Vec::new();
        if self.empty_fields.len() == 0 {
            proof {
                assert forall|i: int|
                    0 <= i < self.fields@.len() implies (#[trigger] self.fields@[i]) is Some by {
                    if self.fields@[i] is None {
                        assert(self.empty_fields@.contains(i as usize));
                    }
                }
                lemma_contents_all_some_len(self.fields@);
            }
            return moves;
        }

        // Determine whether any live value remains at all.
        let mut any_live = false;
        let mut t: usize = 0;
        while t < self.fields.len()
            invariant
                t <= self.fields@.len(),
                any_live <==> exists|j: int| 0 <= j < t && (#[trigger] self.fields@[j]) is Some,
            decreases self.fields@.len() - t,
        {
            if self.fields[t].is_some() {
                any_live = true;
            }
            t = t + 1;
        }

        if !any_live {
            // Every slot is a tombstone: clear the backing storage outright.
            proof {
                lemma_contents_all_none(self.fields@);
                vstd::multiset::lemma_multiset_empty_len::<T>(contents(self.fields@));
            }
            self.fields.clear();
            self.empty_fields.clear();
            proof {
                lemma_contents_all_none(self.fields@);
            }
            return moves;
        }

        sort_positions(&mut self.empty_fields);
        let ghost s0 = self.fields@;
        let ghost f = self.empty_fields@;
        proof {
            lemma_sorted_free_facts(old(self).model(), f, s0);
        }

        let mut i: usize = self.fields.len();
        let mut new_len: usize = 0;
        loop
            invariant_except_break
                self.empty_fields@ == f,
                compact_loop_inv(s0, f, self.fields@, moves@, i as int),
                i <= s0.len(),
                exists|j: int| 0 <= j < s0.len() && (#[trigger] s0[j]) is Some,
            ensures
                self.empty_fields@ == f,
                self.fields@.len() == s0.len(),
                new_len <= s0.len(),
                forall|j: int| 0 <= j < new_len ==> (#[trigger] self.fields@[j]) is Some,
                forall|j: int|
                    new_len <= j < s0.len() ==> (#[trigger] self.fields@[j]) is None,
                contents(self.fields@) == contents(s0),
                forall|k: int|
                    0 <= k < moves@.len() ==> {
                        let m = #[trigger] moves@[k];
                        &&& new_len <= m.0 < s0.len()
                        &&& s0[m.0 as int] is Some
                        &&& (m.1 as int) < new_len
                        &&& s0[m.1 as int] is None
                        &&& self.fields@[m.1 as int] == s0[m.0 as int]
                    },
                forall|j: int, k: int|
                    #![trigger moves@[j], moves@[k]]
                    0 <= j < k < moves@.len() ==> moves@[j].0 > moves@[k].0 && moves@[j].1
                        < moves@[k].1,
                forall|j: int|
                    0 <= j < new_len && (#[trigger] s0[j]) is Some ==> self.fields@[j] == s0[j],
                forall|j: int|
                    0 <= j < new_len && (#[trigger] s0[j]) is None ==> exists|k: int|
                        0 <= k < moves@.len() && ((#[trigger] moves@[k]).1 as int) == j,
                forall|j: int|
                    new_len <= j < s0.len() && (#[trigger] s0[j]) is Some ==> exists|k: int|
                        0 <= k < moves@.len() && ((#[trigger] moves@[k]).0 as int) == j,
            decreases i,
        {
            let c = moves.len();
            if c == self.empty_fields.len() {
                // Every free position has been filled; everything at or above
                // the cursor was moved down or was a tombstone already.
                new_len = i;
                proof {
                    lemma_compact_break(s0, f, self.fields@, moves@, i as int);
                }
                break ;
            }
            let e = self.empty_fields[c];
            if i == 0 {
                // Unreachable: some slot is live, so it was moved into the
                // first free position before the cursor could reach zero.
                proof {
                    let jj = choose|j: int| 0 <= j < s0.len() && (#[trigger] s0[j]) is Some;
                    assert(exists|k: int|
                        0 <= k < moves@.len() && ((#[trigger] moves@[k]).0 as int) == jj);
                    assert(moves@.len() >= 1);
                    assert((f[0] as int) < 0);
                    assert(false);
                }
                new_len = i;
                break ;
            }
            if i - 1 < e {
                // The walk has crossed below the lowest remaining free
                // position: everything above the cursor is packed already.
                new_len = i;
                proof {
                    assert forall|k: int|
                        moves@.len() <= k < f.len() implies ((#[trigger] f[k]) as int) >= i by {
                        if k > moves@.len() {
                            assert(f[moves@.len() as int] <= f[k]);
                        }
                    }
                    lemma_compact_break(s0, f, self.fields@, moves@, i as int);
                }
                break ;
            }
            let index = i - 1;
            if self.fields[index].is_some() {
                proof {
                    lemma_compact_swap(s0, f, self.fields@, moves@, i as int);
                }
                let ghost s_before = self.fields@;
                let slot = vstd::std_specs::vec::vec_index_mut(&mut self.fields, index);
                let v = match slot.take() {
                    Some(v) => v,
                    None => vstd::pervasive::unreached(),
                };
                self.fields.set(e, Some(v));
                moves.push((index, e));
                proof {
                    assert(self.fields@ =~= s_before.update(index as int, None).update(
                        e as int,
                        s_before[index as int],
                    ));
                }
                i = index;
            } else {
                proof {
                    lemma_compact_skip(s0, f, self.fields@, moves@, i as int);
                }
                i = index;
            }
        }

        proof {
            lemma_contents_drop_none_tail(self.fields@, new_len as int);
        }
        self.fields.truncate(new_len);
        self.empty_fields.clear();
        proof {
            lemma_contents_all_some_len(self.fields@);
            assert(contents(self.fields@).len() == new_len);
        }
        moves
    }
}

// ---------------------------------------------------------------------------
// Proof machinery for `Arena::compact`
// ---------------------------------------------------------------------------

/// Position `j` was written by the walk so far: it is either the origin or
/// the destination of a recorded move.
spec fn compact_touched(f: Seq<usize>, moves: Seq<(usize, usize)>, j: int) -> bool {
    exists|k: int|
        0 <= k < moves.len() && (((#[trigger] moves[k]).0 as int) == j || ((f[k]) as int) == j)
}

/// The state of the compaction walk: positions at or above the cursor `i`
/// have been examined, every live one of them was moved to a consumed free
/// position, and everything else is untouched.
spec fn compact_loop_inv<T>(
    s0: Seq<Option<T>>,
    f: Seq<usize>,
    s: Seq<Option<T>>,
    moves: Seq<(usize, usize)>,
    i: int,
) -> bool {
    &&& s.len() == s0.len()
    &&& s0.len() <= usize::MAX
    &&& sorted_ascending(f)
    &&& f.no_duplicates()
    &&& forall|k: int|
        0 <= k < f.len() ==> ((#[trigger] f[k]) as int) < s0.len() && s0[f[k] as int] is None
    &&& forall|j: int| 0 <= j < s0.len() && (#[trigger] s0[j]) is None ==> f.contains(j as usize)
    &&& 0 <= i <= s0.len()
    &&& moves.len() <= f.len()
    &&& forall|k: int|
        0 <= k < moves.len() ==> {
            let m = #[trigger] moves[k];
            &&& m.1 == f[k]
            &&& i <= m.0 < s0.len()
            &&& s0[m.0 as int] is Some
            &&& (m.1 as int) < (m.0 as int)
        }
    &&& forall|j: int, k: int|
        #![trigger moves[j], moves[k]]
        0 <= j < k < moves.len() ==> moves[j].0 > moves[k].0
    &&& forall|k: int| 0 <= k < moves.len() ==> ((#[trigger] f[k]) as int) < i
    &&& forall|k: int|
        0 <= k < moves.len() ==> s[(#[trigger] f[k]) as int] == s0[moves[k].0 as int]
    &&& forall|k: int| 0 <= k < moves.len() ==> s[(#[trigger] moves[k]).0 as int] is None
    &&& forall|j: int|
        0 <= j < s0.len() && !compact_touched(f, moves, j) ==> s[j] == s0[j]
    &&& forall|j: int|
        i <= j < s0.len() && (#[trigger] s0[j]) is Some ==> exists|k: int|
            0 <= k < moves.len() && ((#[trigger] moves[k]).0 as int) == j
    &&& contents(s) == contents(s0)
}

/// After sorting, the free list still lists exactly the tombstones, each
/// once, now in ascending order.
proof fn lemma_sorted_free_facts<T>(pre: ArenaModel<T>, f: Seq<usize>, s0: Seq<Option<T>>)
    requires
        pre.wf(),
        pre.slots == s0,
        sorted_ascending(f),
        f.to_multiset() == pre.free.to_multiset(),
        f.len() == pre.free.len(),
    ensures
        f.no_duplicates(),
        forall|k: int|
            0 <= k < f.len() ==> ((#[trigger] f[k]) as int) < s0.len() && s0[f[k] as int] is None,
        forall|j: int| 0 <= j < s0.len() && (#[trigger] s0[j]) is None ==> f.contains(j as usize),
{
    broadcast use vstd::seq_lib::group_to_multiset_ensures;

    let oldf = pre.free;
    assert(oldf.no_duplicates());
    oldf.lemma_multiset_has_no_duplicates();
    assert forall|x: usize| f.to_multiset().contains(x) implies f.to_multiset().count(x)
        == 1 by {
        assert(oldf.to_multiset().contains(x));
        assert(oldf.contains(x));
    }
    f.lemma_multiset_has_no_duplicates_conv();
    assert forall|k: int|
        0 <= k < f.len() implies ((#[trigger] f[k]) as int) < s0.len()
        && s0[f[k] as int] is None by {
        assert(f.contains(f[k]));
        assert(f.to_multiset().count(f[k]) > 0);
        assert(oldf.to_multiset().count(f[k]) > 0);
        assert(oldf.contains(f[k]));
        let k0 = choose|k0: int| 0 <= k0 < oldf.len() && oldf[k0] == f[k];
        assert(pre.slots[oldf[k0] as int] is None);
    }
    assert forall|j: int|
        0 <= j < s0.len() && (#[trigger] s0[j]) is None implies f.contains(j as usize) by {
        assert(oldf.contains(j as usize));
        assert(oldf.to_multiset().count(j as usize) > 0);
        assert(f.to_multiset().count(j as usize) > 0);
    }
}

/// When the walk stops — the free list is exhausted, or the cursor has
/// crossed below every remaining free position — the prefix below the cursor
/// is packed with live values and everything above is a tombstone.
proof fn lemma_compact_break<T>(
    s0: Seq<Option<T>>,
    f: Seq<usize>,
    s: Seq<Option<T>>,
    moves: Seq<(usize, usize)>,
    i: int,
)
    requires
        compact_loop_inv(s0, f, s, moves, i),
        forall|k: int| moves.len() <= k < f.len() ==> ((#[trigger] f[k]) as int) >= i,
    ensures
        forall|j: int| 0 <= j < i ==> (#[trigger] s[j]) is Some,
        forall|j: int| i <= j < s0.len() ==> (#[trigger] s[j]) is None,
        forall|j: int| 0 <= j < i && (#[trigger] s0[j]) is Some ==> s[j] == s0[j],
        forall|j: int|
            0 <= j < i && (#[trigger] s0[j]) is None ==> exists|k: int|
                0 <= k < moves.len() && ((#[trigger] moves[k]).1 as int) == j,
        forall|j: int, k: int|
            #![trigger moves[j], moves[k]]
            0 <= j < k < moves.len() ==> moves[j].1 < moves[k].1,
        forall|k: int|
            0 <= k < moves.len() ==> s0[((#[trigger] moves[k]).1) as int] is None && (
            moves[k].1 as int) < i && s[moves[k].1 as int] == s0[moves[k].0 as int],
{
    assert forall|j: int|
        i <= j < s0.len() implies (#[trigger] s[j]) is None by {
        if s0[j] is None {
            assert(f.contains(j as usize));
            let k0 = choose|k0: int| 0 <= k0 < f.len() && f[k0] == j as usize;
            assert(k0 >= moves.len());
            assert((f[k0] as int) >= i);
            assert forall|k: int|
                0 <= k < moves.len() implies !(((#[trigger] moves[k]).0 as int) == j || ((
                f[k]) as int) == j) by {
                assert(s0[moves[k].0 as int] is Some);
                assert((f[k] as int) < i);
            }
            assert(!compact_touched(f, moves, j));
            assert(s[j] == s0[j]);
        } else {
            let k0 = choose|k: int|
                0 <= k < moves.len() && ((#[trigger] moves[k]).0 as int) == j;
            assert(s[moves[k0].0 as int] is None);
        }
    }
    assert forall|j: int|
        0 <= j < i && (#[trigger] s0[j]) is Some implies s[j] == s0[j] by {
        assert forall|k: int|
            0 <= k < moves.len() implies !(((#[trigger] moves[k]).0 as int) == j || ((
            f[k]) as int) == j) by {
            assert(i <= moves[k].0);
            assert(s0[f[k] as int] is None);
        }
        assert(!compact_touched(f, moves, j));
    }
    assert forall|j: int|
        0 <= j < i && (#[trigger] s0[j]) is None implies exists|k: int|
            0 <= k < moves.len() && ((#[trigger] moves[k]).1 as int) == j by {
        assert(f.contains(j as usize));
        let k0 = choose|k0: int| 0 <= k0 < f.len() && f[k0] == j as usize;
        assert(k0 < moves.len());
        assert((moves[k0].1 as int) == j);
    }
    assert forall|j: int| 0 <= j < i implies (#[trigger] s[j]) is Some by {
        if s0[j] is None {
            let k0 = choose|k: int|
                0 <= k < moves.len() && ((#[trigger] moves[k]).1 as int) == j;
            assert(s[f[k0] as int] == s0[moves[k0].0 as int]);
        }
    }
    assert forall|j: int, k: int|
        #![trigger moves[j], moves[k]]
        0 <= j < k < moves.len() implies moves[j].1 < moves[k].1 by {
        assert(f[j] != f[k]);
        assert(f[j] <= f[k]);
    }
    assert forall|k: int|
        0 <= k < moves.len() implies s0[((#[trigger] moves[k]).1) as int] is None && (
        moves[k].1 as int) < i && s[moves[k].1 as int] == s0[moves[k].0 as int] by {
        assert(s0[f[k] as int] is None);
        assert((f[k] as int) < i);
        assert(s[f[k] as int] == s0[moves[k].0 as int]);
    }
}

/// Taking one walk step over a tombstone keeps the walk state intact.
proof fn lemma_compact_skip<T>(
    s0: Seq<Option<T>>,
    f: Seq<usize>,
    s: Seq<Option<T>>,
    moves: Seq<(usize, usize)>,
    i: int,
)
    requires
        compact_loop_inv(s0, f, s, moves, i),
        moves.len() < f.len(),
        i >= 1,
        (f[moves.len() as int] as int) <= i - 1,
        s[i - 1] is None,
    ensures
        compact_loop_inv(s0, f, s, moves, i - 1),
{
    assert forall|k: int|
        0 <= k < moves.len() implies ((#[trigger] f[k]) as int) < i - 1 by {
        if (f[k] as int) == i - 1 {
            assert(s[f[k] as int] == s0[moves[k].0 as int]);
        }
    }
    assert forall|j: int|
        i - 1 <= j < s0.len() && (#[trigger] s0[j]) is Some implies exists|k: int|
            0 <= k < moves.len() && ((#[trigger] moves[k]).0 as int) == j by {
        if j == i - 1 {
            assert forall|k: int|
                0 <= k < moves.len() implies !(((#[trigger] moves[k]).0 as int) == j || ((
                f[k]) as int) == j) by {
                assert(i <= moves[k].0);
            }
            assert(!compact_touched(f, moves, j));
            assert(s[j] == s0[j]);
            assert(false);
        }
    }
}

/// Swapping the live value under the cursor into the lowest open free
/// position extends the walk state by one recorded move.
proof fn lemma_compact_swap<T>(
    s0: Seq<Option<T>>,
    f: Seq<usize>,
    s: Seq<Option<T>>,
    moves: Seq<(usize, usize)>,
    i: int,
)
    requires
        compact_loop_inv(s0, f, s, moves, i),
        moves.len() < f.len(),
        i >= 1,
        (f[moves.len() as int] as int) <= i - 1,
        s[i - 1] is Some,
    ensures
        (f[moves.len() as int] as int) < i - 1 || s[f[moves.len() as int] as int] is None,
        s[f[moves.len() as int] as int] is None,
        s[i - 1] == s0[i - 1],
        compact_loop_inv(
            s0,
            f,
            s.update(i - 1, None).update(f[moves.len() as int] as int, s[i - 1]),
            moves.push((((i - 1) as usize), f[moves.len() as int])),
            i - 1,
        ),
{
    let c = moves.len() as int;
    let e = f[c] as int;
    // Consumed free positions lie strictly below `e`, so neither the cursor
    // slot nor the target slot has been written yet.
    assert forall|k: int| 0 <= k < c implies ((#[trigger] f[k]) as int) < e by {
        assert(f[k] != f[c]);
        assert(f[k] <= f[c]);
    }
    assert forall|k: int|
        0 <= k < c implies !(((#[trigger] moves[k]).0 as int) == i - 1 || ((f[k]) as int) == i
            - 1) by {
        assert(i <= moves[k].0);
        assert((f[k] as int) < e);
    }
    assert(!compact_touched(f, moves, i - 1));
    assert(s[i - 1] == s0[i - 1]);
    assert forall|k: int|
        0 <= k < c implies !(((#[trigger] moves[k]).0 as int) == e || ((f[k]) as int) == e) by {
        assert(s0[moves[k].0 as int] is Some);
        assert(s0[e] is None);
        assert((f[k] as int) < e);
    }
    assert(!compact_touched(f, moves, e));
    assert(s[e] == s0[e]);
    assert(s[e] is None);
    assert(e < i - 1 || e == i - 1);
    assert(e != i - 1) by {
        if e == i - 1 {
            assert(s[i - 1] is Some);
            assert(s[e] is None);
        }
    }

    let s2 = s.update(i - 1, None).update(e, s[i - 1]);
    let m2 = moves.push((((i - 1) as usize), f[c]));
    let v = s[i - 1].unwrap();
    lemma_contents_clear(s, i - 1);
    lemma_contents_fill(s.update(i - 1, None), e, v);
    assert(s.update(i - 1, None).update(e, Some(v)) =~= s2);
    assert(contents(s2) =~= contents(s));

    assert forall|k: int|
        0 <= k < m2.len() implies {
        let m = #[trigger] m2[k];
        &&& m.1 == f[k]
        &&& i - 1 <= m.0 < s0.len()
        &&& s0[m.0 as int] is Some
        &&& (m.1 as int) < (m.0 as int)
    } by {
        if k < c {
            assert(m2[k] == moves[k]);
        }
    }
    assert forall|k: int|
        0 <= k < m2.len() implies s2[(#[trigger] f[k]) as int] == s0[m2[k].0 as int] by {
        if k < c {
            assert(s[f[k] as int] == s0[moves[k].0 as int]);
            assert((f[k] as int) < e);
            assert((f[k] as int) != i - 1);
        }
    }
    assert forall|k: int|
        0 <= k < m2.len() implies s2[(#[trigger] m2[k]).0 as int] is None by {
        if k < c {
            assert(s[moves[k].0 as int] is None);
            assert(i <= moves[k].0);
            assert((moves[k].0 as int) != e) by {
                assert(s0[moves[k].0 as int] is Some);
                assert(s0[e] is None);
            }
        }
    }
    assert forall|j: int|
        0 <= j < s0.len() && !compact_touched(f, m2, j) implies s2[j] == s0[j] by {
        assert(!(((m2[c]).0 as int) == j || ((f[c]) as int) == j));
        assert forall|k: int|
            0 <= k < moves.len() implies !(((#[trigger] moves[k]).0 as int) == j || ((
            f[k]) as int) == j) by {
            assert(m2[k] == moves[k]);
            assert(!(((m2[k]).0 as int) == j || ((f[k]) as int) == j));
        }
        assert(!compact_touched(f, moves, j));
        assert(s[j] == s0[j]);
        assert(j != i - 1);
        assert(j != e);
    }
    assert forall|j: int|
        i - 1 <= j < s0.len() && (#[trigger] s0[j]) is Some implies exists|k: int|
            0 <= k < m2.len() && ((#[trigger] m2[k]).0 as int) == j by {
        if j == i - 1 {
            assert((m2[c].0 as int) == j);
        } else {
            let k0 = choose|k: int|
                0 <= k < moves.len() && ((#[trigger] moves[k]).0 as int) == j;
            assert(m2[k0] == moves[k0]);
            assert((m2[k0].0 as int) == j);
        }
    }
    assert forall|k: int| 0 <= k < m2.len() implies ((#[trigger] f[k]) as int) < i - 1 by {
        if k < c {
            assert((f[k] as int) < e);
        } else {
            assert((f[k] as int) == e);
            assert(e < i - 1);
        }
    }
}

} // verus!
