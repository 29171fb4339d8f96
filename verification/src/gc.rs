use vstd::prelude::*;
use vstd::pervasive::VecAdditionalExecFns;

use crate::hashmap::holds_index;
use crate::object::{Object, ObjectPtr, Value};

verus! {

pub open spec fn slot_live(slots: Seq<Option<Object>>, i: int) -> bool {
    0 <= i < slots.len() && slots[i] is Some
}

pub open spec fn slot_value(slots: Seq<Option<Object>>, i: int) -> Value {
    slots[i]->Some_0.value
}

pub open spec fn slot_marked(slots: Seq<Option<Object>>, i: int) -> bool {
    slots[i]->Some_0.marked
}

/// Object `i` is live and refers to slot `c`.
pub open spec fn is_child(slots: Seq<Option<Object>>, i: int, c: int) -> bool {
    slot_live(slots, i) && slot_value(slots, i).child_set().contains(c)
}

/// `s` is closed under the heap's child relation.
pub open spec fn closed_set(slots: Seq<Option<Object>>, s: Set<int>) -> bool {
    forall|i: int, c: int| s.contains(i) && #[trigger] is_child(slots, i, c) ==> s.contains(c)
}

/// Slot `i` is reachable from the root set: it belongs to every child-closed
/// superset of the roots.
pub open spec fn reachable(slots: Seq<Option<Object>>, roots: Set<int>, i: int) -> bool {
    forall|s: Set<int>| roots.subset_of(s) && closed_set(slots, s) ==> #[trigger] s.contains(i)
}

/// The heap indices held by a vector of references.
pub open spec fn ptr_index_set(v: Seq<ObjectPtr>) -> Set<int> {
    Set::new(|x: int| holds_index(v, x))
}

pub open spec fn count_live(slots: Seq<Option<Object>>) -> nat
    decreases slots.len(),
{
    if slots.len() == 0 {
        0
    } else {
        count_live(slots.drop_last()) + (if slots.last() is Some {
            1nat
        } else {
            0nat
        })
    }
}

pub open spec fn count_unmarked(slots: Seq<Option<Object>>) -> nat
    decreases slots.len(),
{
    if slots.len() == 0 {
        0
    } else {
        count_unmarked(slots.drop_last()) + (
        if slots.last() is Some && !slots.last()->Some_0.marked {
            1nat
        } else {
            0nat
        })
    }
}

/// A root is reachable from its own root set.
pub proof fn lemma_roots_reachable(slots: Seq<Option<Object>>, roots: Set<int>, r: int)
    requires
        roots.contains(r),
    ensures
        reachable(slots, roots, r),
{
}

/// Reachability follows child edges.
pub proof fn lemma_reachable_child(slots: Seq<Option<Object>>, roots: Set<int>, i: int, c: int)
    requires
        reachable(slots, roots, i),
        is_child(slots, i, c),
    ensures
        reachable(slots, roots, c),
{
    assert forall|s: Set<int>|
        roots.subset_of(s) && closed_set(slots, s) implies #[trigger] s.contains(c) by {
        assert(s.contains(i));
    }
}

/// Growing the root set by slots that were already reachable adds nothing
/// new: reaching from the closure of `a` plus `b` is reaching from `a` plus
/// `b`.
pub proof fn lemma_reachable_absorb(slots: Seq<Option<Object>>, a: Set<int>, b: Set<int>)
    ensures
        forall|i: int|
            reachable(slots, Set::new(|x: int| reachable(slots, a, x)).union(b), i)
                == reachable(slots, a.union(b), i),
{
    let ra = Set::new(|x: int| reachable(slots, a, x));
    assert forall|i: int|
        reachable(slots, ra.union(b), i) == reachable(slots, a.union(b), i) by {
        if reachable(slots, ra.union(b), i) {
            assert forall|s: Set<int>|
                a.union(b).subset_of(s) && closed_set(slots, s) implies #[trigger] s.contains(
                i,
            ) by {
                assert forall|x: int| ra.union(b).contains(x) implies s.contains(x) by {
                    if ra.contains(x) {
                        assert(a.subset_of(s));
                    }
                }
                assert(ra.union(b).subset_of(s));
            }
        }
        if reachable(slots, a.union(b), i) {
            assert forall|s: Set<int>|
                ra.union(b).subset_of(s) && closed_set(slots, s) implies #[trigger] s.contains(
                i,
            ) by {
                assert forall|x: int| a.union(b).contains(x) implies s.contains(x) by {
                    if a.contains(x) {
                        lemma_roots_reachable(slots, a, x);
                        assert(ra.contains(x));
                    }
                }
                assert(a.union(b).subset_of(s));
            }
        }
    }
}

/// Reachability depends only on which slots are live and what values they
/// hold, not on mark bits.
pub proof fn lemma_reachable_congruent(
    s1: Seq<Option<Object>>,
    s2: Seq<Option<Object>>,
    roots: Set<int>,
)
    requires
        s1.len() == s2.len(),
        forall|i: int| slot_live(s1, i) == slot_live(s2, i),
        forall|i: int| slot_live(s1, i) ==> slot_value(s1, i) == slot_value(s2, i),
    ensures
        forall|i: int| reachable(s1, roots, i) == reachable(s2, roots, i),
{
    assert forall|i: int, c: int| is_child(s1, i, c) == is_child(s2, i, c) by {
        if slot_live(s1, i) {
            assert(slot_value(s1, i) == slot_value(s2, i));
        }
    }
    assert forall|i: int| reachable(s1, roots, i) == reachable(s2, roots, i) by {
        if reachable(s1, roots, i) {
            assert forall|s: Set<int>|
                roots.subset_of(s) && closed_set(s2, s) implies #[trigger] s.contains(i) by {
                assert forall|a: int, c: int|
                    s.contains(a) && #[trigger] is_child(s1, a, c) implies s.contains(c) by {
                    assert(is_child(s2, a, c));
                }
                assert(closed_set(s1, s));
            }
        }
        if reachable(s2, roots, i) {
            assert forall|s: Set<int>|
                roots.subset_of(s) && closed_set(s1, s) implies #[trigger] s.contains(i) by {
                assert forall|a: int, c: int|
                    s.contains(a) && #[trigger] is_child(s2, a, c) implies s.contains(c) by {
                    assert(is_child(s1, a, c));
                }
                assert(closed_set(s2, s));
            }
        }
    }
}

/// From live roots, along always-live edges, only live slots are reached.
pub proof fn lemma_reachable_live(slots: Seq<Option<Object>>, roots: Set<int>)
    requires
        forall|r: int| roots.contains(r) ==> slot_live(slots, r),
        forall|i: int, c: int| #[trigger] is_child(slots, i, c) ==> slot_live(slots, c),
    ensures
        forall|i: int| reachable(slots, roots, i) ==> slot_live(slots, i),
{
    let liveset = Set::new(|y: int| slot_live(slots, y));
    assert forall|i: int, c: int|
        liveset.contains(i) && #[trigger] is_child(slots, i, c) implies liveset.contains(c) by {}
    assert(closed_set(slots, liveset));
    assert(roots.subset_of(liveset));
    assert forall|i: int| reachable(slots, roots, i) implies slot_live(slots, i) by {
        assert(liveset.contains(i));
    }
}

proof fn lemma_count_live_update(s: Seq<Option<Object>>, i: int, x: Option<Object>)
    requires
        0 <= i < s.len(),
    ensures
        count_live(s.update(i, x)) == count_live(s) + (if x is Some {
            1int
        } else {
            0int
        }) - (if s[i] is Some {
            1int
        } else {
            0int
        }),
    decreases s.len(),
{
    if i == s.len() - 1 {
        assert(s.update(i, x).drop_last() =~= s.drop_last());
        assert(s.update(i, x).last() == x);
    } else {
        assert(s.update(i, x).drop_last() =~= s.drop_last().update(i, x));
        assert(s.update(i, x).last() == s.last());
        lemma_count_live_update(s.drop_last(), i, x);
    }
}

proof fn lemma_count_unmarked_update(s: Seq<Option<Object>>, i: int, x: Option<Object>)
    requires
        0 <= i < s.len(),
    ensures
        count_unmarked(s.update(i, x)) == count_unmarked(s) + (
        if x is Some && !x->Some_0.marked {
            1int
        } else {
            0int
        }) - (if s[i] is Some && !s[i]->Some_0.marked {
            1int
        } else {
            0int
        }),
    decreases s.len(),
{
    if i == s.len() - 1 {
        assert(s.update(i, x).drop_last() =~= s.drop_last());
        assert(s.update(i, x).last() == x);
    } else {
        assert(s.update(i, x).drop_last() =~= s.drop_last().update(i, x));
        assert(s.update(i, x).last() == s.last());
        lemma_count_unmarked_update(s.drop_last(), i, x);
    }
}

proof fn lemma_count_live_mono(s1: Seq<Option<Object>>, s2: Seq<Option<Object>>)
    requires
        s1.len() == s2.len(),
        forall|i: int| slot_live(s1, i) ==> slot_live(s2, i),
    ensures
        count_live(s1) <= count_live(s2),
    decreases s1.len(),
{
    if s1.len() > 0 {
        assert forall|i: int|
            slot_live(s1.drop_last(), i) implies slot_live(s2.drop_last(), i) by {
            assert(s1.drop_last()[i] == s1[i]);
            assert(slot_live(s1, i));
            assert(s2.drop_last()[i] == s2[i]);
        }
        lemma_count_live_mono(s1.drop_last(), s2.drop_last());
        if s1.last() is Some {
            assert(slot_live(s1, s1.len() - 1));
            assert(slot_live(s2, s2.len() - 1));
        }
    }
}

proof fn lemma_count_live_le_len(s: Seq<Option<Object>>)
    ensures
        count_live(s) <= s.len(),
    decreases s.len(),
{
    if s.len() > 0 {
        lemma_count_live_le_len(s.drop_last());
    }
}

proof fn lemma_count_live_push(s: Seq<Option<Object>>, x: Option<Object>)
    ensures
        count_live(s.push(x)) == count_live(s) + (if x is Some {
            1int
        } else {
            0int
        }),
{
    assert(s.push(x).drop_last() =~= s);
}

/// The heap: a single-threaded, non-moving mark-and-sweep collector over an
/// arena of slots.  An object reference is a slot index, and a slot is never
/// reused while its object is reachable from the roots handed to the
/// collector.
#[derive(Debug)]
pub struct GCSystem {
    pub slots: Vec<Option<Object>>,
    pub num_objects: usize,
    pub max_objects: usize,
    pub all_allocated: Vec<ObjectPtr>,
}

impl GCSystem {
    pub open spec fn live(self, i: int) -> bool {
        slot_live(self.slots@, i)
    }

    pub open spec fn value_at(self, i: int) -> Value {
        slot_value(self.slots@, i)
    }

    pub open spec fn marked(self, i: int) -> bool {
        slot_marked(self.slots@, i)
    }

    pub open spec fn marked_set(self) -> Set<int> {
        Set::new(|i: int| self.live(i) && self.marked(i))
    }

    /// Every reference held by a live object leads to a live object.
    pub open spec fn children_live(self) -> bool {
        forall|i: int, c: int| #[trigger] is_child(self.slots@, i, c) ==> self.live(c)
    }

    /// Every child of a marked object is marked.
    pub open spec fn marked_closed(self) -> bool {
        forall|i: int, c: int|
            self.marked(i) && #[trigger] is_child(self.slots@, i, c) ==> self.marked(c)
    }

    pub open spec fn all_clear(self) -> bool {
        forall|i: int| self.live(i) ==> !self.marked(i)
    }

    /// The heap's invariant between operations: the object count is the
    /// number of live slots, children of live objects are live, and no mark
    /// bit is set.
    pub open spec fn wf(self) -> bool {
        &&& self.num_objects == count_live(self.slots@)
        &&& self.children_live()
        &&& self.all_clear()
    }

    pub fn new(max_objects: usize) -> (r: Self)
        ensures
            r.wf(),
            r.slots@.len() == 0,
            r.num_objects == 0,
            r.max_objects == max_objects,
            r.all_allocated@.len() == 0,
    {
        Self { slots: Vec::new(), num_objects: 0, max_objects, all_allocated: Vec::new() }
    }

    /// Every reference ever handed out, in allocation order.
    pub fn get_all_allocated(&self) -> (r: &Vec<ObjectPtr>)
        ensures
            *r == self.all_allocated,
    {
        &self.all_allocated
    }

    pub fn num_objects(&self) -> (r: usize)
        ensures
            r == self.num_objects,
    {
        self.num_objects
    }

    /// A view of the object a live reference points at.
    pub fn object_at(&self, p: ObjectPtr) -> (r: Option<&Object>)
        ensures
            match r {
                Some(o) => self.live(p.index as int) && o.value == self.value_at(p.index as int),
                None => !self.live(p.index as int),
            },
    {
        if p.index >= self.slots.len() {
            return None;
        }
        match &self.slots[p.index] {
            Some(o) => Some(o),
            None => None,
        }
    }

    fn is_marked(&self, idx: usize) -> (r: bool)
        requires
            self.live(idx as int),
        ensures
            r == self.marked(idx as int),
    {
        match &self.slots[idx] {
            Some(o) => o.marked,
            None => {
                proof {
                    assert(false);
                }
                false
            }
        }
    }

    fn children_of(&self, idx: usize) -> (r: Vec<ObjectPtr>)
        requires
            self.live(idx as int),
        ensures
            forall|j: int|
                0 <= j < r@.len() ==> self.value_at(idx as int).child_set().contains(
                    (#[trigger] r@[j]).index as int,
                ),
            forall|x: int| self.value_at(idx as int).child_set().contains(x) ==> holds_index(r@, x),
    {
        match &self.slots[idx] {
            Some(o) => o.value.children(),
            None => {
                proof {
                    assert(false);
                }
                Vec::new()
            }
        }
    }

    fn set_marked(&mut self, idx: usize, m: bool)
        requires
            old(self).live(idx as int),
        ensures
            final(self).slots@.len() == old(self).slots@.len(),
            final(self).slots@ == old(self).slots@.update(
                idx as int,
                Some(Object { marked: m, value: old(self).value_at(idx as int) }),
            ),
            final(self).num_objects == old(self).num_objects,
            final(self).max_objects == old(self).max_objects,
            final(self).all_allocated == old(self).all_allocated,
    {
        let mut tmp: Option<Object> = None;
        self.slots.set_and_swap(idx, &mut tmp);
        match tmp {
            Some(mut o) => {
                o.marked = m;
                let mut back = Some(o);
                self.slots.set_and_swap(idx, &mut back);
                proof {
                    assert(final(self).slots@ =~= old(self).slots@.update(
                        idx as int,
                        Some(Object { marked: m, value: old(self).value_at(idx as int) }),
                    ));
                }
            }
            None => {
                proof {
                    assert(false);
                }
            }
        }
    }

    /// Depth-first marking with an explicit worklist: afterwards exactly the
    /// slots reachable from the already-marked set plus `root` are marked.
    /// Depth-first marking with an explicit worklist: afterwards exactly the
    /// slots reachable from the already-marked set plus `root` are marked.
    pub fn mark_all(&mut self, root: ObjectPtr)
        requires
            old(self).children_live(),
            old(self).marked_closed(),
            old(self).live(root.index as int),
        ensures
            final(self).slots@.len() == old(self).slots@.len(),
            forall|i: int| final(self).live(i) == old(self).live(i),
            forall|i: int|
                old(self).live(i) ==> final(self).value_at(i) == old(self).value_at(i),
            final(self).children_live(),
            final(self).marked_closed(),
            forall|i: int|
                old(self).live(i) ==> (final(self).marked(i) <==> reachable(
                    old(self).slots@,
                    old(self).marked_set().insert(root.index as int),
                    i,
                )),
            final(self).num_objects == old(self).num_objects,
            final(self).max_objects == old(self).max_objects,
            final(self).all_allocated == old(self).all_allocated,
    {
        let ghost slots0 = self.slots@;
        let ghost target = old(self).marked_set().insert(root.index as int);

        let mut stack: Vec<ObjectPtr> = Vec::new();
        stack.push(root);

        proof {
            lemma_roots_reachable(slots0, target, root.index as int);
            assert(stack@[0].index == root.index);
            assert(holds_index(stack@, root.index as int));
        }

        while stack.len() > 0
            invariant
                self.slots@.len() == slots0.len(),
                forall|i: int| self.live(i) == slot_live(slots0, i),
                forall|i: int|
                    slot_live(slots0, i) ==> self.value_at(i) == slot_value(slots0, i),
                forall|i: int, c: int| #[trigger] is_child(slots0, i, c) ==> slot_live(slots0, c),
                self.num_objects == old(self).num_objects,
                self.max_objects == old(self).max_objects,
                self.all_allocated == old(self).all_allocated,
                forall|j: int|
                    0 <= j < stack@.len() ==> slot_live(
                        slots0,
                        (#[trigger] stack@[j]).index as int,
                    ) && reachable(slots0, target, stack@[j].index as int),
                forall|i: int|
                    self.live(i) && self.marked(i) ==> reachable(slots0, target, i),
                forall|i: int|
                    slot_live(slots0, i) && slot_marked(slots0, i) ==> self.marked(i),
                slot_live(slots0, root.index as int),
                self.marked(root.index as int) || holds_index(stack@, root.index as int),
                forall|i: int, c: int|
                    self.marked(i) && #[trigger] is_child(self.slots@, i, c) ==> (self.marked(c)
                        || holds_index(stack@, c)),
            decreases count_unmarked(self.slots@), stack@.len(),
        {
            let ghost pre_slots = self.slots@;
            let ghost pre_stack = stack@;
            let p = match stack.pop() {
                Some(p) => p,
                None => {
                    proof {
                        assert(false);
                    }
                    ObjectPtr { index: 0 }
                }
            };
            let idx = p.index;
            proof {
                assert(pre_stack[pre_stack.len() - 1] == p);
            }
            if !self.is_marked(idx) {
                let children = self.children_of(idx);
                let ghost childseq = children@;
                let ghost childval = self.value_at(idx as int);
                proof {
                    assert(childval == slot_value(slots0, idx as int));
                }
                self.set_marked(idx, true);
                proof {
                    lemma_count_unmarked_update(
                        pre_slots,
                        idx as int,
                        self.slots@[idx as int],
                    );
                }
                let mut children_vec = children;
                stack.append(&mut children_vec);
                proof {
                    assert forall|i: int| self.live(i) == slot_live(slots0, i) by {
                        if 0 <= i < slots0.len() && i != idx {
                            assert(self.slots@[i] == pre_slots[i]);
                        }
                    }
                    // every pushed child is live and reachable
                    assert forall|j: int|
                        0 <= j < stack@.len() implies slot_live(
                        slots0,
                        (#[trigger] stack@[j]).index as int,
                    ) && reachable(slots0, target, stack@[j].index as int) by {
                        if j < pre_stack.len() - 1 {
                            assert(stack@[j] == pre_stack[j]);
                        } else {
                            let c = stack@[j];
                            assert(c == childseq[j - (pre_stack.len() - 1)]);
                            assert(childval.child_set().contains(c.index as int));
                            assert(is_child(slots0, idx as int, c.index as int));
                            lemma_reachable_child(slots0, target, idx as int, c.index as int);
                        }
                    }
                    // marked children remain covered by marks or the stack
                    assert forall|i: int, c: int|
                        self.marked(i) && #[trigger] is_child(self.slots@, i, c) implies (
                    self.marked(c) || holds_index(stack@, c)) by {
                        assert(slot_value(self.slots@, i) == slot_value(pre_slots, i));
                        if i == idx {
                            assert(childval.child_set().contains(c));
                            assert(holds_index(childseq, c));
                            let j = choose|j: int|
                                0 <= j < childseq.len() && (#[trigger] childseq[j]).index == c;
                            assert(stack@[pre_stack.len() - 1 + j] == childseq[j]);
                            assert(holds_index(stack@, c));
                        } else {
                            assert(is_child(pre_slots, i, c));
                            assert(slot_marked(pre_slots, i));
                            assert(slot_value(slots0, i) == slot_value(pre_slots, i));
                            assert(is_child(slots0, i, c));
                            assert(slot_live(slots0, c));
                            if !slot_marked(pre_slots, c) && !self.marked(c) {
                                assert(holds_index(pre_stack, c));
                                let j = choose|j: int|
                                    0 <= j < pre_stack.len() && (#[trigger] pre_stack[j]).index
                                        == c;
                                if j < pre_stack.len() - 1 {
                                    assert(pre_stack.subrange(0, pre_stack.len() - 1)[j]
                                        == pre_stack[j]);
                                    assert(stack@[j] == pre_stack[j]);
                                    assert(holds_index(stack@, c));
                                } else {
                                    assert(c == idx as int);
                                    assert(false);
                                }
                            } else {
                                if slot_marked(pre_slots, c) {
                                    if c == idx {
                                    } else {
                                        assert(self.slots@[c] == pre_slots[c]);
                                    }
                                    assert(self.marked(c));
                                }
                            }
                        }
                    }
                    // the root stays covered
                    if !self.marked(root.index as int) {
                        assert(self.marked(idx as int));
                        assert(root.index != idx);
                        assert(self.slots@[root.index as int] == pre_slots[root.index as int]);
                        assert(!slot_marked(pre_slots, root.index as int));
                        assert(holds_index(pre_stack, root.index as int));
                        let j = choose|j: int|
                            0 <= j < pre_stack.len() && (#[trigger] pre_stack[j]).index
                                == root.index;
                        if j < pre_stack.len() - 1 {
                            assert(pre_stack.subrange(0, pre_stack.len() - 1)[j] == pre_stack[j]);
                            assert(stack@[j] == pre_stack[j]);
                            assert(holds_index(stack@, root.index as int));
                        } else {
                            assert(false);
                        }
                    }
                }
            } else {
                proof {
                    // popping an already-marked reference keeps every
                    // invariant: any pointer to it is covered by its mark
                    assert forall|i: int, c: int|
                        self.marked(i) && #[trigger] is_child(self.slots@, i, c) implies (
                    self.marked(c) || holds_index(stack@, c)) by {
                        if !self.marked(c) {
                            assert(holds_index(pre_stack, c));
                            let j = choose|j: int|
                                0 <= j < pre_stack.len() && (#[trigger] pre_stack[j]).index == c;
                            assert(j < pre_stack.len() - 1);
                            assert(stack@[j] == pre_stack[j]);
                            assert(holds_index(stack@, c));
                        }
                    }
                    if !self.marked(root.index as int) {
                        let j = choose|j: int|
                            0 <= j < pre_stack.len() && (#[trigger] pre_stack[j]).index
                                == root.index;
                        assert(j < pre_stack.len() - 1);
                        assert(stack@[j] == pre_stack[j]);
                        assert(holds_index(stack@, root.index as int));
                    }
                }
            }
        }

        proof {
            // with the worklist empty, the marked set is closed and contains
            // the old marks and the root, so it contains everything reachable
            let ms = self.marked_set();
            assert forall|x: int| target.contains(x) implies ms.contains(x) by {
                if x == root.index as int {
                } else {
                    assert(slot_live(slots0, x) && slot_marked(slots0, x));
                }
            }
            assert(target.subset_of(ms));
            assert forall|i: int, c: int|
                ms.contains(i) && #[trigger] is_child(slots0, i, c) implies ms.contains(c) by {
                assert(slot_value(self.slots@, i) == slot_value(slots0, i));
                assert(is_child(self.slots@, i, c));
                assert(self.marked(c) || holds_index(Seq::<ObjectPtr>::empty(), c));
                assert(slot_live(slots0, c));
            }
            assert(closed_set(slots0, ms));
            assert forall|i: int|
                slot_live(slots0, i) implies (self.marked(i) <==> reachable(
                slots0,
                target,
                i,
            )) by {
                if reachable(slots0, target, i) {
                    assert(ms.contains(i));
                }
            }
            // the collector only toggles mark bits, so children stay live
            assert forall|i: int, c: int|
                #[trigger] is_child(self.slots@, i, c) implies self.live(c) by {
                assert(slot_value(self.slots@, i) == slot_value(slots0, i));
                assert(is_child(slots0, i, c));
            }
            // and the marked set is closed in the final heap as well
            assert forall|i: int, c: int|
                self.marked(i) && #[trigger] is_child(self.slots@, i, c) implies self.marked(
                c,
            ) by {
                assert(self.marked(c) || holds_index(Seq::<ObjectPtr>::empty(), c));
            }
        }
    }

    pub fn sweep(&mut self) -> (n: usize)
        requires
            forall|i: int, c: int|
                slot_marked(old(self).slots@, i) && #[trigger] is_child(old(self).slots@, i, c)
                    ==> old(self).live(c) && old(self).marked(c),
        ensures
            final(self).slots@.len() == old(self).slots@.len(),
            forall|i: int|
                final(self).live(i) <==> (old(self).live(i) && old(self).marked(i)),
            forall|i: int|
                final(self).live(i) ==> final(self).value_at(i) == old(self).value_at(i),
            final(self).children_live(),
            final(self).all_clear(),
            n == count_live(final(self).slots@),
            final(self).num_objects == old(self).num_objects,
            final(self).max_objects == old(self).max_objects,
            final(self).all_allocated == old(self).all_allocated,
    {
        let ghost slots0 = self.slots@;
        let mut n: usize = 0;
        let mut i: usize = 0;
        while i < self.slots.len()
            invariant
                i <= self.slots@.len(),
                self.slots@.len() == slots0.len(),
                forall|j: int|
                    i <= j < slots0.len() ==> self.slots@[j] == slots0[j],
                forall|j: int|
                    0 <= j < i ==> ((#[trigger] self.slots@[j]) is Some <==> (slots0[j] is Some
                        && slots0[j]->Some_0.marked)),
                forall|j: int|
                    0 <= j < i && (#[trigger] self.slots@[j]) is Some ==> self.slots@[j]->Some_0.value
                        == slots0[j]->Some_0.value && !self.slots@[j]->Some_0.marked,
                n == count_live(self.slots@.subrange(0, i as int)),
                n <= i,
                self.num_objects == old(self).num_objects,
                self.max_objects == old(self).max_objects,
                self.all_allocated == old(self).all_allocated,
            decreases self.slots@.len() - i,
        {
            let ghost pre = self.slots@;
            let mut keep = false;
            match &self.slots[i] {
                Some(o) => {
                    if o.marked {
                        keep = true;
                    }
                }
                None => {}
            }
            if keep {
                self.set_marked(i, false);
                n = n + 1;
            } else {
                self.slots.set(i, None);
            }
            proof {
                assert(self.slots@.subrange(0, i + 1).drop_last() =~= self.slots@.subrange(
                    0,
                    i as int,
                ));
                assert(self.slots@.subrange(0, i + 1).last() == self.slots@[i as int]);
                assert(self.slots@.subrange(0, i as int) =~= pre.subrange(0, i as int));
            }
            i += 1;
        }
        proof {
            assert(self.slots@.subrange(0, self.slots@.len() as int) =~= self.slots@);
            assert forall|j: int| self.live(j) implies self.value_at(j) == slot_value(slots0, j)
                && !self.marked(j) by {
                assert(0 <= j < slots0.len());
                assert(self.slots@[j] is Some);
            }
            assert forall|j: int|
                slot_live(slots0, j) && slot_marked(slots0, j) implies self.live(j) by {
                assert(self.slots@[j] is Some);
            }
            assert forall|a: int, c: int|
                #[trigger] is_child(self.slots@, a, c) implies self.live(c) by {
                assert(slot_live(slots0, a) && slot_marked(slots0, a));
                assert(slot_value(slots0, a) == self.value_at(a));
                assert(is_child(slots0, a, c));
            }
        }
        n
    }

    /// The mark phase: afterwards exactly the slots reachable from `roots`
    /// are marked, and the marked set is closed under child edges.  The
    /// heap's contents do not change.
    pub fn mark_from_roots(&mut self, roots: &Vec<ObjectPtr>)
        requires
            old(self).wf(),
            forall|j: int|
                0 <= j < roots@.len() ==> old(self).live((#[trigger] roots@[j]).index as int),
        ensures
            final(self).slots@.len() == old(self).slots@.len(),
            forall|i: int| final(self).live(i) == old(self).live(i),
            forall|i: int|
                old(self).live(i) ==> final(self).value_at(i) == old(self).value_at(i),
            final(self).children_live(),
            final(self).marked_closed(),
            forall|i: int|
                old(self).live(i) ==> (final(self).marked(i) <==> reachable(
                    old(self).slots@,
                    ptr_index_set(roots@),
                    i,
                )),
            final(self).num_objects == old(self).num_objects,
            final(self).max_objects == old(self).max_objects,
            final(self).all_allocated == old(self).all_allocated,
    {
        let ghost slots0 = self.slots@;
        let ghost rootset = ptr_index_set(roots@);

        proof {
            assert forall|r: int| rootset.contains(r) implies slot_live(slots0, r) by {
                let j = choose|j: int|
                    0 <= j < roots@.len() && (#[trigger] roots@[j]).index == r;
            }
            lemma_reachable_live(slots0, rootset);
            // nothing is marked yet, and nothing is reachable from no roots
            assert(roots@.subrange(0, 0) =~= Seq::<ObjectPtr>::empty());
            assert(ptr_index_set(Seq::<ObjectPtr>::empty()) =~= Set::<int>::empty());
            assert forall|i: int|
                slot_live(slots0, i) implies !reachable(
                slots0,
                ptr_index_set(roots@.subrange(0, 0)),
                i,
            ) by {
                if reachable(slots0, Set::<int>::empty(), i) {
                    assert(closed_set(slots0, Set::<int>::empty()));
                    assert(Set::<int>::empty().contains(i));
                }
            }
        }

        let mut k: usize = 0;
        while k < roots.len()
            invariant
                forall|j: int|
                    0 <= j < roots@.len() ==> slot_live(slots0, (#[trigger] roots@[j]).index as int),
                k <= roots@.len(),
                self.slots@.len() == slots0.len(),
                forall|i: int| self.live(i) == slot_live(slots0, i),
                forall|i: int|
                    slot_live(slots0, i) ==> self.value_at(i) == slot_value(slots0, i),
                forall|i: int, c: int| #[trigger] is_child(slots0, i, c) ==> slot_live(slots0, c),
                self.children_live(),
                self.marked_closed(),
                self.num_objects == old(self).num_objects,
                self.max_objects == old(self).max_objects,
                self.all_allocated == old(self).all_allocated,
                forall|i: int|
                    slot_live(slots0, i) ==> (self.marked(i) <==> reachable(
                        slots0,
                        ptr_index_set(roots@.subrange(0, k as int)),
                        i,
                    )),
            decreases roots@.len() - k,
        {
            let ghost prefix = ptr_index_set(roots@.subrange(0, k as int));
            let ghost pre_marked = self.marked_set();
            let ghost ra = Set::new(|x: int| reachable(slots0, prefix, x));
            proof {
                // the marked set so far is exactly the closure of the
                // processed prefix
                assert forall|r: int| prefix.contains(r) implies slot_live(slots0, r) by {
                    let j = choose|j: int|
                        0 <= j < roots@.subrange(0, k as int).len() && (#[trigger] roots@.subrange(
                            0,
                            k as int,
                        )[j]).index == r;
                    assert(roots@[j] == roots@.subrange(0, k as int)[j]);
                }
                lemma_reachable_live(slots0, prefix);
                assert(pre_marked =~= ra) by {
                    assert forall|x: int| pre_marked.contains(x) implies ra.contains(x) by {
                        assert(slot_live(slots0, x));
                    }
                    assert forall|x: int| ra.contains(x) implies pre_marked.contains(x) by {
                        assert(slot_live(slots0, x));
                    }
                }
            }
            let r = roots[k];
            let ghost pre = *self;
            self.mark_all(r);
            proof {
                // reachability over the marked heap equals reachability over
                // the original one: only mark bits changed
                lemma_reachable_congruent(pre.slots@, slots0, pre_marked.insert(r.index as int));
                // processing one more root extends the prefix by its index
                let nextprefix = ptr_index_set(roots@.subrange(0, k + 1));
                assert(nextprefix =~= prefix.insert(r.index as int)) by {
                    assert forall|x: int| nextprefix.contains(x) implies prefix.insert(
                        r.index as int,
                    ).contains(x) by {
                        let j = choose|j: int|
                            0 <= j < roots@.subrange(0, k + 1).len() && (#[trigger] roots@.subrange(
                                0,
                                k + 1,
                            )[j]).index == x;
                        if j < k {
                            assert(roots@.subrange(0, k as int)[j].index == x);
                            assert(holds_index(roots@.subrange(0, k as int), x));
                        } else {
                            assert(x == r.index as int);
                        }
                    }
                    assert forall|x: int|
                        prefix.insert(r.index as int).contains(x) implies nextprefix.contains(
                        x,
                    ) by {
                        if x == r.index as int {
                            assert(roots@.subrange(0, k + 1)[k as int].index == x);
                            assert(holds_index(roots@.subrange(0, k + 1), x));
                        } else {
                            let j = choose|j: int|
                                0 <= j < roots@.subrange(0, k as int).len() && (
                                #[trigger] roots@.subrange(0, k as int)[j]).index == x;
                            assert(roots@.subrange(0, k + 1)[j].index == x);
                            assert(holds_index(roots@.subrange(0, k + 1), x));
                        }
                    }
                }
                // R(R(prefix) ∪ {r}) == R(prefix ∪ {r})
                let rsingle = Set::<int>::empty().insert(r.index as int);
                lemma_reachable_absorb(slots0, prefix, rsingle);
                assert(pre_marked.insert(r.index as int) =~= ra.union(rsingle));
                assert(prefix.union(rsingle) =~= prefix.insert(r.index as int));
                assert forall|i: int|
                    slot_live(slots0, i) implies (self.marked(i) <==> reachable(
                    slots0,
                    nextprefix,
                    i,
                )) by {
                    assert(self.marked(i) <==> reachable(
                        slots0,
                        pre_marked.insert(r.index as int),
                        i,
                    ));
                    assert(reachable(slots0, pre_marked.insert(r.index as int), i)
                        == reachable(slots0, ra.union(rsingle), i));
                    assert(reachable(slots0, ra.union(rsingle), i) == reachable(
                        slots0,
                        prefix.union(rsingle),
                        i,
                    ));
                }
            }
            k += 1;
        }

        proof {
            assert(roots@.subrange(0, roots@.len() as int) =~= roots@);
        }
    }

    /// Marks everything reachable from `roots`, sweeps the rest, and updates
    /// the object count.  Exactly the reachable objects survive, each in its
    /// original slot with its original value; in particular every root
    /// survives.
    pub fn collect_garbage(&mut self, roots: &Vec<ObjectPtr>)
        requires
            old(self).wf(),
            forall|j: int|
                0 <= j < roots@.len() ==> old(self).live((#[trigger] roots@[j]).index as int),
        ensures
            final(self).wf(),
            final(self).slots@.len() == old(self).slots@.len(),
            final(self).max_objects == old(self).max_objects,
            final(self).all_allocated == old(self).all_allocated,
            forall|i: int|
                final(self).live(i) <==> (old(self).live(i) && reachable(
                    old(self).slots@,
                    ptr_index_set(roots@),
                    i,
                )),
            forall|i: int|
                final(self).live(i) ==> final(self).value_at(i) == old(self).value_at(i),
            final(self).num_objects == count_live(final(self).slots@),
            forall|j: int|
                0 <= j < roots@.len() ==> final(self).live((#[trigger] roots@[j]).index as int)
                    && final(self).value_at(roots@[j].index as int) == old(self).value_at(
                    roots@[j].index as int,
                ),
    {
        let ghost slots0 = self.slots@;
        let ghost rootset = ptr_index_set(roots@);

        self.mark_from_roots(roots);
        proof {
            // marked children of marked objects are live and marked, as the
            // sweep requires
            assert forall|i: int, c: int|
                slot_marked(self.slots@, i) && #[trigger] is_child(self.slots@, i, c) implies
                self.live(c) && self.marked(c) by {}
        }

        let ghost mid = *self;
        let num_objects = self.sweep();
        let ghost after_sweep = *self;
        self.num_objects = num_objects;
        proof {
            assert(self.slots@ == after_sweep.slots@);
            assert forall|i: int| self.live(i) implies !self.marked(i) by {
                assert(after_sweep.live(i));
                assert(!after_sweep.marked(i));
            }
            assert forall|i: int, c: int|
                #[trigger] is_child(self.slots@, i, c) implies self.live(c) by {
                assert(is_child(after_sweep.slots@, i, c));
                assert(after_sweep.live(c));
            }
            assert forall|i: int|
                self.live(i) <==> (old(self).live(i) && reachable(slots0, rootset, i)) by {
                assert(after_sweep.live(i) <==> (mid.live(i) && mid.marked(i)));
                if old(self).live(i) {
                    assert(mid.live(i));
                    assert(mid.marked(i) <==> reachable(slots0, rootset, i));
                }
            }
        }

        proof {
            assert forall|j: int|
                0 <= j < roots@.len() implies final(self).live(
                (#[trigger] roots@[j]).index as int,
            ) by {
                lemma_roots_reachable(slots0, rootset, roots@[j].index as int);
            }
        }
    }

    fn find_free_slot(&self) -> (r: Option<usize>)
        ensures
            match r {
                Some(i) => i < self.slots@.len() && self.slots@[i as int] is None,
                None => forall|j: int| 0 <= j < self.slots@.len() ==> self.slots@[j] is Some,
            },
    {
        let mut i: usize = 0;
        while i < self.slots.len()
            invariant
                i <= self.slots@.len(),
                forall|j: int| 0 <= j < i ==> self.slots@[j] is Some,
            decreases self.slots@.len() - i,
        {
            let mut free = false;
            match &self.slots[i] {
                None => {
                    free = true;
                }
                Some(_) => {}
            }
            if free {
                return Some(i);
            }
            i += 1;
        }
        None
    }

    /// Allocates `obj` in the heap and returns a fresh reference to it.  If
    /// the heap is at its configured object limit, a full collection with
    /// the given roots runs first; everything reachable from the roots
    /// survives it unmoved.
    pub fn new_object(&mut self, obj: Object, roots: &Vec<ObjectPtr>) -> (p: ObjectPtr)
        requires
            old(self).wf(),
            !obj.marked,
            forall|j: int|
                0 <= j < roots@.len() ==> old(self).live((#[trigger] roots@[j]).index as int),
            forall|c: int|
                obj.value.child_set().contains(c) ==> old(self).live(c) && reachable(
                    old(self).slots@,
                    ptr_index_set(roots@),
                    c,
                ),
        ensures
            final(self).wf(),
            final(self).live(p.index as int),
            final(self).value_at(p.index as int) == obj.value,
            !old(self).live(p.index as int) || !reachable(
                old(self).slots@,
                ptr_index_set(roots@),
                p.index as int,
            ),
            final(self).max_objects == old(self).max_objects,
            final(self).all_allocated@ == old(self).all_allocated@.push(p),
            final(self).num_objects <= old(self).num_objects + 1,
            // everything reachable from the roots survives in place
            forall|i: int|
                old(self).live(i) && reachable(old(self).slots@, ptr_index_set(roots@), i)
                    ==> i != p.index && final(self).live(i) && final(self).value_at(i) == old(
                    self,
                ).value_at(i),
            // a full heap first collects: beyond the new object, only what
            // was reachable from the roots is still live
            old(self).num_objects == old(self).max_objects ==> (forall|i: int|
                final(self).live(i) ==> i == p.index || (old(self).live(i) && reachable(
                    old(self).slots@,
                    ptr_index_set(roots@),
                    i,
                ))),
            // without a collection nothing else changes
            old(self).num_objects != old(self).max_objects ==> (forall|i: int|
                i != p.index ==> final(self).live(i) == old(self).live(i) && (old(self).live(i)
                    ==> final(self).value_at(i) == old(self).value_at(i))),
    {
        let ghost pre = *old(self);
        let ghost rootset = ptr_index_set(roots@);
        let collected: bool = self.num_objects == self.max_objects;
        if collected {
            self.collect_garbage(roots);
        }
        let ghost mid = *self;
        proof {
            if !collected {
                assert(mid == pre);
            }
            assert(mid.wf());
        }

        let idx: usize = match self.find_free_slot() {
            Some(i) => {
                let ghost preslots = self.slots@;
                self.slots.set(i, Some(obj));
                proof {
                    lemma_count_live_update(preslots, i as int, self.slots@[i as int]);
                    lemma_count_live_le_len(self.slots@);
                }
                i
            }
            None => {
                let i = self.slots.len();
                let ghost preslots = self.slots@;
                self.slots.push(Some(obj));
                proof {
                    lemma_count_live_push(preslots, self.slots@[i as int]);
                    lemma_count_live_le_len(self.slots@);
                }
                i
            }
        };
        let n_slots = self.slots.len();
        proof {
            lemma_count_live_le_len(self.slots@);
            assert(count_live(self.slots@) == count_live(mid.slots@) + 1);
            assert(count_live(self.slots@) <= n_slots);
            if collected {
                assert forall|i: int|
                    slot_live(mid.slots@, i) implies slot_live(pre.slots@, i) by {
                    assert(mid.live(i));
                    assert(pre.live(i));
                }
                lemma_count_live_mono(mid.slots@, pre.slots@);
            }
        }
        self.num_objects = self.num_objects + 1;
        let p = ObjectPtr { index: idx };
        self.all_allocated.push(p);
        proof {
            assert forall|i: int, c: int|
                #[trigger] is_child(self.slots@, i, c) implies self.live(c) by {
                if i == idx as int {
                    assert(obj.value.child_set().contains(c));
                    assert(mid.live(c));
                } else {
                    assert(is_child(mid.slots@, i, c));
                }
            }
            assert forall|i: int| self.live(i) implies !self.marked(i) by {
                if i != idx as int {
                    assert(mid.live(i) && !mid.marked(i));
                }
            }
            assert forall|i: int|
                pre.live(i) && reachable(pre.slots@, rootset, i) implies i != p.index
                && self.live(i) && self.value_at(i) == pre.value_at(i) by {}
            if collected {
                assert forall|i: int| #![trigger self.live(i)]
                    self.live(i) implies i == p.index || (pre.live(i) && reachable(
                    pre.slots@,
                    rootset,
                    i,
                )) by {
                    if i != p.index {
                        assert(mid.live(i));
                        assert(pre.live(i) && reachable(pre.slots@, rootset, i));
                    }
                }
            }
        }
        p
    }

    pub fn new_object_from_value(&mut self, value: Value, roots: &Vec<ObjectPtr>) -> (p: ObjectPtr)
        requires
            old(self).wf(),
            forall|j: int|
                0 <= j < roots@.len() ==> old(self).live((#[trigger] roots@[j]).index as int),
            forall|c: int|
                value.child_set().contains(c) ==> old(self).live(c) && reachable(
                    old(self).slots@,
                    ptr_index_set(roots@),
                    c,
                ),
        ensures
            final(self).wf(),
            final(self).live(p.index as int),
            final(self).value_at(p.index as int) == value,
            final(self).max_objects == old(self).max_objects,
            final(self).all_allocated@ == old(self).all_allocated@.push(p),
            final(self).num_objects <= old(self).num_objects + 1,
            forall|i: int|
                old(self).live(i) && reachable(old(self).slots@, ptr_index_set(roots@), i)
                    ==> i != p.index && final(self).live(i) && final(self).value_at(i) == old(
                    self,
                ).value_at(i),
            old(self).num_objects == old(self).max_objects ==> (forall|i: int|
                final(self).live(i) ==> i == p.index || (old(self).live(i) && reachable(
                    old(self).slots@,
                    ptr_index_set(roots@),
                    i,
                ))),
            old(self).num_objects != old(self).max_objects ==> (forall|i: int|
                i != p.index ==> final(self).live(i) == old(self).live(i) && (old(self).live(i)
                    ==> final(self).value_at(i) == old(self).value_at(i))),
    {
        self.new_object(Object::new(value), roots)
    }
}

} // verus!
