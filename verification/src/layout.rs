use vstd::prelude::*;

verus! {

/// Maps local names to dense, zero-based slot indices within a single
/// compilation unit.  `Store` and `Load` instructions refer to these slots.
#[derive(Debug, Clone)]
pub struct LayoutTracker {
    pub locals: Vec<(String, usize)>,
}

impl LayoutTracker {
    /// Slots are dense and zero-based, and no name is registered twice.
    pub open spec fn wf(self) -> bool {
        &&& forall|i: int|
            0 <= i < self.locals@.len() ==> (#[trigger] self.locals@[i]).1 == i
        &&& forall|i: int, j: int|
            0 <= i < j < self.locals@.len() ==> self.locals@[i].0@ != self.locals@[j].0@
    }

    pub open spec fn has_name(self, name: Seq<char>) -> bool {
        exists|i: int| 0 <= i < self.locals@.len() && (#[trigger] self.locals@[i]).0@ == name
    }

    /// What a registration does: an already-present name leaves the layout
    /// unchanged and yields its existing slot; a new name is appended and
    /// yields the next dense slot.
    pub open spec fn register_post(pre: Self, post: Self, name: Seq<char>, slot: usize) -> bool {
        &&& slot < post.locals@.len()
        &&& post.locals@[slot as int].0@ == name
        &&& if pre.has_name(name) {
            post == pre
        } else {
            &&& post.locals@.len() == pre.locals@.len() + 1
            &&& post.locals@.subrange(0, pre.locals@.len() as int) == pre.locals@
            &&& slot == pre.locals@.len()
            &&& post.locals@[slot as int].1 == slot
        }
    }

    /// Registering an already-present name returns the existing slot;
    /// otherwise the name is appended under the next dense slot index.
    pub fn register_local(&mut self, name: String) -> (slot: usize)
        requires
            old(self).wf(),
        ensures
            final(self).wf(),
            Self::register_post(*old(self), *final(self), name@, slot),
    {
        // if already exists, return index
        if let Some(i) = self.get_local(name.as_str()) {
            return i;
        }

        // otherwise, register and return index
        let n = self.locals.len();
        self.locals.push((name, n));
        assert(self.locals@.subrange(0, n as int) =~= old(self).locals@);
        n
    }

    pub fn get_local(&self, name: &str) -> (r: Option<usize>)
        requires
            self.wf(),
        ensures
            match r {
                Some(s) => s < self.locals@.len() && self.locals@[s as int].0@ == name@,
                None => !self.has_name(name@),
            },
    {
        let owned: String = name.to_owned();
        let mut i: usize = 0;
        while i < self.locals.len()
            invariant
                self.wf(),
                owned@ == name@,
                i <= self.locals@.len(),
                forall|j: int| 0 <= j < i ==> self.locals@[j].0@ != name@,
            decreases self.locals@.len() - i,
        {
            if self.locals[i].0 == owned {
                return Some(self.locals[i].1);
            }
            i += 1;
        }
        None
    }

    pub fn new() -> (r: Self)
        ensures
            r.wf(),
            r.locals@.len() == 0,
    {
        Self { locals: Vec::new() }
    }
}

/// Registering the same local name twice returns the same slot, and the
/// second registration leaves the layout unchanged.
pub proof fn lemma_register_local_twice(
    s0: LayoutTracker,
    s1: LayoutTracker,
    s2: LayoutTracker,
    name: Seq<char>,
    slot1: usize,
    slot2: usize,
)
    requires
        s0.wf(),
        s1.wf(),
        LayoutTracker::register_post(s0, s1, name, slot1),
        LayoutTracker::register_post(s1, s2, name, slot2),
    ensures
        slot2 == slot1,
        s2 == s1,
{
    assert(s1.has_name(name));
}

} // verus!
