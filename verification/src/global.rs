use vstd::prelude::*;

verus! {

/// A flat table assigning dense indices to global names, in registration
/// order.
#[derive(Debug)]
pub struct GlobalTable {
    pub table: Vec<(String, usize)>,
}

impl GlobalTable {
    /// Indices are dense and zero-based, and no name is registered twice.
    pub open spec fn wf(self) -> bool {
        &&& forall|i: int|
            0 <= i < self.table@.len() ==> (#[trigger] self.table@[i]).1 == i
        &&& forall|i: int, j: int|
            0 <= i < j < self.table@.len() ==> self.table@[i].0@ != self.table@[j].0@
    }

    pub open spec fn has_name(self, name: Seq<char>) -> bool {
        exists|i: int| 0 <= i < self.table@.len() && (#[trigger] self.table@[i]).0@ == name
    }

    pub fn new() -> (r: Self)
        ensures
            r.wf(),
            r.table@.len() == 0,
    {
        Self { table: Vec::new() }
    }

    /// Registering an already-present name returns its existing index;
    /// otherwise the name is appended under the next dense index.
    pub fn register_global(&mut self, name: &str) -> (idx: usize)
        requires
            old(self).wf(),
        ensures
            final(self).wf(),
            idx < final(self).table@.len(),
            final(self).table@[idx as int].0@ == name@,
            if old(self).has_name(name@) {
                *final(self) == *old(self)
            } else {
                &&& final(self).table@.len() == old(self).table@.len() + 1
                &&& final(self).table@.subrange(0, old(self).table@.len() as int)
                    == old(self).table@
                &&& idx == old(self).table@.len()
            },
    {
        if let Some(i) = self.get_global(name) {
            return i;
        }

        let i = self.table.len();
        self.table.push((name.to_owned(), i));
        assert(self.table@.subrange(0, i as int) =~= old(self).table@);
        i
    }

    pub fn get_global(&self, name: &str) -> (r: Option<usize>)
        requires
            self.wf(),
        ensures
            match r {
                Some(s) => s < self.table@.len() && self.table@[s as int].0@ == name@,
                None => !self.has_name(name@),
            },
    {
        let owned: String = name.to_owned();
        let mut i: usize = 0;
        while i < self.table.len()
            invariant
                self.wf(),
                owned@ == name@,
                i <= self.table@.len(),
                forall|j: int| 0 <= j < i ==> self.table@[j].0@ != name@,
            decreases self.table@.len() - i,
        {
            if self.table[i].0 == owned {
                return Some(self.table[i].1);
            }
            i += 1;
        }
        None
    }
}

} // verus!
