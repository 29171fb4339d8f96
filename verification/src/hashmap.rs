use vstd::prelude::*;

use vstd::string::StrSliceExecFns;

use crate::gc::GCSystem;
use crate::object::ObjectPtr;

verus! {

/// One slot of the open-addressing table.
#[derive(Debug, Clone)]
pub struct Entry {
    pub key: ObjectPtr,
    pub value: ObjectPtr,
    pub occupied: bool,
}

impl Default for Entry {
    fn default() -> (r: Self)
        ensures
            !r.occupied,
    {
        Entry::new_empty()
    }
}

impl Entry {
    pub fn new(key: ObjectPtr, value: ObjectPtr) -> (r: Self)
        ensures
            r.key == key,
            r.value == value,
            r.occupied,
    {
        Self { key, value, occupied: true }
    }

    pub fn new_empty() -> (r: Self)
        ensures
            !r.occupied,
    {
        Self { key: ObjectPtr { index: 0 }, value: ObjectPtr { index: 0 }, occupied: false }
    }

    pub fn is_occupied(&self) -> (r: bool)
        ensures
            r == self.occupied,
    {
        self.occupied
    }

    pub fn is_null(&self) -> (r: bool)
        ensures
            r == !self.occupied,
    {
        !self.occupied
    }

    pub fn key(&self) -> (r: ObjectPtr)
        ensures
            r == self.key,
    {
        self.key
    }

    pub fn value(&self) -> (r: ObjectPtr)
        ensures
            r == self.value,
    {
        self.value
    }

    pub fn replace(&mut self, key: ObjectPtr, value: ObjectPtr)
        ensures
            final(self).key == key,
            final(self).value == value,
            final(self).occupied,
    {
        self.key = key;
        self.value = value;
        self.occupied = true;
    }

    pub fn set_value(&mut self, value: ObjectPtr)
        ensures
            final(self).key == old(self).key,
            final(self).value == value,
            final(self).occupied == old(self).occupied,
    {
        self.value = value;
    }

    pub fn clear(&mut self)
        ensures
            !final(self).occupied,
    {
        self.key = ObjectPtr { index: 0 };
        self.value = ObjectPtr { index: 0 };
        self.occupied = false;
    }
}

/// A fixed-capacity open-addressing table from string-valued objects to
/// objects; an instance's field map.  Keys and values are object references,
/// so the garbage collector walks them.
#[derive(Debug, Clone)]
pub struct HashMap {
    pub map_size: usize,
    pub data: Vec<Entry>,
}

/// Some element of `v` holds heap index `x`.
pub open spec fn holds_index(v: Seq<ObjectPtr>, x: int) -> bool {
    exists|j: int| 0 <= j < v.len() && (#[trigger] v[j]).index == x
}

impl HashMap {
    /// Every heap index held by an occupied entry, key or value.
    pub open spec fn ptrs(self) -> Set<int> {
        Set::new(
            |x: int|
                exists|i: int|
                    0 <= i < self.data@.len() && (#[trigger] self.data@[i]).occupied && (
                    self.data@[i].key.index == x || self.data@[i].value.index == x),
        )
    }

    pub fn new(initial_size: usize) -> (r: Self)
        ensures
            r.data@.len() == initial_size,
            r.map_size == initial_size,
            forall|i: int| 0 <= i < initial_size ==> !(#[trigger] r.data@[i]).occupied,
    {
        let mut data: Vec<Entry> = Vec::new();
        let mut i: usize = 0;
        while i < initial_size
            invariant
                i <= initial_size,
                data@.len() == i,
                forall|j: int| 0 <= j < i ==> !(#[trigger] data@[j]).occupied,
            decreases initial_size - i,
        {
            data.push(Entry::new_empty());
            i += 1;
        }
        Self { map_size: initial_size, data }
    }

    pub fn new_default() -> (r: Self)
        ensures
            r.data@.len() == 16,
            r.map_size == 16,
            forall|i: int| 0 <= i < 16 ==> !(#[trigger] r.data@[i]).occupied,
    {
        Self::new(16)
    }

    /// Every key and value of an occupied entry, for the collector's walk.
    pub fn pointer(&self) -> (r: Vec<ObjectPtr>)
        ensures
            forall|j: int| 0 <= j < r@.len() ==> self.ptrs().contains((#[trigger] r@[j]).index as int),
            forall|x: int| self.ptrs().contains(x) ==> holds_index(r@, x),
    {
        let mut r: Vec<ObjectPtr> = Vec::new();
        let mut i: usize = 0;
        while i < self.data.len()
            invariant
                i <= self.data@.len(),
                forall|j: int|
                    0 <= j < r@.len() ==> self.ptrs().contains((#[trigger] r@[j]).index as int),
                forall|k: int|
                    0 <= k < i && (#[trigger] self.data@[k]).occupied ==> holds_index(
                        r@,
                        self.data@[k].key.index as int,
                    ) && holds_index(r@, self.data@[k].value.index as int),
            decreases self.data@.len() - i,
        {
            let ghost r0 = r@;
            if self.data[i].is_occupied() {
                r.push(self.data[i].key());
                r.push(self.data[i].value());
                proof {
                    assert(r@[r0.len() as int].index == self.data@[i as int].key.index);
                    assert(r@[r0.len() as int + 1].index == self.data@[i as int].value.index);
                }
            }
            proof {
                assert forall|k: int|
                    0 <= k < i + 1 && (#[trigger] self.data@[k]).occupied implies holds_index(
                    r@,
                    self.data@[k].key.index as int,
                ) && holds_index(r@, self.data@[k].value.index as int) by {
                    if k < i {
                        let j1 = choose|j: int|
                            0 <= j < r0.len() && (#[trigger] r0[j]).index
                                == self.data@[k].key.index;
                        assert(r@[j1] == r0[j1]);
                        let j2 = choose|j: int|
                            0 <= j < r0.len() && (#[trigger] r0[j]).index
                                == self.data@[k].value.index;
                        assert(r@[j2] == r0[j2]);
                    } else {
                        assert(self.data@[k].occupied);
                        assert(r@[r0.len() as int].index == self.data@[k].key.index);
                        assert(r@[r0.len() as int + 1].index == self.data@[k].value.index);
                    }
                }
            }
            i += 1;
        }
        proof {
            assert forall|x: int| self.ptrs().contains(x) implies holds_index(r@, x) by {
                let k = choose|k: int|
                    0 <= k < self.data@.len() && (#[trigger] self.data@[k]).occupied && (
                    self.data@[k].key.index == x || self.data@[k].value.index == x);
            }
        }
        r
    }
}

/// The djb2-style hash of a string's characters, over 64-bit wrapping
/// arithmetic.
pub open spec fn hash_chars(s: Seq<char>) -> nat
    decreases s.len(),
{
    if s.len() == 0 {
        5381
    } else {
        ((hash_chars(s.drop_last()) * 33 + (s.last() as u32)) % 0x1_0000_0000_0000_0000) as nat
    }
}

pub fn hash_string(s: &str) -> (h: u64)
    ensures
        h as nat == hash_chars(s@),
{
    let n = s.unicode_len();
    let mut h: u64 = 5381;
    let mut i: usize = 0;
    proof {
        assert(s@.subrange(0, 0) =~= Seq::<char>::empty());
    }
    while i < n
        invariant
            n == s@.len(),
            i <= n,
            h as nat == hash_chars(s@.subrange(0, i as int)),
        decreases n - i,
    {
        let c = s.get_char(i);
        let wide: u128 = (h as u128) * 33 + (c as u128);
        h = (wide % 0x1_0000_0000_0000_0000u128) as u64;
        proof {
            assert(s@.subrange(0, i + 1).drop_last() =~= s@.subrange(0, i as int));
            assert(s@.subrange(0, i + 1).last() == s@[i as int]);
        }
        i += 1;
    }
    proof {
        assert(s@.subrange(0, n as int) =~= s@);
    }
    h
}

/// The string object behind a live reference, if it is one.
fn string_of_ptr<'a>(heap: &'a GCSystem, p: ObjectPtr) -> (r: Option<&'a String>)
    requires
        heap.live(p.index as int),
    ensures
        match r {
            Some(x) => heap.value_at(p.index as int) is String && heap.value_at(
                p.index as int,
            )->String_0 == *x,
            None => !(heap.value_at(p.index as int) is String),
        },
{
    match &heap.slots[p.index] {
        Some(o) => match &o.value {
            crate::object::Value::String(x) => Some(x),
            _ => None,
        },
        None => {
            proof {
                assert(false);
            }
            None
        }
    }
}

/// Two references point at string objects with the same characters.
pub fn objectptr_string_eq(heap: &GCSystem, p1: ObjectPtr, p2: ObjectPtr) -> (r: bool)
    requires
        heap.live(p1.index as int),
        heap.live(p2.index as int),
    ensures
        r == (heap.value_at(p1.index as int) is String && heap.value_at(p2.index as int) is String
            && heap.value_at(p1.index as int)->String_0@ == heap.value_at(
            p2.index as int,
        )->String_0@),
{
    let s1 = string_of_ptr(heap, p1);
    let s2 = string_of_ptr(heap, p2);
    match (s1, s2) {
        (Some(a), Some(b)) => *a == *b,
        _ => false,
    }
}

impl Entry {
    /// The entry is occupied and its key is a string object equal to the
    /// string behind `key`.
    pub fn key_equals(&self, heap: &GCSystem, key: ObjectPtr) -> (r: bool)
        requires
            self.occupied ==> heap.live(self.key.index as int),
            heap.live(key.index as int),
        ensures
            r == (self.occupied && heap.value_at(self.key.index as int) is String
                && heap.value_at(key.index as int) is String && heap.value_at(
                self.key.index as int,
            )->String_0@ == heap.value_at(key.index as int)->String_0@),
    {
        if self.is_null() {
            false
        } else {
            objectptr_string_eq(heap, self.key, key)
        }
    }
}

pub open spec fn count_occupied(data: Seq<Entry>) -> nat
    decreases data.len(),
{
    if data.len() == 0 {
        0
    } else {
        count_occupied(data.drop_last()) + (if data.last().occupied {
            1nat
        } else {
            0nat
        })
    }
}

proof fn lemma_count_occupied_update(data: Seq<Entry>, i: int, x: Entry)
    requires
        0 <= i < data.len(),
    ensures
        count_occupied(data.update(i, x)) == count_occupied(data) + (if x.occupied {
            1int
        } else {
            0int
        }) - (if data[i].occupied {
            1int
        } else {
            0int
        }),
    decreases data.len(),
{
    if i == data.len() - 1 {
        assert(data.update(i, x).drop_last() =~= data.drop_last());
        assert(data.update(i, x).last() == x);
    } else {
        assert(data.update(i, x).drop_last() =~= data.drop_last().update(i, x));
        assert(data.update(i, x).last() == data.last());
        lemma_count_occupied_update(data.drop_last(), i, x);
    }
}

proof fn lemma_count_occupied_full(data: Seq<Entry>)
    requires
        forall|i: int| 0 <= i < data.len() ==> (#[trigger] data[i]).occupied,
    ensures
        count_occupied(data) == data.len(),
    decreases data.len(),
{
    if data.len() > 0 {
        assert forall|i: int| 0 <= i < data.drop_last().len() implies (
        #[trigger] data.drop_last()[i]).occupied by {
            assert(data.drop_last()[i] == data[i]);
        }
        lemma_count_occupied_full(data.drop_last());
    }
}

/// The position `j` probes past `home`, walking the table cyclically.
pub open spec fn probe_pos(home: int, j: int, size: int) -> int {
    if home + j < size {
        home + j
    } else {
        home + j - size
    }
}

/// How many probes it takes to walk from `home` to `p`.
pub open spec fn probe_dist(home: int, p: int, size: int) -> int {
    if p >= home {
        p - home
    } else {
        p + size - home
    }
}

impl HashMap {
    pub open spec fn key_str(self, heap: GCSystem, i: int) -> Seq<char> {
        heap.value_at(self.data@[i].key.index as int)->String_0@
    }

    pub open spec fn home_of(self, heap: GCSystem, i: int) -> int {
        hash_chars(self.key_str(heap, i)) as int % self.map_size as int
    }

    /// The table's invariant against the heap its keys live in: a fixed
    /// non-empty size, string keys, no key twice, and for every occupied
    /// entry an unbroken run of occupied slots from its hash position to it.
    pub open spec fn inv(self, heap: GCSystem) -> bool {
        &&& self.map_size == self.data@.len()
        &&& self.map_size > 0
        &&& forall|i: int|
            0 <= i < self.data@.len() && (#[trigger] self.data@[i]).occupied ==> heap.live(
                self.data@[i].key.index as int,
            ) && heap.value_at(self.data@[i].key.index as int) is String
        &&& forall|i: int, j: int|
            0 <= i < j < self.data@.len() && (#[trigger] self.data@[i]).occupied && (
            #[trigger] self.data@[j]).occupied ==> self.key_str(heap, i) != self.key_str(heap, j)
        &&& forall|i: int, j: int|
            0 <= i < self.data@.len() && (#[trigger] self.data@[i]).occupied && 0 <= j
                < probe_dist(self.home_of(heap, i), i, self.map_size as int)
                ==> self.data@[#[trigger] probe_pos(
                self.home_of(heap, i),
                j,
                self.map_size as int,
            )].occupied
    }

    pub open spec fn has_key(self, heap: GCSystem, ks: Seq<char>) -> bool {
        exists|i: int|
            0 <= i < self.data@.len() && (#[trigger] self.data@[i]).occupied && self.key_str(
                heap,
                i,
            ) == ks
    }

    /// Finds the entry whose key string equals the string behind `key`, by
    /// linear probing from the hash position.
    pub fn find_index(&self, heap: &GCSystem, key: ObjectPtr) -> (r: Option<usize>)
        requires
            self.inv(*heap),
            heap.live(key.index as int),
            heap.value_at(key.index as int) is String,
        ensures
            match r {
                Some(i) => i < self.data@.len() && self.data@[i as int].occupied && self.key_str(
                    *heap,
                    i as int,
                ) == heap.value_at(key.index as int)->String_0@,
                None => !self.has_key(*heap, heap.value_at(key.index as int)->String_0@),
            },
    {
        let ghost ks = heap.value_at(key.index as int)->String_0@;
        let kstr: &String = match string_of_ptr(heap, key) {
            Some(x) => x,
            None => {
                proof {
                    assert(false);
                }
                return None;
            }
        };
        let h = hash_string(kstr.as_str());
        let home = (h % (self.map_size as u64)) as usize;
        let ghost homei = home as int;
        let ghost size = self.map_size as int;

        let mut j: usize = 0;
        let mut pos: usize = home;
        while j < self.map_size
            invariant
                self.inv(*heap),
                heap.live(key.index as int),
                heap.value_at(key.index as int) is String,
                ks == heap.value_at(key.index as int)->String_0@,
                homei == hash_chars(ks) as int % self.map_size as int,
                0 <= homei < self.map_size,
                size == self.map_size as int,
                j <= self.map_size,
                pos as int == probe_pos(homei, j as int, size) || (j == self.map_size && pos
                    == home),
                forall|jj: int|
                    0 <= jj < j ==> self.data@[#[trigger] probe_pos(homei, jj, size)].occupied
                        && self.key_str(*heap, probe_pos(homei, jj, size)) != ks,
            decreases self.map_size - j,
        {
            proof {
                assert(0 <= pos < self.data@.len());
            }
            if self.data[pos].is_null() {
                proof {
                    // an unbroken run from this key's hash position would
                    // have to pass through this hole
                    if self.has_key(*heap, ks) {
                        let e = choose|i: int|
                            0 <= i < self.data@.len() && (#[trigger] self.data@[i]).occupied
                                && self.key_str(*heap, i) == ks;
                        assert(self.home_of(*heap, e) == homei);
                        let d = probe_dist(homei, e, size);
                        if d < j {
                            assert(self.data@[probe_pos(homei, d, size)].occupied);
                            assert(probe_pos(homei, d, size) == e);
                            assert(self.key_str(*heap, e) != ks);
                        } else if d == j as int {
                            assert(probe_pos(homei, d, size) == e);
                            assert(false);
                        } else {
                            assert(self.data@[probe_pos(
                                self.home_of(*heap, e),
                                j as int,
                                size,
                            )].occupied);
                            assert(false);
                        }
                    }
                }
                return None;
            } else {
                if self.data[pos].key_equals(heap, key) {
                    return Some(pos);
                }
            }
            j += 1;
            pos = if pos + 1 >= self.map_size {
                0
            } else {
                pos + 1
            };
        }
        proof {
            // every slot was probed and none matched
            if self.has_key(*heap, ks) {
                let e = choose|i: int|
                    0 <= i < self.data@.len() && (#[trigger] self.data@[i]).occupied
                        && self.key_str(*heap, i) == ks;
                assert(self.home_of(*heap, e) == homei);
                let d = probe_dist(homei, e, size);
                assert(0 <= d < size);
                assert(probe_pos(homei, d, size) == e);
                assert(self.key_str(*heap, e) != ks);
            }
        }
        None
    }

    /// Looks a key up; the result is the reference bound to the key's
    /// string, if any.
    pub fn get(&self, heap: &GCSystem, key: ObjectPtr) -> (r: Option<ObjectPtr>)
        requires
            self.inv(*heap),
            heap.live(key.index as int),
            heap.value_at(key.index as int) is String,
        ensures
            match r {
                Some(v) => exists|i: int|
                    0 <= i < self.data@.len() && (#[trigger] self.data@[i]).occupied
                        && self.key_str(*heap, i) == heap.value_at(key.index as int)->String_0@
                        && self.data@[i].value == v,
                None => !self.has_key(*heap, heap.value_at(key.index as int)->String_0@),
            },
    {
        match self.find_index(heap, key) {
            Some(i) => Some(self.data[i].value()),
            None => None,
        }
    }

    /// Whether the key's string is bound.
    pub fn exists_key(&self, heap: &GCSystem, key: ObjectPtr) -> (r: bool)
        requires
            self.inv(*heap),
            heap.live(key.index as int),
            heap.value_at(key.index as int) is String,
        ensures
            r == self.has_key(*heap, heap.value_at(key.index as int)->String_0@),
    {
        match self.find_index(heap, key) {
            Some(i) => {
                proof {
                    assert(self.has_key(*heap, heap.value_at(key.index as int)->String_0@));
                }
                true
            }
            None => false,
        }
    }

    /// Binds the key's string to `value`.  An existing binding is replaced
    /// in place; a new binding takes the first free slot on the key's probe
    /// path.  The table must not be full.
    pub fn put(&mut self, heap: &GCSystem, key: ObjectPtr, value: ObjectPtr)
        requires
            old(self).inv(*heap),
            heap.live(key.index as int),
            heap.value_at(key.index as int) is String,
            count_occupied(old(self).data@) < old(self).map_size || old(self).has_key(
                *heap,
                heap.value_at(key.index as int)->String_0@,
            ),
        ensures
            final(self).inv(*heap),
            final(self).map_size == old(self).map_size,
            final(self).data@.len() == old(self).data@.len(),
            final(self).has_key(*heap, heap.value_at(key.index as int)->String_0@),
            // existing bindings keep their slots; the matching one gets the
            // new value
            forall|i: int|
                0 <= i < old(self).data@.len() && (#[trigger] old(self).data@[i]).occupied ==> {
                    &&& final(self).data@[i].occupied
                    &&& final(self).data@[i].key == old(self).data@[i].key
                    &&& final(self).data@[i].value == (if old(self).key_str(*heap, i)
                        == heap.value_at(key.index as int)->String_0@ {
                        value
                    } else {
                        old(self).data@[i].value
                    })

                },
            // at most one fresh slot is taken, and only for a new key
            forall|i: int|
                0 <= i < final(self).data@.len() && (#[trigger] final(self).data@[i]).occupied
                    && !old(self).data@[i].occupied ==> final(self).data@[i].key == key
                    && final(self).data@[i].value == value,
            count_occupied(final(self).data@) == count_occupied(old(self).data@) + (
            if old(self).has_key(*heap, heap.value_at(key.index as int)->String_0@) {
                0int
            } else {
                1int
            }),
    {
        let ghost ks = heap.value_at(key.index as int)->String_0@;
        match self.find_index(heap, key) {
            Some(i) => {
                let ghost pre = self.data@;
                let old_entry_key = self.data[i].key();
                let mut tmp = Entry::new(old_entry_key, value);
                // replace the value, keeping the key object
                self.data.set(i, tmp);
                proof {
                    lemma_count_occupied_update(pre, i as int, self.data@[i as int]);
                    assert(self.has_key(*heap, ks)) by {
                        assert(self.data@[i as int].occupied && self.key_str(*heap, i as int)
                            == ks);
                    }
                    assert(old(self).has_key(*heap, ks)) by {
                        assert(pre[i as int].occupied && old(self).key_str(*heap, i as int) == ks);
                    }
                    assert forall|a: int, j: int|
                        0 <= a < self.data@.len() && (#[trigger] self.data@[a]).occupied && 0 <= j
                            < probe_dist(
                            self.home_of(*heap, a),
                            a,
                            self.map_size as int,
                        ) implies self.data@[#[trigger] probe_pos(
                        self.home_of(*heap, a),
                        j,
                        self.map_size as int,
                    )].occupied by {
                        assert(self.key_str(*heap, a) == old(self).key_str(*heap, a));
                        assert(old(self).data@[probe_pos(
                            old(self).home_of(*heap, a),
                            j,
                            self.map_size as int,
                        )].occupied);
                    }
                }
            }
            None => {
                // probe for the first hole on the key's path
                let kstr: &String = match string_of_ptr(heap, key) {
                    Some(x) => x,
                    None => {
                        proof {
                            assert(false);
                        }
                        return ;
                    }
                };
                let h = hash_string(kstr.as_str());
                let home = (h % (self.map_size as u64)) as usize;
                let ghost homei = home as int;
                let ghost size = self.map_size as int;

                let mut j: usize = 0;
                let mut pos: usize = home;
                while j < self.map_size
                    invariant
                        self.inv(*heap),
                        *self == *old(self),
                        heap.live(key.index as int),
                        heap.value_at(key.index as int) is String,
                        ks == heap.value_at(key.index as int)->String_0@,
                        !self.has_key(*heap, ks),
                        count_occupied(self.data@) < self.map_size,
                        homei == hash_chars(ks) as int % self.map_size as int,
                        0 <= homei < self.map_size,
                        size == self.map_size as int,
                        j <= self.map_size,
                        pos as int == probe_pos(homei, j as int, size) || j == self.map_size,
                        forall|jj: int|
                            0 <= jj < j ==> self.data@[#[trigger] probe_pos(
                                homei,
                                jj,
                                size,
                            )].occupied,
                    decreases self.map_size - j,
                {
                    proof {
                        assert(0 <= pos < self.data@.len());
                    }
                    if self.data[pos].is_null() {
                        let ghost pre = self.data@;
                        self.data.set(pos, Entry::new(key, value));
                        proof {
                            lemma_count_occupied_update(pre, pos as int, self.data@[pos as int]);
                            assert(self.key_str(*heap, pos as int) == ks);
                            assert(self.has_key(*heap, ks)) by {
                                assert(self.data@[pos as int].occupied && self.key_str(
                                    *heap,
                                    pos as int,
                                ) == ks);
                            }
                            assert(self.home_of(*heap, pos as int) == homei);
                            assert(probe_dist(homei, pos as int, size) == j as int);
                            // old runs cannot pass through what was a hole,
                            // and the new entry's run is what was probed
                            assert forall|a: int, jj: int|
                                0 <= a < self.data@.len() && (#[trigger] self.data@[a]).occupied
                                    && 0 <= jj < probe_dist(
                                    self.home_of(*heap, a),
                                    a,
                                    size,
                                ) implies self.data@[#[trigger] probe_pos(
                                self.home_of(*heap, a),
                                jj,
                                size,
                            )].occupied by {
                                if a == pos as int {
                                    assert(self.data@[probe_pos(homei, jj, size)]
                                        == pre[probe_pos(homei, jj, size)]
                                        || probe_pos(homei, jj, size) == pos as int);
                                    assert(pre[probe_pos(homei, jj, size)].occupied
                                        || probe_pos(homei, jj, size) == pos as int);
                                } else {
                                    assert(self.data@[a] == pre[a]);
                                    assert(pre[a].occupied);
                                    assert(self.key_str(*heap, a) == old(self).key_str(*heap, a));
                                    assert(self.home_of(*heap, a) == old(self).home_of(*heap, a));
                                    assert(old(self).data@[probe_pos(
                                        old(self).home_of(*heap, a),
                                        jj,
                                        old(self).map_size as int,
                                    )].occupied);
                                    let pp = probe_pos(self.home_of(*heap, a), jj, size);
                                    assert(pre[pp].occupied);
                                    assert(pp != pos as int);
                                    assert(self.data@[pp] == pre[pp]);
                                }
                            }
                            assert forall|a: int, b: int|
                                0 <= a < b < self.data@.len() && (
                                #[trigger] self.data@[a]).occupied && (
                                #[trigger] self.data@[b]).occupied implies self.key_str(*heap, a)
                                != self.key_str(*heap, b) by {
                                if a == pos as int {
                                    assert(pre[b].occupied);
                                    if self.key_str(*heap, b) == ks {
                                        assert(old(self).has_key(*heap, ks)) by {
                                            assert(pre[b].occupied && old(self).key_str(*heap, b)
                                                == ks);
                                        }
                                        assert(false);
                                    }
                                } else if b == pos as int {
                                    assert(pre[a].occupied);
                                    if self.key_str(*heap, a) == ks {
                                        assert(old(self).has_key(*heap, ks)) by {
                                            assert(pre[a].occupied && old(self).key_str(*heap, a)
                                                == ks);
                                        }
                                        assert(false);
                                    }
                                } else {
                                    assert(pre[a].occupied && pre[b].occupied);
                                }
                            }
                        }
                        return ;
                    }
                    j += 1;
                    pos = if pos + 1 >= self.map_size {
                        0
                    } else {
                        pos + 1
                    };
                }
                proof {
                    // a full probe found no hole, so every slot is occupied,
                    // contradicting the free-slot requirement
                    assert forall|i: int| 0 <= i < self.data@.len() implies (
                    #[trigger] self.data@[i]).occupied by {
                        let jj = probe_dist(homei, i, size);
                        assert(probe_pos(homei, jj, size) == i);
                        assert(self.data@[probe_pos(homei, jj, size)].occupied);
                    }
                    lemma_count_occupied_full(self.data@);
                    assert(false);
                }
            }
        }
    }
}

} // verus!
