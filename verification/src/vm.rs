use vstd::prelude::*;
use vstd::pervasive::VecAdditionalExecFns;

use crate::gc::{ptr_index_set, reachable, GCSystem};
use crate::hashmap::holds_index;
use crate::object::{FunctionAddress, FunctionInfo, NativeFunction, Object, ObjectPtr, Value};
use crate::opcode::Opcode;
use crate::render::render_spec;
use crate::render::render_value;

verus! {

/// A fatal runtime error: the machine stops and the process is expected to
/// terminate with a diagnostic.
#[derive(Debug, Clone, Copy, PartialEq, Eq, Structural)]
pub enum VmError {
    /// An operator was applied to operands of the wrong kinds.
    InvalidOperands,
    /// The callee of a call is not a function value.
    NotAFunction,
    /// A call's argument count does not match the function's arity.
    ArityMismatch,
    /// A conditional jump found a non-boolean on the stack.
    InvalidCondition,
    /// The exit instruction found a non-integer on the stack.
    InvalidExitCode,
    /// An uninitialised slot was used as a value.
    UninitializedAccess,
    /// Integer division or modulo by zero.
    DivisionByZero,
    /// An arithmetic result does not fit in a 64-bit signed integer.
    IntegerOverflow,
    /// The operand stack is at its fixed capacity.
    StackOverflow,
    /// An instruction needs more operands than the stack holds.
    StackUnderflow,
    /// A return was executed on the bottom frame.
    ReturnWithoutCall,
    /// A local slot index exceeds the machine's addressable frame size.
    FrameOverflow,
}

/// What one execution step did, beyond updating the machine state.  The
/// driver performs the printing and the process exit.
#[derive(Debug, PartialEq)]
pub enum StepEffect {
    /// The instruction pointer is past the end of the code.
    Idle,
    /// One instruction ran with no outside-visible effect.
    Ran,
    /// A native printed this line.
    Print(String),
    /// The program asked to terminate the process with this status.
    Exit(i64),
}

/// An activation record: the linear memory of local slots and the address to
/// return to.  Out-of-range reads yield the shared uninitialised object.
#[derive(Debug)]
pub struct LinearMemory {
    pub memory: Vec<ObjectPtr>,
    pub return_pc: Option<usize>,
    pub invalid_obj: ObjectPtr,
}

impl LinearMemory {
    pub fn new(invalid_obj: ObjectPtr) -> (r: Self)
        ensures
            r.memory@.len() == 0,
            r.return_pc is None,
            r.invalid_obj == invalid_obj,
    {
        LinearMemory { memory: Vec::new(), return_pc: None, invalid_obj }
    }

    pub fn new_with_return(invalid_obj: ObjectPtr, return_pc: usize) -> (r: Self)
        ensures
            r.memory@.len() == 0,
            r.return_pc == Some(return_pc),
            r.invalid_obj == invalid_obj,
    {
        LinearMemory { memory: Vec::new(), return_pc: Some(return_pc), invalid_obj }
    }

    /// What a store does: the slot gets the reference, the memory grows with
    /// uninitialised fillers as needed, and every other slot is untouched.
    pub open spec fn stored(pre: Self, post: Self, address: int, object: ObjectPtr) -> bool {
        &&& post.return_pc == pre.return_pc
        &&& post.invalid_obj == pre.invalid_obj
        &&& post.memory@.len() == (if address < pre.memory@.len() {
            pre.memory@.len() as int
        } else {
            address + 1
        })
        &&& post.memory@[address] == object
        &&& forall|j: int|
            0 <= j < pre.memory@.len() && j != address ==> post.memory@[j] == pre.memory@[j]
        &&& forall|j: int|
            pre.memory@.len() <= j < post.memory@.len() && j != address ==> post.memory@[j]
                == pre.invalid_obj
    }

    /// Stores into a slot, growing the memory with uninitialised fillers as
    /// needed.
    pub fn store(&mut self, address: usize, object: ObjectPtr)
        requires
            address < usize::MAX,
        ensures
            Self::stored(*old(self), *final(self), address as int, object),
    {
        while self.memory.len() < address + 1
            invariant
                address < usize::MAX,
                self.return_pc == old(self).return_pc,
                self.invalid_obj == old(self).invalid_obj,
                self.memory@.len() >= old(self).memory@.len(),
                self.memory@.len() == old(self).memory@.len() || (old(self).memory@.len()
                    < self.memory@.len() <= address + 1),
                forall|j: int|
                    0 <= j < old(self).memory@.len() ==> self.memory@[j] == old(self).memory@[j],
                forall|j: int|
                    old(self).memory@.len() <= j < self.memory@.len() ==> self.memory@[j] == old(
                        self,
                    ).invalid_obj,
            decreases address + 1 - self.memory@.len(),
        {
            let filler = self.invalid_obj;
            self.memory.push(filler);
        }
        self.memory.set(address, object);
    }

    /// Reads a slot; an out-of-range read yields the uninitialised object.
    pub fn load(&self, address: usize) -> (r: ObjectPtr)
        ensures
            r == (if address < self.memory@.len() {
                self.memory@[address as int]
            } else {
                self.invalid_obj
            }),
    {
        if address >= self.memory.len() {
            self.invalid_obj
        } else {
            self.memory[address]
        }
    }

    /// Every reference this frame holds, for the collector's root set.
    pub fn collect_objptr(&self) -> (r: Vec<ObjectPtr>)
        ensures
            r@ == self.memory@,
    {
        clone_ptrs(&self.memory)
    }
}

fn clone_ptrs(v: &Vec<ObjectPtr>) -> (r: Vec<ObjectPtr>)
    ensures
        r@ == v@,
{
    let mut r: Vec<ObjectPtr> = Vec::new();
    let mut i: usize = 0;
    while i < v.len()
        invariant
            i <= v@.len(),
            r@ == v@.subrange(0, i as int),
        decreases v@.len() - i,
    {
        r.push(v[i]);
        i += 1;
        proof {
            assert(r@ =~= v@.subrange(0, i as int));
        }
    }
    proof {
        assert(r@ =~= v@);
    }
    r
}

/// The global name table: a flat mapping from names to object references.
/// A read of an unbound name yields the uninitialised object.
#[derive(Debug)]
pub struct NameMemory {
    pub memory: Vec<(String, ObjectPtr)>,
    pub invalid_obj: ObjectPtr,
}

impl NameMemory {
    /// No name is bound twice.
    pub open spec fn wf(self) -> bool {
        forall|i: int, j: int|
            0 <= i < j < self.memory@.len() ==> self.memory@[i].0@ != self.memory@[j].0@
    }

    pub open spec fn has_name(self, name: Seq<char>) -> bool {
        exists|i: int| 0 <= i < self.memory@.len() && (#[trigger] self.memory@[i]).0@ == name
    }

    pub fn new(invalid_obj: ObjectPtr) -> (r: Self)
        ensures
            r.wf(),
            r.memory@.len() == 0,
            r.invalid_obj == invalid_obj,
    {
        NameMemory { memory: Vec::new(), invalid_obj }
    }

    fn find(&self, name: &str) -> (r: Option<usize>)
        requires
            self.wf(),
        ensures
            match r {
                Some(i) => i < self.memory@.len() && self.memory@[i as int].0@ == name@,
                None => !self.has_name(name@),
            },
    {
        let owned: String = name.to_owned();
        let mut i: usize = 0;
        while i < self.memory.len()
            invariant
                owned@ == name@,
                i <= self.memory@.len(),
                forall|j: int| 0 <= j < i ==> self.memory@[j].0@ != name@,
            decreases self.memory@.len() - i,
        {
            if self.memory[i].0 == owned {
                return Some(i);
            }
            i += 1;
        }
        None
    }

    /// What a binding does: the name maps to the reference, the table grows
    /// only when the name is new, and every other binding is untouched.
    pub open spec fn stored(pre: Self, post: Self, name: Seq<char>, object: ObjectPtr) -> bool {
        &&& post.wf()
        &&& post.invalid_obj == pre.invalid_obj
        &&& post.has_name(name)
        &&& post.memory@.len() == (if pre.has_name(name) {
            pre.memory@.len() as int
        } else {
            pre.memory@.len() as int + 1
        })
        &&& forall|j: int|
            0 <= j < post.memory@.len() ==> (#[trigger] post.memory@[j]).0@ == (
            if j < pre.memory@.len() {
                pre.memory@[j].0@
            } else {
                name
            })
        &&& forall|j: int|
            0 <= j < post.memory@.len() ==> (#[trigger] post.memory@[j]).1 == (
            if post.memory@[j].0@ == name {
                object
            } else {
                pre.memory@[j].1
            })
    }

    /// Binds a name, replacing any existing binding; the table grows only
    /// when the name is new.
    pub fn store(&mut self, address: &str, object: ObjectPtr)
        requires
            old(self).wf(),
        ensures
            Self::stored(*old(self), *final(self), address@, object),
    {
        match self.find(address) {
            Some(i) => {
                let owned: String = address.to_owned();
                self.memory.set(i, (owned, object));
                proof {
                    assert((self.memory@[i as int]).0@ == address@);
                    assert forall|j: int, k: int|
                        0 <= j < k < self.memory@.len() implies self.memory@[j].0@
                        != self.memory@[k].0@ by {
                        assert(old(self).memory@[j].0@ != old(self).memory@[k].0@);
                    }
                }
            }
            None => {
                self.memory.push((address.to_owned(), object));
                proof {
                    assert forall|j: int, k: int|
                        0 <= j < k < self.memory@.len() implies self.memory@[j].0@
                        != self.memory@[k].0@ by {
                        if k < self.memory@.len() - 1 {
                            assert(old(self).memory@[j].0@ != old(self).memory@[k].0@);
                        } else {
                            assert(self.memory@[k].0@ == address@);
                            assert(!old(self).has_name(address@));
                        }
                    }
                    assert(self.memory@[self.memory@.len() - 1].0@ == address@);
                }
            }
        }
    }

    /// Reads a binding; an unbound name yields the uninitialised object.
    pub fn load(&self, address: &str) -> (r: ObjectPtr)
        requires
            self.wf(),
        ensures
            if self.has_name(address@) {
                exists|i: int|
                    0 <= i < self.memory@.len() && (#[trigger] self.memory@[i]).0@ == address@ && r
                        == self.memory@[i].1
            } else {
                r == self.invalid_obj
            },
    {
        match self.find(address) {
            Some(i) => {
                let r = self.memory[i].1;
                proof {
                    assert((self.memory@[i as int]).0@ == address@ && r == self.memory@[i as int].1);
                }
                r
            }
            None => self.invalid_obj,
        }
    }

    /// Every bound reference, for the collector's root set.
    pub fn collect_objptr(&self) -> (r: Vec<ObjectPtr>)
        ensures
            r@.len() == self.memory@.len(),
            forall|j: int| 0 <= j < r@.len() ==> r@[j] == self.memory@[j].1,
    {
        let mut r: Vec<ObjectPtr> = Vec::new();
        let mut i: usize = 0;
        while i < self.memory.len()
            invariant
                i <= self.memory@.len(),
                r@.len() == i,
                forall|j: int| 0 <= j < i ==> r@[j] == self.memory@[j].1,
            decreases self.memory@.len() - i,
        {
            r.push(self.memory[i].1);
            i += 1;
        }
        r
    }
}

/// The virtual machine: a fixed-capacity operand stack, the linked
/// instruction vector with its instruction pointer, a stack of activation
/// records, the global name table, and the heap.
#[derive(Debug)]
pub struct VM {
    pub stack: Vec<ObjectPtr>,
    pub stack_top: usize,
    pub opcode: Vec<Opcode>,
    pub pc: usize,
    pub stack_frames: Vec<LinearMemory>,
    pub stack_frame_top: usize,
    pub globals: NameMemory,
    pub gc: GCSystem,
}

impl VM {
    /// The value behind a reference.
    pub open spec fn val(self, p: ObjectPtr) -> Value {
        self.gc.value_at(p.index as int)
    }

    /// Heap index `x` is held by the operand stack, a frame, the globals, or
    /// one of the shared uninitialised objects: the collector's root set.
    pub open spec fn is_vm_root(self, x: int) -> bool {
        ||| exists|i: int| 0 <= i < self.stack_top && (#[trigger] self.stack@[i]).index == x
        ||| exists|f: int, j: int|
            0 <= f < self.stack_frames@.len() && 0 <= j < self.stack_frames@[f].memory@.len() && (
            #[trigger] self.stack_frames@[f].memory@[j]).index == x
        ||| exists|f: int|
            0 <= f < self.stack_frames@.len() && (#[trigger] self.stack_frames@[f]).invalid_obj.index
                == x
        ||| exists|j: int|
            0 <= j < self.globals.memory@.len() && (#[trigger] self.globals.memory@[j]).1.index == x
        ||| self.globals.invalid_obj.index == x
    }

    pub open spec fn wf(self) -> bool {
        &&& self.gc.wf()
        &&& self.stack_top <= self.stack@.len()
        &&& self.stack_frames@.len() == self.stack_frame_top + 1
        &&& self.globals.wf()
        &&& forall|x: int| self.is_vm_root(x) ==> self.gc.live(x)
        &&& self.val(self.globals.invalid_obj) is Invalid
    }

    /// Everything reachable from the machine's own roots survives an
    /// allocation with the same slot and value.
    pub open spec fn roots_preserved(pre: VM, post: VM) -> bool {
        forall|x: int|
            pre.is_vm_root(x) ==> post.gc.live(x) && post.gc.value_at(x) == pre.gc.value_at(x)
    }

    /// Gathers every reference the machine holds: the operand stack up to
    /// its top, every frame slot, every global binding, and the shared
    /// uninitialised objects.
    fn collect_roots(&self) -> (r: Vec<ObjectPtr>)
        requires
            self.stack_top <= self.stack@.len(),
        ensures
            forall|x: int| self.is_vm_root(x) ==> holds_index(r@, x),
            forall|j: int| 0 <= j < r@.len() ==> self.is_vm_root((#[trigger] r@[j]).index as int),
    {
        let mut roots: Vec<ObjectPtr> = Vec::new();

        let mut i: usize = 0;
        while i < self.stack_top && i < self.stack.len()
            invariant
                i <= self.stack@.len(),
                i <= self.stack_top,
                forall|j: int|
                    0 <= j < roots@.len() ==> self.is_vm_root((#[trigger] roots@[j]).index as int),
                forall|k: int| 0 <= k < i ==> holds_index(roots@, self.stack@[k].index as int),
            decreases self.stack@.len() - i,
        {
            let ghost r0 = roots@;
            roots.push(self.stack[i]);
            proof {
                assert(roots@[r0.len() as int] == self.stack@[i as int]);
                assert forall|k: int|
                    0 <= k < i + 1 implies holds_index(roots@, self.stack@[k].index as int) by {
                    if k < i {
                        let j = choose|j: int|
                            0 <= j < r0.len() && (#[trigger] r0[j]).index == self.stack@[k].index;
                        assert(roots@[j] == r0[j]);
                    } else {
                        assert(roots@[r0.len() as int].index == self.stack@[k].index);
                    }
                }
            }
            i += 1;
        }

        let mut f: usize = 0;
        while f < self.stack_frames.len()
            invariant
                f <= self.stack_frames@.len(),
                i >= self.stack_top || i >= self.stack@.len(),
                forall|j: int|
                    0 <= j < roots@.len() ==> self.is_vm_root((#[trigger] roots@[j]).index as int),
                forall|k: int|
                    0 <= k < self.stack_top && k < self.stack@.len() ==> holds_index(
                        roots@,
                        self.stack@[k].index as int,
                    ),
                forall|g: int, k: int|
                    0 <= g < f && 0 <= k < self.stack_frames@[g].memory@.len() ==> holds_index(
                        roots@,
                        (#[trigger] self.stack_frames@[g].memory@[k]).index as int,
                    ),
                forall|g: int|
                    0 <= g < f ==> holds_index(
                        roots@,
                        (#[trigger] self.stack_frames@[g]).invalid_obj.index as int,
                    ),
            decreases self.stack_frames@.len() - f,
        {
            let ghost r0 = roots@;
            let mut mem = self.stack_frames[f].collect_objptr();
            let ghost memsnap = mem@;
            roots.append(&mut mem);
            let ghost r1 = roots@;
            roots.push(self.stack_frames[f].invalid_obj);
            proof {
                assert(roots@[r1.len() as int] == self.stack_frames@[f as int].invalid_obj);
                assert forall|g: int, k: int|
                    0 <= g < f + 1 && 0 <= k < self.stack_frames@[g].memory@.len() implies
                    holds_index(
                    roots@,
                    (#[trigger] self.stack_frames@[g].memory@[k]).index as int,
                ) by {
                    if g < f {
                        let j = choose|j: int|
                            0 <= j < r0.len() && (#[trigger] r0[j]).index
                                == self.stack_frames@[g].memory@[k].index;
                        assert(roots@[j] == r0[j]);
                    } else {
                        assert(r1[r0.len() + k] == memsnap[k]);
                        assert(roots@[r0.len() + k] == memsnap[k]);
                    }
                }
                assert forall|g: int|
                    0 <= g < f + 1 implies holds_index(
                    roots@,
                    (#[trigger] self.stack_frames@[g]).invalid_obj.index as int,
                ) by {
                    if g < f {
                        let j = choose|j: int|
                            0 <= j < r0.len() && (#[trigger] r0[j]).index
                                == self.stack_frames@[g].invalid_obj.index;
                        assert(roots@[j] == r0[j]);
                    } else {
                        assert(roots@[r1.len() as int].index
                            == self.stack_frames@[g].invalid_obj.index);
                    }
                }
                assert forall|k: int|
                    0 <= k < self.stack_top && k < self.stack@.len() implies holds_index(
                    roots@,
                    self.stack@[k].index as int,
                ) by {
                    let j = choose|j: int|
                        0 <= j < r0.len() && (#[trigger] r0[j]).index == self.stack@[k].index;
                    assert(roots@[j] == r0[j]);
                }
                assert forall|j: int|
                    0 <= j < roots@.len() implies self.is_vm_root(
                    (#[trigger] roots@[j]).index as int,
                ) by {
                    if j < r0.len() {
                        assert(roots@[j] == r0[j]);
                    } else if j < r1.len() {
                        assert(roots@[j] == memsnap[j - r0.len()]);
                        assert(self.stack_frames@[f as int].memory@[j - r0.len()]
                            == memsnap[j - r0.len()]);
                    } else {
                        assert(roots@[j] == self.stack_frames@[f as int].invalid_obj);
                    }
                }
            }
            f += 1;
        }

        let ghost r0 = roots@;
        let mut gl = self.globals.collect_objptr();
        let ghost glsnap = gl@;
        roots.append(&mut gl);
        let ghost r1 = roots@;
        roots.push(self.globals.invalid_obj);
        proof {
            assert(roots@[r1.len() as int] == self.globals.invalid_obj);
            assert forall|x: int| self.is_vm_root(x) implies holds_index(roots@, x) by {
                if exists|k: int|
                    0 <= k < self.stack_top && (#[trigger] self.stack@[k]).index == x {
                    let k = choose|k: int|
                        0 <= k < self.stack_top && (#[trigger] self.stack@[k]).index == x;
                    let j = choose|j: int|
                        0 <= j < r0.len() && (#[trigger] r0[j]).index == self.stack@[k].index;
                    assert(roots@[j] == r0[j]);
                } else if exists|g: int, k: int|
                    0 <= g < self.stack_frames@.len() && 0 <= k
                        < self.stack_frames@[g].memory@.len() && (
                    #[trigger] self.stack_frames@[g].memory@[k]).index == x {
                    let (g, k) = choose|g: int, k: int|
                        0 <= g < self.stack_frames@.len() && 0 <= k
                            < self.stack_frames@[g].memory@.len() && (
                        #[trigger] self.stack_frames@[g].memory@[k]).index == x;
                    let j = choose|j: int|
                        0 <= j < r0.len() && (#[trigger] r0[j]).index
                            == self.stack_frames@[g].memory@[k].index;
                    assert(roots@[j] == r0[j]);
                } else if exists|g: int|
                    0 <= g < self.stack_frames@.len() && (
                    #[trigger] self.stack_frames@[g]).invalid_obj.index == x {
                    let g = choose|g: int|
                        0 <= g < self.stack_frames@.len() && (
                        #[trigger] self.stack_frames@[g]).invalid_obj.index == x;
                    let j = choose|j: int|
                        0 <= j < r0.len() && (#[trigger] r0[j]).index
                            == self.stack_frames@[g].invalid_obj.index;
                    assert(roots@[j] == r0[j]);
                } else if exists|k: int|
                    0 <= k < self.globals.memory@.len() && (
                    #[trigger] self.globals.memory@[k]).1.index == x {
                    let k = choose|k: int|
                        0 <= k < self.globals.memory@.len() && (
                        #[trigger] self.globals.memory@[k]).1.index == x;
                    assert(r1[r0.len() + k] == glsnap[k]);
                    assert(roots@[r0.len() + k].index == x);
                } else {
                    assert(x == self.globals.invalid_obj.index);
                    assert(roots@[r1.len() as int].index == x);
                }
            }
            assert forall|j: int|
                0 <= j < roots@.len() implies self.is_vm_root(
                (#[trigger] roots@[j]).index as int,
            ) by {
                if j < r0.len() {
                    assert(roots@[j] == r0[j]);
                } else if j < r1.len() {
                    assert(roots@[j] == glsnap[j - r0.len()]);
                    assert(self.globals.memory@[j - r0.len()].1 == glsnap[j - r0.len()]);
                } else {
                    assert(roots@[j] == self.globals.invalid_obj);
                }
            }
        }
        roots
    }

    /// Allocates a fresh object for a leaf value, collecting first if the
    /// heap is full.  Every reference the machine holds stays valid with its
    /// value.
    fn alloc_object(&mut self, object: Object) -> (p: ObjectPtr)
        requires
            old(self).wf(),
            !object.marked,
            object.value.child_set() == Set::<int>::empty(),
        ensures
            final(self).wf(),
            *final(self) == (VM { gc: final(self).gc, ..*old(self) }),
            final(self).gc.live(p.index as int),
            final(self).gc.value_at(p.index as int) == object.value,
            !old(self).is_vm_root(p.index as int),
            VM::roots_preserved(*old(self), *final(self)),
            final(self).gc.max_objects == old(self).gc.max_objects,
            final(self).gc.num_objects <= old(self).gc.num_objects + 1,
    {
        let roots = self.collect_roots();
        proof {
            assert forall|j: int|
                0 <= j < roots@.len() implies self.gc.live(
                (#[trigger] roots@[j]).index as int,
            ) by {
                assert(self.is_vm_root(roots@[j].index as int));
            }
            assert forall|c: int|
                object.value.child_set().contains(c) implies self.gc.live(c) && reachable(
                self.gc.slots@,
                ptr_index_set(roots@),
                c,
            ) by {
                assert(false);
            }
        }
        let p = self.gc.new_object(object, &roots);
        proof {
            assert forall|x: int|
                old(self).is_vm_root(x) implies self.gc.live(x) && self.gc.value_at(x) == old(self).gc.value_at(x) && x != p.index by {
                assert(holds_index(roots@, x));
                assert(ptr_index_set(roots@).contains(x));
                crate::gc::lemma_roots_reachable(old(self).gc.slots@, ptr_index_set(roots@), x);
            }
            assert forall|x: int| self.is_vm_root(x) implies self.gc.live(x) by {
                assert(old(self).is_vm_root(x));
            }
            assert(old(self).is_vm_root(old(self).globals.invalid_obj.index as int));
            assert(self.val(self.globals.invalid_obj) is Invalid);
        }
        p
    }
}

impl VM {
    /// A fresh machine: an operand stack of the given fixed capacity, no
    /// code, one bottom frame without a return address, empty globals, and a
    /// heap that collects at one hundred objects.
    pub fn new(stack_size: usize) -> (r: VM)
        ensures
            r.wf(),
            r.stack@.len() == stack_size,
            r.stack_top == 0,
            r.opcode@.len() == 0,
            r.pc == 0,
            r.stack_frame_top == 0,
            r.stack_frames@[0].memory@.len() == 0,
            r.stack_frames@[0].return_pc is None,
            r.globals.memory@.len() == 0,
            r.gc.max_objects == 100,
    {
        let mut gc = GCSystem::new(100);
        let invalid_obj = gc.new_object(Object::make_invalid(), &Vec::new());

        let mut stack: Vec<ObjectPtr> = Vec::new();
        let mut i: usize = 0;
        while i < stack_size
            invariant
                i <= stack_size,
                stack@.len() == i,
                forall|j: int| 0 <= j < i ==> stack@[j] == invalid_obj,
            decreases stack_size - i,
        {
            stack.push(invalid_obj);
            i += 1;
        }

        let mut stack_frames: Vec<LinearMemory> = Vec::new();
        stack_frames.push(LinearMemory::new(invalid_obj));

        let vm = VM {
            stack,
            stack_top: 0,
            opcode: Vec::new(),
            pc: 0,
            stack_frames,
            stack_frame_top: 0,
            globals: NameMemory::new(invalid_obj),
            gc,
        };
        proof {
            assert forall|x: int| vm.is_vm_root(x) implies vm.gc.live(x) by {
                assert(x == invalid_obj.index as int);
            }
        }
        vm
    }

    /// A view of the object on top of the operand stack, if any.
    pub fn stack_top(&self) -> (r: Option<&Object>)
        requires
            self.wf(),
        ensures
            match r {
                Some(o) => self.stack_top > 0 && o.value == self.val(
                    self.stack@[self.stack_top - 1],
                ),
                None => self.stack_top == 0,
            },
    {
        if self.stack_top == 0 {
            None
        } else {
            let p = self.stack[self.stack_top - 1];
            proof {
                assert(self.is_vm_root(p.index as int));
            }
            match &self.gc.slots[p.index] {
                Some(o) => Some(o),
                None => {
                    proof {
                        assert(false);
                    }
                    None
                }
            }
        }
    }

    /// Installs the linked instruction vector; the rest of the machine is
    /// left unchanged.
    pub fn set_code(&mut self, code: Vec<Opcode>)
        ensures
            *final(self) == (VM { opcode: final(self).opcode, ..*old(self) }),
            final(self).opcode@ == code@,
    {
        self.opcode = code;
    }

    /// How many objects the heap currently holds.
    pub fn num_objects(&self) -> (r: usize)
        ensures
            r == self.gc.num_objects,
    {
        self.gc.num_objects()
    }

    pub fn current_stack_frame(&self) -> (r: &LinearMemory)
        requires
            self.wf(),
        ensures
            *r == self.stack_frames@[self.stack_frame_top as int],
    {
        &self.stack_frames[self.stack_frame_top]
    }

    /// Argument `index` of the running native call: slot `index` of the
    /// current frame.
    pub fn get_function_argument_by_index(&self, index: usize) -> (r: ObjectPtr)
        requires
            self.wf(),
        ensures
            r == ({
                let f = self.stack_frames@[self.stack_frame_top as int];
                if index < f.memory@.len() {
                    f.memory@[index as int]
                } else {
                    f.invalid_obj
                }
            }),
    {
        self.current_stack_frame().load(index)
    }

    /// Installs a native function as a function-valued object bound to
    /// `name` in the globals; an existing binding is replaced and the table
    /// does not grow.
    pub fn register_native(&mut self, name: &str, f: &FunctionInfo)
        requires
            old(self).wf(),
        ensures
            final(self).wf(),
            NameMemory::stored(
                old(self).globals,
                final(self).globals,
                name@,
                final(self).globals.memory@[choose|i: int|
                    0 <= i < final(self).globals.memory@.len()
                        && (#[trigger] final(self).globals.memory@[i]).0@ == name@].1,
            ),
            final(self).globals.has_name(name@),
            final(self).globals.memory@.len() == (if old(self).globals.has_name(name@) {
                old(self).globals.memory@.len() as int
            } else {
                old(self).globals.memory@.len() as int + 1
            }),
            forall|i: int|
                0 <= i < final(self).globals.memory@.len()
                    && (#[trigger] final(self).globals.memory@[i]).0@ == name@ ==> final(self).val(
                    final(self).globals.memory@[i].1,
                ) == Value::Function(Box::new(*f)),
            VM::roots_preserved(*old(self), *final(self)),
            final(self).stack@ == old(self).stack@,
            final(self).stack_top == old(self).stack_top,
            final(self).stack_frames@ == old(self).stack_frames@,
            final(self).stack_frame_top == old(self).stack_frame_top,
            final(self).opcode@ == old(self).opcode@,
            final(self).pc == old(self).pc,
    {
        let fun_object = self.alloc_object(
            Object::new_from_value(Value::Function(Box::new(f.clone()))),
        );
        let ghost mid = *self;
        self.globals.store(name, fun_object);
        proof {
            assert forall|x: int| self.is_vm_root(x) implies self.gc.live(x) by {
                if exists|j: int|
                    0 <= j < self.globals.memory@.len() && (
                    #[trigger] self.globals.memory@[j]).1.index == x {
                    let j = choose|j: int|
                        0 <= j < self.globals.memory@.len() && (
                        #[trigger] self.globals.memory@[j]).1.index == x;
                    if self.globals.memory@[j].0@ == name@ {
                        assert(self.globals.memory@[j].1 == fun_object);
                    } else {
                        assert(self.globals.memory@[j].1 == old(self).globals.memory@[j].1);
                        assert(old(self).is_vm_root(x));
                    }
                } else {
                    assert(mid.is_vm_root(x));
                    assert(old(self).is_vm_root(x));
                }
            }
            assert(old(self).is_vm_root(old(self).globals.invalid_obj.index as int));
        }
    }

    // ---- the transition relation, one instruction at a time ----

    pub open spec fn stack_shape(pre: VM, post: VM, new_top: int, preserved_below: int) -> bool {
        &&& post.stack@.len() == pre.stack@.len()
        &&& post.stack_top == new_top
        &&& forall|i: int| 0 <= i < preserved_below ==> post.stack@[i] == pre.stack@[i]
    }

    pub open spec fn frames_globals_unchanged(pre: VM, post: VM) -> bool {
        &&& post.stack_frames@ == pre.stack_frames@
        &&& post.stack_frame_top == pre.stack_frame_top
        &&& post.globals == pre.globals
        &&& post.opcode@ == pre.opcode@
    }

    /// `n_pop` operands are replaced by a freshly allocated object holding
    /// `v`, and execution falls through to the next instruction.
    pub open spec fn push_result(pre: VM, post: VM, n_pop: int, v: Value) -> bool {
        &&& Self::stack_shape(pre, post, pre.stack_top - n_pop + 1, pre.stack_top - n_pop)
        &&& post.val(post.stack@[pre.stack_top - n_pop]) == v
        &&& Self::frames_globals_unchanged(pre, post)
        &&& Self::roots_preserved(pre, post)
        &&& post.pc == pre.pc + 1
    }

    pub open spec fn const_spec(pre: VM, post: VM, r: Result<StepEffect, VmError>, v: Value) -> bool {
        if pre.stack_top >= pre.stack@.len() {
            r == Err::<StepEffect, VmError>(VmError::StackOverflow) && post == pre
        } else {
            r == Ok::<StepEffect, VmError>(StepEffect::Ran) && Self::push_result(pre, post, 0, v)
        }
    }

    pub open spec fn arith_value(op: Opcode, x: i64, y: i64) -> Option<i64> {
        match op {
            Opcode::Add2 => x.checked_add(y),
            Opcode::Sub2 => x.checked_sub(y),
            Opcode::Mul2 => x.checked_mul(y),
            Opcode::Div2 => x.checked_div(y),
            Opcode::Mod2 => x.checked_rem(y),
            _ => None,
        }
    }

    pub open spec fn compare_value(op: Opcode, x: i64, y: i64) -> bool {
        match op {
            Opcode::Eq2 => x == y,
            Opcode::Neq2 => x != y,
            Opcode::Lt2 => x < y,
            Opcode::Gt2 => x > y,
            Opcode::Le2 => x <= y,
            Opcode::Ge2 => x >= y,
            _ => false,
        }
    }

    /// Pop right, pop left; both must be integers, or, for addition alone,
    /// both strings (concatenation); the result is allocated and pushed.
    pub open spec fn arith_spec(pre: VM, post: VM, r: Result<StepEffect, VmError>, op: Opcode) -> bool {
        let top = pre.stack_top as int;
        if top < 2 {
            r == Err::<StepEffect, VmError>(VmError::StackUnderflow) && post == pre
        } else {
            let a = pre.val(pre.stack@[top - 2]);
            let b = pre.val(pre.stack@[top - 1]);
            match (a, b) {
                (Value::Integer(x), Value::Integer(y)) => {
                    if (op is Div2 || op is Mod2) && y == 0 {
                        r == Err::<StepEffect, VmError>(VmError::DivisionByZero) && post == pre
                    } else {
                        match Self::arith_value(op, x, y) {
                            Some(z) => r == Ok::<StepEffect, VmError>(StepEffect::Ran)
                                && Self::push_result(pre, post, 2, Value::Integer(z)),
                            None => r == Err::<StepEffect, VmError>(VmError::IntegerOverflow)
                                && post == pre,
                        }
                    }
                }
                (Value::String(x), Value::String(y)) => {
                    if op is Add2 {
                        &&& r == Ok::<StepEffect, VmError>(StepEffect::Ran)
                        &&& Self::stack_shape(pre, post, top - 1, top - 2)
                        &&& post.val(post.stack@[top - 2]) is String
                        &&& post.val(post.stack@[top - 2])->String_0@ == x@ + y@
                        &&& Self::frames_globals_unchanged(pre, post)
                        &&& Self::roots_preserved(pre, post)
                        &&& post.pc == pre.pc + 1
                    } else {
                        r == Err::<StepEffect, VmError>(VmError::InvalidOperands) && post == pre
                    }
                }
                _ => r == Err::<StepEffect, VmError>(VmError::InvalidOperands) && post == pre,
            }
        }
    }

    pub open spec fn compare_spec(pre: VM, post: VM, r: Result<StepEffect, VmError>, op: Opcode) -> bool {
        let top = pre.stack_top as int;
        if top < 2 {
            r == Err::<StepEffect, VmError>(VmError::StackUnderflow) && post == pre
        } else {
            let a = pre.val(pre.stack@[top - 2]);
            let b = pre.val(pre.stack@[top - 1]);
            match (a, b) {
                (Value::Integer(x), Value::Integer(y)) => r == Ok::<StepEffect, VmError>(
                    StepEffect::Ran,
                ) && Self::push_result(pre, post, 2, Value::Boolean(Self::compare_value(op, x, y))),
                _ => r == Err::<StepEffect, VmError>(VmError::InvalidOperands) && post == pre,
            }
        }
    }

    /// A call of a bytecode function: a fresh frame holds the arguments in
    /// slots 0 .. n-1 and the return address, the callee and arguments leave
    /// the operand stack, and execution continues at the function's entry.
    pub open spec fn bytecode_call_spec(pre: VM, post: VM, n: int, addr: int) -> bool {
        let top = pre.stack_top as int;
        &&& Self::stack_shape(pre, post, top - n - 1, top - n - 1)
        &&& post.gc == pre.gc
        &&& post.globals == pre.globals
        &&& post.opcode@ == pre.opcode@
        &&& post.stack_frame_top == pre.stack_frame_top + 1
        &&& post.stack_frames@.len() == pre.stack_frames@.len() + 1
        &&& forall|g: int|
            0 <= g < pre.stack_frames@.len() ==> post.stack_frames@[g] == pre.stack_frames@[g]
        &&& post.stack_frames@.last().return_pc == Some((pre.pc + 1) as usize)
        &&& post.stack_frames@.last().memory@.len() == n
        &&& forall|j: int|
            0 <= j < n ==> post.stack_frames@.last().memory@[j] == pre.stack@[top - n + j]
        &&& post.pc == addr
    }

    /// A call of a native function: the callee and arguments leave the
    /// operand stack, the native's boxed result takes their place, and
    /// execution falls through to the instruction after the call.
    pub open spec fn native_ret_shape(pre: VM, post: VM, n: int) -> bool {
        let top = pre.stack_top as int;
        &&& Self::stack_shape(pre, post, top - n, top - n - 1)
        &&& Self::frames_globals_unchanged(pre, post)
        &&& Self::roots_preserved(pre, post)
        &&& post.pc == pre.pc + 1
    }

    pub open spec fn native_call_spec(
        pre: VM,
        post: VM,
        r: Result<StepEffect, VmError>,
        n: int,
        nf: NativeFunction,
    ) -> bool {
        let top = pre.stack_top as int;
        let arg_ptr = if n >= 1 {
            pre.stack@[top - n]
        } else {
            pre.globals.invalid_obj
        };
        let argv = pre.val(arg_ptr);
        if argv is Invalid {
            r == Err::<StepEffect, VmError>(VmError::UninitializedAccess) && post == pre
        } else {
            match nf {
                NativeFunction::Println => {
                    &&& r matches Ok(StepEffect::Print(line)) && line@ == render_spec(argv)
                    &&& Self::native_ret_shape(pre, post, n)
                    &&& post.val(post.stack@[top - n - 1]) is Null
                }
                NativeFunction::Str => {
                    &&& r == Ok::<StepEffect, VmError>(StepEffect::Ran)
                    &&& Self::native_ret_shape(pre, post, n)
                    &&& post.val(post.stack@[top - n - 1]) is String
                    &&& post.val(post.stack@[top - n - 1])->String_0@ == render_spec(argv)
                }
            }
        }
    }

    /// What one fetch-execute step does, by instruction.
    pub open spec fn step_spec(pre: VM, post: VM, r: Result<StepEffect, VmError>) -> bool {
        let top = pre.stack_top as int;
        if pre.pc >= pre.opcode@.len() {
            r == Ok::<StepEffect, VmError>(StepEffect::Idle) && post == pre
        } else {
            match pre.opcode@[pre.pc as int] {
                Opcode::Nop => r == Ok::<StepEffect, VmError>(StepEffect::Ran) && post == (VM {
                    pc: (pre.pc + 1) as usize,
                    ..pre
                }),
                Opcode::ConstInt(k) => Self::const_spec(pre, post, r, Value::Integer(k)),
                Opcode::ConstNull => Self::const_spec(pre, post, r, Value::Null),
                Opcode::ConstString(cs) => Self::const_spec(pre, post, r, Value::String(cs)),
                Opcode::CreateFunction(addr, n) => Self::const_spec(
                    pre,
                    post,
                    r,
                    Value::Function(
                        Box::new(
                            FunctionInfo {
                                address: FunctionAddress::Bytecode(addr),
                                n_params: n,
                            },
                        ),
                    ),
                ),
                Opcode::Add2 => Self::arith_spec(pre, post, r, Opcode::Add2),
                Opcode::Sub2 => Self::arith_spec(pre, post, r, Opcode::Sub2),
                Opcode::Mul2 => Self::arith_spec(pre, post, r, Opcode::Mul2),
                Opcode::Div2 => Self::arith_spec(pre, post, r, Opcode::Div2),
                Opcode::Mod2 => Self::arith_spec(pre, post, r, Opcode::Mod2),
                Opcode::Eq2 => Self::compare_spec(pre, post, r, Opcode::Eq2),
                Opcode::Neq2 => Self::compare_spec(pre, post, r, Opcode::Neq2),
                Opcode::Lt2 => Self::compare_spec(pre, post, r, Opcode::Lt2),
                Opcode::Gt2 => Self::compare_spec(pre, post, r, Opcode::Gt2),
                Opcode::Le2 => Self::compare_spec(pre, post, r, Opcode::Le2),
                Opcode::Ge2 => Self::compare_spec(pre, post, r, Opcode::Ge2),
                Opcode::Rot2 => {
                    // exchanges the two topmost operands
                    if top < 2 {
                        r == Err::<StepEffect, VmError>(VmError::StackUnderflow) && post == pre
                    } else {
                        &&& r == Ok::<StepEffect, VmError>(StepEffect::Ran)
                        &&& post == (VM {
                            stack: post.stack,
                            pc: (pre.pc + 1) as usize,
                            ..pre
                        })
                        &&& post.stack@ == pre.stack@.update(top - 2, pre.stack@[top - 1]).update(
                            top - 1,
                            pre.stack@[top - 2],
                        )
                    }
                }
                Opcode::Exit => {
                    if top < 1 {
                        r == Err::<StepEffect, VmError>(VmError::StackUnderflow) && post == pre
                    } else {
                        match pre.val(pre.stack@[top - 1]) {
                            Value::Integer(c) => {
                                &&& r == Ok::<StepEffect, VmError>(StepEffect::Exit(c))
                                &&& post == (VM { stack_top: (top - 1) as usize, ..pre })
                            }
                            _ => r == Err::<StepEffect, VmError>(VmError::InvalidExitCode) && post
                                == pre,
                        }
                    }
                }
                Opcode::Discard => {
                    if top < 1 {
                        r == Err::<StepEffect, VmError>(VmError::StackUnderflow) && post == pre
                    } else {
                        &&& r == Ok::<StepEffect, VmError>(StepEffect::Ran)
                        &&& post == (VM {
                            stack_top: (top - 1) as usize,
                            pc: (pre.pc + 1) as usize,
                            ..pre
                        })
                    }
                }
                Opcode::Store(slot) => {
                    if top < 1 {
                        r == Err::<StepEffect, VmError>(VmError::StackUnderflow) && post == pre
                    } else if slot == usize::MAX {
                        r == Err::<StepEffect, VmError>(VmError::FrameOverflow) && post == pre
                    } else {
                        &&& r == Ok::<StepEffect, VmError>(StepEffect::Ran)
                        &&& Self::stack_shape(pre, post, top - 1, top - 1)
                        &&& post.gc == pre.gc
                        &&& post.globals == pre.globals
                        &&& post.opcode@ == pre.opcode@
                        &&& post.stack_frame_top == pre.stack_frame_top
                        &&& post.stack_frames@.len() == pre.stack_frames@.len()
                        &&& forall|g: int|
                            0 <= g < pre.stack_frames@.len() && g != pre.stack_frame_top
                                ==> post.stack_frames@[g] == pre.stack_frames@[g]
                        &&& LinearMemory::stored(
                            pre.stack_frames@[pre.stack_frame_top as int],
                            post.stack_frames@[pre.stack_frame_top as int],
                            slot as int,
                            pre.stack@[top - 1],
                        )
                        &&& post.pc == pre.pc + 1
                    }
                }
                Opcode::Load(slot) => {
                    if pre.stack_top >= pre.stack@.len() {
                        r == Err::<StepEffect, VmError>(VmError::StackOverflow) && post == pre
                    } else {
                        let f = pre.stack_frames@[pre.stack_frame_top as int];
                        let loaded = if slot < f.memory@.len() {
                            f.memory@[slot as int]
                        } else {
                            f.invalid_obj
                        };
                        &&& r == Ok::<StepEffect, VmError>(StepEffect::Ran)
                        &&& post == (VM {
                            stack: post.stack,
                            stack_top: (top + 1) as usize,
                            pc: (pre.pc + 1) as usize,
                            ..pre
                        })
                        &&& post.stack@ == pre.stack@.update(top, loaded)
                    }
                }
                Opcode::StoreGlobal(name) => {
                    if top < 1 {
                        r == Err::<StepEffect, VmError>(VmError::StackUnderflow) && post == pre
                    } else {
                        &&& r == Ok::<StepEffect, VmError>(StepEffect::Ran)
                        &&& Self::stack_shape(pre, post, top - 1, top - 1)
                        &&& post.gc == pre.gc
                        &&& post.stack_frames@ == pre.stack_frames@
                        &&& post.stack_frame_top == pre.stack_frame_top
                        &&& post.opcode@ == pre.opcode@
                        &&& NameMemory::stored(
                            pre.globals,
                            post.globals,
                            name@,
                            pre.stack@[top - 1],
                        )
                        &&& post.pc == pre.pc + 1
                    }
                }
                Opcode::LoadGlobal(name) => {
                    if pre.stack_top >= pre.stack@.len() {
                        r == Err::<StepEffect, VmError>(VmError::StackOverflow) && post == pre
                    } else {
                        let loaded = if pre.globals.has_name(name@) {
                            pre.globals.memory@[choose|i: int|
                                0 <= i < pre.globals.memory@.len() && (#[trigger] pre.globals.memory@[i]).0@
                                    == name@].1
                        } else {
                            pre.globals.invalid_obj
                        };
                        &&& r == Ok::<StepEffect, VmError>(StepEffect::Ran)
                        &&& post == (VM {
                            stack: post.stack,
                            stack_top: (top + 1) as usize,
                            pc: (pre.pc + 1) as usize,
                            ..pre
                        })
                        &&& post.stack@ == pre.stack@.update(top, loaded)
                    }
                }
                Opcode::JmpAlways(a) => r == Ok::<StepEffect, VmError>(StepEffect::Ran) && post
                    == (VM { pc: a, ..pre }),
                Opcode::JmpIfTrue(a) => {
                    if top < 1 {
                        r == Err::<StepEffect, VmError>(VmError::StackUnderflow) && post == pre
                    } else {
                        match pre.val(pre.stack@[top - 1]) {
                            Value::Boolean(c) => {
                                &&& r == Ok::<StepEffect, VmError>(StepEffect::Ran)
                                &&& post == (VM {
                                    stack_top: (top - 1) as usize,
                                    pc: if c {
                                        a
                                    } else {
                                        (pre.pc + 1) as usize
                                    },
                                    ..pre
                                })
                            }
                            _ => r == Err::<StepEffect, VmError>(VmError::InvalidCondition) && post
                                == pre,
                        }
                    }
                }
                Opcode::JmpIfFalse(a) => {
                    if top < 1 {
                        r == Err::<StepEffect, VmError>(VmError::StackUnderflow) && post == pre
                    } else {
                        match pre.val(pre.stack@[top - 1]) {
                            Value::Boolean(c) => {
                                &&& r == Ok::<StepEffect, VmError>(StepEffect::Ran)
                                &&& post == (VM {
                                    stack_top: (top - 1) as usize,
                                    pc: if !c {
                                        a
                                    } else {
                                        (pre.pc + 1) as usize
                                    },
                                    ..pre
                                })
                            }
                            _ => r == Err::<StepEffect, VmError>(VmError::InvalidCondition) && post
                                == pre,
                        }
                    }
                }
                Opcode::CallNoKw(n) => {
                    if top < n + 1 {
                        r == Err::<StepEffect, VmError>(VmError::StackUnderflow) && post == pre
                    } else {
                        match pre.val(pre.stack@[top - n - 1]) {
                            Value::Function(fi) => {
                                if fi.n_params != n {
                                    r == Err::<StepEffect, VmError>(VmError::ArityMismatch) && post
                                        == pre
                                } else {
                                    match fi.address {
                                        FunctionAddress::Bytecode(addr) => r == Ok::<
                                            StepEffect,
                                            VmError,
                                        >(StepEffect::Ran) && Self::bytecode_call_spec(
                                            pre,
                                            post,
                                            n as int,
                                            addr as int,
                                        ),
                                        FunctionAddress::Native(nf) => Self::native_call_spec(
                                            pre,
                                            post,
                                            r,
                                            n as int,
                                            nf,
                                        ),
                                    }
                                }
                            }
                            _ => r == Err::<StepEffect, VmError>(VmError::NotAFunction) && post
                                == pre,
                        }
                    }
                }
                Opcode::Return => {
                    if pre.stack_frame_top == 0 {
                        r == Err::<StepEffect, VmError>(VmError::ReturnWithoutCall) && post == pre
                    } else {
                        match pre.stack_frames@[pre.stack_frame_top as int].return_pc {
                            None => r == Err::<StepEffect, VmError>(VmError::ReturnWithoutCall)
                                && post == pre,
                            Some(rpc) => {
                                &&& r == Ok::<StepEffect, VmError>(StepEffect::Ran)
                                &&& post == (VM {
                                    stack_frames: post.stack_frames,
                                    stack_frame_top: (pre.stack_frame_top - 1) as usize,
                                    pc: rpc,
                                    ..pre
                                })
                                &&& post.stack_frames@ == pre.stack_frames@.subrange(
                                    0,
                                    pre.stack_frames@.len() - 1,
                                )
                            }
                        }
                    }
                }
            }
        }
    }
}

impl VM {
    fn int_of(&self, p: ObjectPtr) -> (r: Option<i64>)
        requires
            self.wf(),
            self.gc.live(p.index as int),
        ensures
            match r {
                Some(x) => self.val(p) == Value::Integer(x),
                None => !(self.val(p) is Integer),
            },
    {
        match &self.gc.slots[p.index] {
            Some(o) => match &o.value {
                Value::Integer(i) => Some(*i),
                _ => None,
            },
            None => {
                proof {
                    assert(false);
                }
                None
            }
        }
    }

    fn bool_of(&self, p: ObjectPtr) -> (r: Option<bool>)
        requires
            self.wf(),
            self.gc.live(p.index as int),
        ensures
            match r {
                Some(x) => self.val(p) == Value::Boolean(x),
                None => !(self.val(p) is Boolean),
            },
    {
        match &self.gc.slots[p.index] {
            Some(o) => match &o.value {
                Value::Boolean(b) => Some(*b),
                _ => None,
            },
            None => {
                proof {
                    assert(false);
                }
                None
            }
        }
    }

    fn string_of<'a>(&'a self, p: ObjectPtr) -> (r: Option<&'a String>)
        requires
            self.wf(),
            self.gc.live(p.index as int),
        ensures
            match r {
                Some(x) => self.val(p) is String && self.val(p)->String_0 == *x,
                None => !(self.val(p) is String),
            },
    {
        match &self.gc.slots[p.index] {
            Some(o) => match &o.value {
                Value::String(x) => Some(x),
                _ => None,
            },
            None => {
                proof {
                    assert(false);
                }
                None
            }
        }
    }

    fn fun_of(&self, p: ObjectPtr) -> (r: Option<FunctionInfo>)
        requires
            self.wf(),
            self.gc.live(p.index as int),
        ensures
            match r {
                Some(x) => self.val(p) is Function && self.val(p)->Function_0 == x,
                None => !(self.val(p) is Function),
            },
    {
        match &self.gc.slots[p.index] {
            Some(o) => match &o.value {
                Value::Function(fi) => Some(**fi),
                _ => None,
            },
            None => {
                proof {
                    assert(false);
                }
                None
            }
        }
    }

    /// Renders the value behind a live reference, unless it is the
    /// uninitialised sentinel.
    pub fn render_ptr(&self, p: ObjectPtr) -> (r: Option<String>)
        requires
            self.wf(),
            self.gc.live(p.index as int),
        ensures
            match r {
                Some(x) => !(self.val(p) is Invalid) && x@ == render_spec(self.val(p)),
                None => self.val(p) is Invalid,
            },
    {
        match &self.gc.slots[p.index] {
            Some(o) => render_value(&o.value),
            None => {
                proof {
                    assert(false);
                }
                None
            }
        }
    }

    /// Allocates a leaf value and pushes the fresh reference; fails only
    /// when the operand stack is at capacity, in which case nothing changes.
    fn push_fresh(&mut self, v: Value) -> (r: Result<(), VmError>)
        requires
            old(self).wf(),
            v.child_set() == Set::<int>::empty(),
        ensures
            final(self).wf(),
            final(self).pc == old(self).pc,
            match r {
                Ok(_) => {
                    &&& old(self).stack_top < old(self).stack@.len()
                    &&& VM::stack_shape(
                        *old(self),
                        *final(self),
                        old(self).stack_top + 1,
                        old(self).stack_top as int,
                    )
                    &&& final(self).val(final(self).stack@[old(self).stack_top as int]) == v
                    &&& VM::frames_globals_unchanged(*old(self), *final(self))
                    &&& VM::roots_preserved(*old(self), *final(self))
                },
                Err(e) => e == VmError::StackOverflow && old(self).stack_top >= old(
                    self,
                ).stack@.len() && *final(self) == *old(self),
            },
    {
        if self.stack_top >= self.stack.len() {
            return Err(VmError::StackOverflow);
        }
        let p = self.alloc_object(Object::new_from_value(v));
        let top = self.stack_top;
        self.stack.set(top, p);
        self.stack_top = top + 1;
        proof {
            assert forall|x: int| self.is_vm_root(x) implies self.gc.live(x) by {
                if exists|i: int|
                    0 <= i < self.stack_top && (#[trigger] self.stack@[i]).index == x {
                    let i = choose|i: int|
                        0 <= i < self.stack_top && (#[trigger] self.stack@[i]).index == x;
                    if i < top {
                        assert(old(self).is_vm_root(x));
                    } else {
                        assert(x == p.index as int);
                    }
                } else {
                    assert(old(self).is_vm_root(x));
                }
            }
            assert(old(self).is_vm_root(old(self).globals.invalid_obj.index as int));
        }
        Ok(())
    }

    /// Replaces the two topmost operands by a fresh object holding `v`.
    fn replace2_fresh(&mut self, v: Value)
        requires
            old(self).wf(),
            old(self).stack_top >= 2,
            v.child_set() == Set::<int>::empty(),
        ensures
            final(self).wf(),
            final(self).pc == old(self).pc,
            VM::stack_shape(
                *old(self),
                *final(self),
                old(self).stack_top - 1,
                old(self).stack_top - 2,
            ),
            final(self).val(final(self).stack@[old(self).stack_top - 2]) == v,
            VM::frames_globals_unchanged(*old(self), *final(self)),
            VM::roots_preserved(*old(self), *final(self)),
    {
        let p = self.alloc_object(Object::new_from_value(v));
        let dest = self.stack_top - 2;
        self.stack.set(dest, p);
        self.stack_top = self.stack_top - 1;
        proof {
            assert forall|x: int| self.is_vm_root(x) implies self.gc.live(x) by {
                if exists|i: int|
                    0 <= i < self.stack_top && (#[trigger] self.stack@[i]).index == x {
                    let i = choose|i: int|
                        0 <= i < self.stack_top && (#[trigger] self.stack@[i]).index == x;
                    if i != dest {
                        assert(old(self).stack@[i] == self.stack@[i]);
                        assert(old(self).is_vm_root(x));
                    } else {
                        assert(x == p.index as int);
                    }
                } else {
                    assert(old(self).is_vm_root(x));
                }
            }
            assert(old(self).is_vm_root(old(self).globals.invalid_obj.index as int));
        }
    }

    /// Finishes a native call: the callee and its arguments leave the stack,
    /// a fresh object holding the native's result takes their place, and
    /// execution falls through to the next instruction.
    fn native_return(&mut self, n_args: usize, v: Value)
        requires
            old(self).wf(),
            n_args < old(self).stack_top,
            old(self).pc < usize::MAX,
            v.child_set() == Set::<int>::empty(),
        ensures
            final(self).wf(),
            VM::native_ret_shape(*old(self), *final(self), n_args as int),
            final(self).val(final(self).stack@[old(self).stack_top - n_args - 1]) == v,
    {
        let p = self.alloc_object(Object::new_from_value(v));
        let dest = self.stack_top - n_args - 1;
        self.stack.set(dest, p);
        self.stack_top = dest + 1;
        self.pc = self.pc + 1;
        proof {
            assert forall|x: int| self.is_vm_root(x) implies self.gc.live(x) by {
                if exists|i: int|
                    0 <= i < self.stack_top && (#[trigger] self.stack@[i]).index == x {
                    let i = choose|i: int|
                        0 <= i < self.stack_top && (#[trigger] self.stack@[i]).index == x;
                    if i != dest {
                        assert(old(self).stack@[i] == self.stack@[i]);
                        assert(old(self).is_vm_root(x));
                    } else {
                        assert(x == p.index as int);
                    }
                } else {
                    assert(old(self).is_vm_root(x));
                }
            }
            assert(old(self).is_vm_root(old(self).globals.invalid_obj.index as int));
        }
    }

    /// Between the mark and sweep phases of a collection: every marked
    /// object's children are live and marked, every machine root is marked,
    /// and the machine's structure is intact.
    pub open spec fn marks_ready(self) -> bool {
        &&& self.stack_top <= self.stack@.len()
        &&& self.stack_frames@.len() == self.stack_frame_top + 1
        &&& self.globals.wf()
        &&& self.gc.children_live()
        &&& self.gc.marked_closed()
        &&& forall|x: int| self.is_vm_root(x) ==> self.gc.live(x) && self.gc.marked(x)
        &&& self.val(self.globals.invalid_obj) is Invalid
    }

    /// The mark phase over the machine's own root set: afterwards exactly
    /// the objects reachable from the operand stack, the frames, and the
    /// globals are marked, and the machine is ready for the sweep.
    pub fn gc_mark(&mut self)
        requires
            old(self).wf(),
        ensures
            *final(self) == (VM { gc: final(self).gc, ..*old(self) }),
            final(self).marks_ready(),
            final(self).gc.slots@.len() == old(self).gc.slots@.len(),
            forall|i: int| final(self).gc.live(i) == old(self).gc.live(i),
            forall|i: int|
                old(self).gc.live(i) ==> final(self).gc.value_at(i) == old(self).gc.value_at(i),
            forall|i: int|
                old(self).gc.live(i) ==> (final(self).gc.marked(i) <==> reachable(
                    old(self).gc.slots@,
                    Set::new(|x: int| old(self).is_vm_root(x)),
                    i,
                )),
            final(self).gc.num_objects == old(self).gc.num_objects,
            final(self).gc.max_objects == old(self).gc.max_objects,
            final(self).gc.all_allocated == old(self).gc.all_allocated,
    {
        let roots = self.collect_roots();
        proof {
            assert forall|j: int|
                0 <= j < roots@.len() implies self.gc.live(
                (#[trigger] roots@[j]).index as int,
            ) by {
                assert(self.is_vm_root(roots@[j].index as int));
            }
        }
        self.gc.mark_from_roots(&roots);
        proof {
            let vmroots = Set::new(|x: int| old(self).is_vm_root(x));
            assert(ptr_index_set(roots@) =~= vmroots) by {
                assert forall|x: int| ptr_index_set(roots@).contains(x) implies vmroots.contains(
                    x,
                ) by {
                    let j = choose|j: int| 0 <= j < roots@.len() && (#[trigger] roots@[j]).index == x;
                    assert(old(self).is_vm_root(x));
                }
                assert forall|x: int| vmroots.contains(x) implies ptr_index_set(roots@).contains(
                    x,
                ) by {
                    assert(holds_index(roots@, x));
                }
            }
            assert forall|x: int| self.is_vm_root(x) implies self.gc.live(x) && self.gc.marked(
                x,
            ) by {
                assert(old(self).is_vm_root(x));
                crate::gc::lemma_roots_reachable(old(self).gc.slots@, ptr_index_set(roots@), x);
            }
            assert(old(self).is_vm_root(old(self).globals.invalid_obj.index as int));
            assert(self.val(self.globals.invalid_obj) is Invalid);
        }
    }

    /// The sweep phase: reclaims every unmarked object, clears the marks of
    /// the survivors, and updates the object count.  With the machine's
    /// roots marked, its invariant holds again afterwards.
    pub fn gc_sweep(&mut self)
        requires
            old(self).marks_ready(),
        ensures
            final(self).wf(),
            *final(self) == (VM { gc: final(self).gc, ..*old(self) }),
            final(self).gc.slots@.len() == old(self).gc.slots@.len(),
            forall|i: int|
                final(self).gc.live(i) <==> (old(self).gc.live(i) && old(self).gc.marked(i)),
            forall|i: int|
                final(self).gc.live(i) ==> final(self).gc.value_at(i) == old(self).gc.value_at(i),
            final(self).gc.num_objects == crate::gc::count_live(final(self).gc.slots@),
            final(self).gc.max_objects == old(self).gc.max_objects,
            final(self).gc.all_allocated == old(self).gc.all_allocated,
    {
        proof {
            assert forall|i: int, c: int|
                crate::gc::slot_marked(self.gc.slots@, i) && #[trigger] crate::gc::is_child(
                    self.gc.slots@,
                    i,
                    c,
                ) implies self.gc.live(c) && self.gc.marked(c) by {}
        }
        let n = self.gc.sweep();
        let ghost after = self.gc;
        self.gc.num_objects = n;
        proof {
            assert(self.gc.slots@ == after.slots@);
            assert forall|i: int| self.gc.live(i) implies !self.gc.marked(i) by {
                assert(after.live(i));
                assert(!after.marked(i));
            }
            assert forall|i: int, c: int|
                #[trigger] crate::gc::is_child(self.gc.slots@, i, c) implies self.gc.live(c) by {
                assert(crate::gc::is_child(after.slots@, i, c));
                assert(after.live(c));
            }
            assert forall|x: int| self.is_vm_root(x) implies self.gc.live(x) by {
                assert(old(self).is_vm_root(x));
            }
            assert(old(self).is_vm_root(old(self).globals.invalid_obj.index as int));
            assert(self.val(self.globals.invalid_obj) is Invalid);
        }
    }

    /// Pop right, pop left; integers add, strings concatenate; the result
    /// is allocated and pushed.
    fn opcode_add(&mut self) -> (r: Result<StepEffect, VmError>)
        requires
            old(self).wf(),
            old(self).pc < usize::MAX,
        ensures
            final(self).wf(),
            final(self).opcode@ == old(self).opcode@,
            VM::arith_spec(*old(self), *final(self), r, Opcode::Add2),
    {
        if self.stack_top < 2 {
            return Err(VmError::StackUnderflow);
        }
        let pa = self.stack[self.stack_top - 2];
        let pb = self.stack[self.stack_top - 1];
        proof {
            assert(self.is_vm_root(pa.index as int));
            assert(self.is_vm_root(pb.index as int));
        }
        match (self.int_of(pa), self.int_of(pb)) {
            (Some(x), Some(y)) => {
                match x.checked_add(y) {
                    Some(z) => {
                        self.replace2_fresh(Value::const_int(z));
                        let ghost s1 = *self;
                        self.pc = self.pc + 1;
                        proof {
                            Self::lemma_wf_same_parts(s1, *self);
                        }
                        Ok(StepEffect::Ran)
                    }
                    None => Err(VmError::IntegerOverflow),
                }
            }
            _ => {
                let concatenated: Option<String> = match (self.string_of(pa), self.string_of(pb)) {
                    (Some(a), Some(b)) => {
                        let mut joined = a.clone();
                        joined.append(b.as_str());
                        Some(joined)
                    }
                    _ => None,
                };
                match concatenated {
                    Some(joined) => {
                        self.replace2_fresh(Value::const_string(joined));
                        let ghost s1 = *self;
                        self.pc = self.pc + 1;
                        proof {
                            Self::lemma_wf_same_parts(s1, *self);
                        }
                        Ok(StepEffect::Ran)
                    }
                    None => Err(VmError::InvalidOperands),
                }
            }
        }
    }

    /// Pop right, pop left; both must be integers; the checked result is
    /// allocated and pushed.
    fn opcode_arithmetic(&mut self, op: Opcode) -> (r: Result<StepEffect, VmError>)
        requires
            old(self).wf(),
            old(self).pc < usize::MAX,
            op is Sub2 || op is Mul2 || op is Div2 || op is Mod2,
        ensures
            final(self).wf(),
            final(self).opcode@ == old(self).opcode@,
            VM::arith_spec(*old(self), *final(self), r, op),
    {
        if self.stack_top < 2 {
            return Err(VmError::StackUnderflow);
        }
        let pa = self.stack[self.stack_top - 2];
        let pb = self.stack[self.stack_top - 1];
        proof {
            assert(self.is_vm_root(pa.index as int));
            assert(self.is_vm_root(pb.index as int));
        }
        match (self.int_of(pa), self.int_of(pb)) {
            (Some(x), Some(y)) => {
                let is_div = match op {
                    Opcode::Div2 => true,
                    Opcode::Mod2 => true,
                    _ => false,
                };
                if is_div && y == 0 {
                    return Err(VmError::DivisionByZero);
                }
                let z: Option<i64> = match op {
                    Opcode::Sub2 => x.checked_sub(y),
                    Opcode::Mul2 => x.checked_mul(y),
                    Opcode::Div2 => x.checked_div(y),
                    _ => x.checked_rem(y),
                };
                match z {
                    Some(z) => {
                        self.replace2_fresh(Value::const_int(z));
                        let ghost s1 = *self;
                        self.pc = self.pc + 1;
                        proof {
                            Self::lemma_wf_same_parts(s1, *self);
                        }
                        Ok(StepEffect::Ran)
                    }
                    None => Err(VmError::IntegerOverflow),
                }
            }
            _ => Err(VmError::InvalidOperands),
        }
    }

    /// Pop right, pop left; both must be integers; the boolean result is
    /// allocated and pushed.
    fn opcode_compare(&mut self, op: Opcode) -> (r: Result<StepEffect, VmError>)
        requires
            old(self).wf(),
            old(self).pc < usize::MAX,
            op is Eq2 || op is Neq2 || op is Lt2 || op is Gt2 || op is Le2 || op is Ge2,
        ensures
            final(self).wf(),
            final(self).opcode@ == old(self).opcode@,
            VM::compare_spec(*old(self), *final(self), r, op),
    {
        if self.stack_top < 2 {
            return Err(VmError::StackUnderflow);
        }
        let pa = self.stack[self.stack_top - 2];
        let pb = self.stack[self.stack_top - 1];
        proof {
            assert(self.is_vm_root(pa.index as int));
            assert(self.is_vm_root(pb.index as int));
        }
        match (self.int_of(pa), self.int_of(pb)) {
            (Some(x), Some(y)) => {
                let c: bool = match op {
                    Opcode::Eq2 => x == y,
                    Opcode::Neq2 => x != y,
                    Opcode::Lt2 => x < y,
                    Opcode::Gt2 => x > y,
                    Opcode::Le2 => x <= y,
                    _ => x >= y,
                };
                self.replace2_fresh(Value::const_bool(c));
                let ghost s1 = *self;
                self.pc = self.pc + 1;
                proof {
                    Self::lemma_wf_same_parts(s1, *self);
                }
                Ok(StepEffect::Ran)
            }
            _ => Err(VmError::InvalidOperands),
        }
    }

    /// Pops the current frame and returns to its caller.
    fn pop_stackframe(&mut self)
        requires
            old(self).wf(),
            old(self).stack_frame_top >= 1,
        ensures
            final(self).wf(),
            *final(self) == (VM {
                stack_frames: final(self).stack_frames,
                stack_frame_top: (old(self).stack_frame_top - 1) as usize,
                ..*old(self)
            }),
            final(self).stack_frames@ == old(self).stack_frames@.subrange(
                0,
                old(self).stack_frames@.len() - 1,
            ),
    {
        let popped = self.stack_frames.pop();
        proof {
            assert(popped is Some);
        }
        self.stack_frame_top = self.stack_frame_top - 1;
        proof {
            assert forall|x: int| self.is_vm_root(x) implies self.gc.live(x) by {
                if exists|f: int, j: int|
                    0 <= f < self.stack_frames@.len() && 0 <= j
                        < self.stack_frames@[f].memory@.len() && (
                    #[trigger] self.stack_frames@[f].memory@[j]).index == x {
                    let (f, j) = choose|f: int, j: int|
                        0 <= f < self.stack_frames@.len() && 0 <= j
                            < self.stack_frames@[f].memory@.len() && (
                        #[trigger] self.stack_frames@[f].memory@[j]).index == x;
                    assert(self.stack_frames@[f] == old(self).stack_frames@[f]);
                    assert(old(self).is_vm_root(x));
                } else if exists|f: int|
                    0 <= f < self.stack_frames@.len() && (
                    #[trigger] self.stack_frames@[f]).invalid_obj.index == x {
                    let f = choose|f: int|
                        0 <= f < self.stack_frames@.len() && (
                        #[trigger] self.stack_frames@[f]).invalid_obj.index == x;
                    assert(self.stack_frames@[f] == old(self).stack_frames@[f]);
                    assert(old(self).is_vm_root(x));
                } else {
                    assert(old(self).is_vm_root(x));
                }
            }
        }
    }

    /// A change of the instruction pointer or code vector alone cannot
    /// break the machine's invariant.
    proof fn lemma_wf_same_parts(a: VM, b: VM)
        requires
            a.wf(),
            b.stack == a.stack,
            b.stack_top == a.stack_top,
            b.stack_frames == a.stack_frames,
            b.stack_frame_top == a.stack_frame_top,
            b.globals == a.globals,
            b.gc == a.gc,
        ensures
            b.wf(),
    {
        assert forall|x: int| b.is_vm_root(x) implies b.gc.live(x) by {
            assert(a.is_vm_root(x));
        }
    }

    /// Executes exactly one instruction: fetch at the instruction pointer,
    /// dispatch by variant, and either fall through or jump.  Printing and
    /// process exit are handed back as effects; fatal errors leave the
    /// machine unchanged and are final.
    #[verifier::rlimit(100)]
    #[verifier::spinoff_prover]
    pub fn step_code(&mut self) -> (r: Result<StepEffect, VmError>)
        requires
            old(self).wf(),
        ensures
            final(self).wf(),
            VM::step_spec(*old(self), *final(self), r),
    {
        // early return if pc is past the code
        if self.pc >= self.opcode.len() {
            return Ok(StepEffect::Idle);
        }

        // fetch opcode
        let op = self.opcode[self.pc].clone();
        proof {
            assert(op == self.opcode@[self.pc as int]);
        }
        match op {
            Opcode::Nop => {
                let ghost s1 = *self;
                self.pc = self.pc + 1;
                proof {
                    Self::lemma_wf_same_parts(s1, *self);
                }
                Ok(StepEffect::Ran)
            }
            Opcode::ConstInt(k) => {
                match self.push_fresh(Value::const_int(k)) {
                    Ok(_) => {
                        let ghost s1 = *self;
                        self.pc = self.pc + 1;
                        proof {
                            Self::lemma_wf_same_parts(s1, *self);
                        }
                        Ok(StepEffect::Ran)
                    }
                    Err(e) => Err(e),
                }
            }
            Opcode::ConstNull => {
                match self.push_fresh(Value::Null) {
                    Ok(_) => {
                        let ghost s1 = *self;
                        self.pc = self.pc + 1;
                        proof {
                            Self::lemma_wf_same_parts(s1, *self);
                        }
                        Ok(StepEffect::Ran)
                    }
                    Err(e) => Err(e),
                }
            }
            Opcode::ConstString(cs) => {
                match self.push_fresh(Value::const_string(cs)) {
                    Ok(_) => {
                        let ghost s1 = *self;
                        self.pc = self.pc + 1;
                        proof {
                            Self::lemma_wf_same_parts(s1, *self);
                        }
                        Ok(StepEffect::Ran)
                    }
                    Err(e) => Err(e),
                }
            }
            Opcode::CreateFunction(addr, n) => {
                let fi = FunctionInfo::new(FunctionAddress::Bytecode(addr), n);
                match self.push_fresh(Value::Function(Box::new(fi))) {
                    Ok(_) => {
                        let ghost s1 = *self;
                        self.pc = self.pc + 1;
                        proof {
                            Self::lemma_wf_same_parts(s1, *self);
                        }
                        Ok(StepEffect::Ran)
                    }
                    Err(e) => Err(e),
                }
            }
            Opcode::Add2 => self.opcode_add(),
            Opcode::Sub2 => self.opcode_arithmetic(Opcode::Sub2),
            Opcode::Mul2 => self.opcode_arithmetic(Opcode::Mul2),
            Opcode::Div2 => self.opcode_arithmetic(Opcode::Div2),
            Opcode::Mod2 => self.opcode_arithmetic(Opcode::Mod2),
            Opcode::Eq2 => self.opcode_compare(Opcode::Eq2),
            Opcode::Neq2 => self.opcode_compare(Opcode::Neq2),
            Opcode::Lt2 => self.opcode_compare(Opcode::Lt2),
            Opcode::Gt2 => self.opcode_compare(Opcode::Gt2),
            Opcode::Le2 => self.opcode_compare(Opcode::Le2),
            Opcode::Ge2 => self.opcode_compare(Opcode::Ge2),
            Opcode::Rot2 => {
                if self.stack_top < 2 {
                    return Err(VmError::StackUnderflow);
                }
                let pa = self.stack[self.stack_top - 2];
                let pb = self.stack[self.stack_top - 1];
                self.stack.set(self.stack_top - 2, pb);
                self.stack.set(self.stack_top - 1, pa);
                self.pc = self.pc + 1;
                proof {
                    assert forall|x: int| self.is_vm_root(x) implies self.gc.live(x) by {
                        assert(old(self).is_vm_root(x));
                    }
                    assert(old(self).is_vm_root(old(self).globals.invalid_obj.index as int));
                }
                Ok(StepEffect::Ran)
            }
            Opcode::Exit => {
                if self.stack_top < 1 {
                    return Err(VmError::StackUnderflow);
                }
                let p = self.stack[self.stack_top - 1];
                proof {
                    assert(self.is_vm_root(p.index as int));
                }
                match self.int_of(p) {
                    Some(c) => {
                        self.stack_top = self.stack_top - 1;
                        proof {
                            assert forall|x: int| self.is_vm_root(x) implies self.gc.live(x) by {
                                assert(old(self).is_vm_root(x));
                            }
                        }
                        Ok(StepEffect::Exit(c))
                    }
                    None => Err(VmError::InvalidExitCode),
                }
            }
            Opcode::Discard => {
                if self.stack_top < 1 {
                    return Err(VmError::StackUnderflow);
                }
                self.stack_top = self.stack_top - 1;
                self.pc = self.pc + 1;
                proof {
                    assert forall|x: int| self.is_vm_root(x) implies self.gc.live(x) by {
                        assert(old(self).is_vm_root(x));
                    }
                }
                Ok(StepEffect::Ran)
            }
            Opcode::Store(address) => {
                if self.stack_top < 1 {
                    return Err(VmError::StackUnderflow);
                }
                if address == usize::MAX {
                    return Err(VmError::FrameOverflow);
                }
                let value = self.stack[self.stack_top - 1];
                proof {
                    assert(self.is_vm_root(value.index as int));
                }
                let idx = self.stack_frame_top;
                let mut tmp = LinearMemory::new(ObjectPtr { index: 0 });
                self.stack_frames.set_and_swap(idx, &mut tmp);
                tmp.store(address, value);
                self.stack_frames.set_and_swap(idx, &mut tmp);
                self.stack_top = self.stack_top - 1;
                self.pc = self.pc + 1;
                proof {
                    let pre = *old(self);
                    assert(self.stack_frames@ =~= pre.stack_frames@.update(
                        idx as int,
                        self.stack_frames@[idx as int],
                    ));
                    assert(LinearMemory::stored(
                        pre.stack_frames@[idx as int],
                        self.stack_frames@[idx as int],
                        address as int,
                        value,
                    ));
                    assert forall|x: int| self.is_vm_root(x) implies self.gc.live(x) by {
                        if exists|f: int, j: int|
                            0 <= f < self.stack_frames@.len() && 0 <= j
                                < self.stack_frames@[f].memory@.len() && (
                            #[trigger] self.stack_frames@[f].memory@[j]).index == x {
                            let (f, j) = choose|f: int, j: int|
                                0 <= f < self.stack_frames@.len() && 0 <= j
                                    < self.stack_frames@[f].memory@.len() && (
                                #[trigger] self.stack_frames@[f].memory@[j]).index == x;
                            if f == idx {
                                let prem = pre.stack_frames@[idx as int].memory@;
                                if j == address {
                                    assert(x == value.index as int);
                                    assert(pre.is_vm_root(x));
                                } else if j < prem.len() {
                                    assert(self.stack_frames@[f].memory@[j] == prem[j]);
                                    assert(pre.is_vm_root(x));
                                } else {
                                    assert(self.stack_frames@[f].memory@[j]
                                        == pre.stack_frames@[idx as int].invalid_obj);
                                    assert(pre.is_vm_root(x));
                                }
                            } else {
                                assert(self.stack_frames@[f] == pre.stack_frames@[f]);
                                assert(pre.is_vm_root(x));
                            }
                        } else if exists|f: int|
                            0 <= f < self.stack_frames@.len() && (
                            #[trigger] self.stack_frames@[f]).invalid_obj.index == x {
                            let f = choose|f: int|
                                0 <= f < self.stack_frames@.len() && (
                                #[trigger] self.stack_frames@[f]).invalid_obj.index == x;
                            assert(self.stack_frames@[f].invalid_obj
                                == pre.stack_frames@[f].invalid_obj);
                            assert(pre.is_vm_root(x));
                        } else {
                            assert(pre.is_vm_root(x));
                        }
                    }
                }
                Ok(StepEffect::Ran)
            }
            Opcode::Load(address) => {
                if self.stack_top >= self.stack.len() {
                    return Err(VmError::StackOverflow);
                }
                let value = self.current_stack_frame().load(address);
                proof {
                    assert(self.is_vm_root(value.index as int));
                }
                let top = self.stack_top;
                self.stack.set(top, value);
                self.stack_top = top + 1;
                self.pc = self.pc + 1;
                proof {
                    assert forall|x: int| self.is_vm_root(x) implies self.gc.live(x) by {
                        if exists|i: int|
                            0 <= i < self.stack_top && (#[trigger] self.stack@[i]).index == x {
                            let i = choose|i: int|
                                0 <= i < self.stack_top && (#[trigger] self.stack@[i]).index == x;
                            if i < top {
                                assert(old(self).stack@[i] == self.stack@[i]);
                                assert(old(self).is_vm_root(x));
                            } else {
                                assert(x == value.index as int);
                                assert(old(self).is_vm_root(x));
                            }
                        } else {
                            assert(old(self).is_vm_root(x));
                        }
                    }
                }
                Ok(StepEffect::Ran)
            }
            Opcode::StoreGlobal(name) => {
                if self.stack_top < 1 {
                    return Err(VmError::StackUnderflow);
                }
                let value = self.stack[self.stack_top - 1];
                proof {
                    assert(self.is_vm_root(value.index as int));
                }
                self.globals.store(name.as_str(), value);
                self.stack_top = self.stack_top - 1;
                self.pc = self.pc + 1;
                proof {
                    let pre = *old(self);
                    assert forall|x: int| self.is_vm_root(x) implies self.gc.live(x) by {
                        if exists|j: int|
                            0 <= j < self.globals.memory@.len() && (
                            #[trigger] self.globals.memory@[j]).1.index == x {
                            let j = choose|j: int|
                                0 <= j < self.globals.memory@.len() && (
                                #[trigger] self.globals.memory@[j]).1.index == x;
                            if self.globals.memory@[j].0@ == name@ {
                                assert(self.globals.memory@[j].1 == value);
                                assert(pre.is_vm_root(x));
                            } else {
                                assert(self.globals.memory@[j].1 == pre.globals.memory@[j].1);
                                assert(pre.is_vm_root(x));
                            }
                        } else {
                            assert(pre.is_vm_root(x));
                        }
                    }
                    assert(old(self).is_vm_root(old(self).globals.invalid_obj.index as int));
                }
                Ok(StepEffect::Ran)
            }
            Opcode::LoadGlobal(name) => {
                if self.stack_top >= self.stack.len() {
                    return Err(VmError::StackOverflow);
                }
                let value = self.globals.load(name.as_str());
                proof {
                    if self.globals.has_name(name@) {
                        let i = choose|i: int|
                            0 <= i < self.globals.memory@.len() && (
                            #[trigger] self.globals.memory@[i]).0@ == name@ && value
                                == self.globals.memory@[i].1;
                        assert(self.is_vm_root(value.index as int));
                        let iw = choose|i: int|
                            0 <= i < self.globals.memory@.len() && (
                            #[trigger] self.globals.memory@[i]).0@ == name@;
                        assert(self.globals.memory@[iw].1 == self.globals.memory@[i].1);
                    } else {
                        assert(self.is_vm_root(value.index as int));
                    }
                }
                let top = self.stack_top;
                self.stack.set(top, value);
                self.stack_top = top + 1;
                self.pc = self.pc + 1;
                proof {
                    assert forall|x: int| self.is_vm_root(x) implies self.gc.live(x) by {
                        if exists|i: int|
                            0 <= i < self.stack_top && (#[trigger] self.stack@[i]).index == x {
                            let i = choose|i: int|
                                0 <= i < self.stack_top && (#[trigger] self.stack@[i]).index == x;
                            if i < top {
                                assert(old(self).stack@[i] == self.stack@[i]);
                                assert(old(self).is_vm_root(x));
                            } else {
                                assert(x == value.index as int);
                                assert(old(self).is_vm_root(x));
                            }
                        } else {
                            assert(old(self).is_vm_root(x));
                        }
                    }
                }
                Ok(StepEffect::Ran)
            }
            Opcode::JmpAlways(address) => {
                let ghost s1 = *self;
                self.pc = address;
                proof {
                    Self::lemma_wf_same_parts(s1, *self);
                }
                Ok(StepEffect::Ran)
            }
            Opcode::JmpIfTrue(address) => {
                if self.stack_top < 1 {
                    return Err(VmError::StackUnderflow);
                }
                let p = self.stack[self.stack_top - 1];
                proof {
                    assert(self.is_vm_root(p.index as int));
                }
                match self.bool_of(p) {
                    Some(c) => {
                        self.stack_top = self.stack_top - 1;
                        if c {
                            self.pc = address;
                        } else {
                            self.pc = self.pc + 1;
                        }
                        proof {
                            assert forall|x: int| self.is_vm_root(x) implies self.gc.live(x) by {
                                assert(old(self).is_vm_root(x));
                            }
                        }
                        Ok(StepEffect::Ran)
                    }
                    None => Err(VmError::InvalidCondition),
                }
            }
            Opcode::JmpIfFalse(address) => {
                if self.stack_top < 1 {
                    return Err(VmError::StackUnderflow);
                }
                let p = self.stack[self.stack_top - 1];
                proof {
                    assert(self.is_vm_root(p.index as int));
                }
                match self.bool_of(p) {
                    Some(c) => {
                        self.stack_top = self.stack_top - 1;
                        if !c {
                            self.pc = address;
                        } else {
                            self.pc = self.pc + 1;
                        }
                        proof {
                            assert forall|x: int| self.is_vm_root(x) implies self.gc.live(x) by {
                                assert(old(self).is_vm_root(x));
                            }
                        }
                        Ok(StepEffect::Ran)
                    }
                    None => Err(VmError::InvalidCondition),
                }
            }
            Opcode::CallNoKw(n_args) => {
                if n_args >= self.stack_top {
                    return Err(VmError::StackUnderflow);
                }
                let fun_ptr = self.stack[self.stack_top - n_args - 1];
                proof {
                    assert(self.is_vm_root(fun_ptr.index as int));
                }
                match self.fun_of(fun_ptr) {
                    None => Err(VmError::NotAFunction),
                    Some(fi) => {
                        if fi.n_params() != n_args {
                            return Err(VmError::ArityMismatch);
                        }
                        match fi.address {
                            FunctionAddress::Bytecode(addr) => {
                                // the fresh frame carries the return address
                                // and the arguments in order
                                let inv = self.globals.invalid_obj;
                                let mut frame = LinearMemory::new_with_return(inv, self.pc + 1);
                                let mut i: usize = 0;
                                while i < n_args
                                    invariant
                                        n_args < self.stack_top,
                                        self.stack_top <= self.stack@.len(),
                                        i <= n_args,
                                        frame.memory@.len() == i,
                                        frame.return_pc == Some((self.pc + 1) as usize),
                                        frame.invalid_obj == inv,
                                        self.pc < usize::MAX,
                                        forall|j: int|
                                            0 <= j < i ==> frame.memory@[j] == self.stack@[
                                                self.stack_top - n_args + j],
                                        *self == *old(self),
                                    decreases n_args - i,
                                {
                                    frame.store(i, self.stack[self.stack_top - n_args + i]);
                                    i += 1;
                                }
                                self.stack_frames.push(frame);
                                let flen = self.stack_frames.len();
                                self.stack_frame_top = flen - 1;
                                self.stack_top = self.stack_top - n_args - 1;
                                self.pc = addr;
                                proof {
                                    let pre = *old(self);
                                    assert forall|x: int|
                                        self.is_vm_root(x) implies self.gc.live(x) by {
                                        if exists|f: int, j: int|
                                            0 <= f < self.stack_frames@.len() && 0 <= j
                                                < self.stack_frames@[f].memory@.len() && (
                                            #[trigger] self.stack_frames@[f].memory@[j]).index
                                                == x {
                                            let (f, j) = choose|f: int, j: int|
                                                0 <= f < self.stack_frames@.len() && 0 <= j
                                                    < self.stack_frames@[f].memory@.len() && (
                                                #[trigger] self.stack_frames@[f].memory@[j]).index
                                                    == x;
                                            if f < pre.stack_frames@.len() {
                                                assert(self.stack_frames@[f]
                                                    == pre.stack_frames@[f]);
                                                assert(pre.is_vm_root(x));
                                            } else {
                                                assert(self.stack_frames@[f].memory@[j]
                                                    == pre.stack@[pre.stack_top - n_args + j]);
                                                assert(pre.is_vm_root(x));
                                            }
                                        } else if exists|f: int|
                                            0 <= f < self.stack_frames@.len() && (
                                            #[trigger] self.stack_frames@[f]).invalid_obj.index
                                                == x {
                                            let f = choose|f: int|
                                                0 <= f < self.stack_frames@.len() && (
                                                #[trigger] self.stack_frames@[f]).invalid_obj.index
                                                    == x;
                                            if f < pre.stack_frames@.len() {
                                                assert(self.stack_frames@[f]
                                                    == pre.stack_frames@[f]);
                                                assert(pre.is_vm_root(x));
                                            } else {
                                                assert(x == pre.globals.invalid_obj.index as int);
                                                assert(pre.is_vm_root(x));
                                            }
                                        } else {
                                            assert(pre.is_vm_root(x));
                                        }
                                    }
                                }
                                Ok(StepEffect::Ran)
                            }
                            FunctionAddress::Native(nf) => {
                                // argument 0, as the callee frame would hold it
                                let arg_ptr = if n_args >= 1 {
                                    self.stack[self.stack_top - n_args]
                                } else {
                                    self.globals.invalid_obj
                                };
                                proof {
                                    assert(self.is_vm_root(arg_ptr.index as int));
                                }
                                match self.render_ptr(arg_ptr) {
                                    None => Err(VmError::UninitializedAccess),
                                    Some(line) => {
                                        match nf {
                                            NativeFunction::Println => {
                                                self.native_return(n_args, Value::Null);
                                                Ok(StepEffect::Print(line))
                                            }
                                            NativeFunction::Str => {
                                                self.native_return(
                                                    n_args,
                                                    Value::const_string(line),
                                                );
                                                Ok(StepEffect::Ran)
                                            }
                                        }
                                    }
                                }
                            }
                        }
                    }
                }
            }
            Opcode::Return => {
                if self.stack_frame_top == 0 {
                    return Err(VmError::ReturnWithoutCall);
                }
                let rpc = self.current_stack_frame().return_pc;
                match rpc {
                    None => Err(VmError::ReturnWithoutCall),
                    Some(rpc) => {
                        self.pop_stackframe();
                        let ghost s1 = *self;
                        self.pc = rpc;
                        proof {
                            Self::lemma_wf_same_parts(s1, *self);
                        }
                        Ok(StepEffect::Ran)
                    }
                }
            }
        }
    }
}

} // verus!
