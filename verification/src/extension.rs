use vstd::prelude::*;

use crate::object::{FunctionAddress, FunctionInfo, NativeFunction, ObjectPtr, Value};
use crate::vm::{NameMemory, VM};

verus! {

/// Describes one native function: its handler, its arity, and the global
/// name it is installed under.
#[derive(Debug, Clone)]
pub struct NativeFunctionInfo {
    pub address: NativeFunction,
    pub n_params: usize,
    pub name: String,
}

impl NativeFunctionInfo {
    pub fn new(address: NativeFunction, n_params: usize, name: String) -> (r: Self)
        ensures
            r.address == address,
            r.n_params == n_params,
            r.name == name,
    {
        Self { address, n_params, name }
    }

    pub fn address(&self) -> (r: &NativeFunction)
        ensures
            *r == self.address,
    {
        &self.address
    }

    pub fn n_params(&self) -> (r: usize)
        ensures
            r == self.n_params,
    {
        self.n_params
    }

    pub fn name(&self) -> (r: &String)
        ensures
            *r == self.name,
    {
        &self.name
    }
}

/// What a native description promises: handler, arity, and name characters.
pub open spec fn info_matches(
    info: NativeFunctionInfo,
    native: (NativeFunction, usize, Seq<char>),
) -> bool {
    &&& info.address == native.0
    &&& info.n_params == native.1
    &&& info.name@ == native.2
}

/// An extension is a bundle of native functions to install.  `natives` is
/// the bundle's own description of that list, and `register` delivers
/// exactly it.
pub trait RegisterableExtension {
    spec fn natives(&self) -> Seq<(NativeFunction, usize, Seq<char>)>;

    fn register(&self) -> (r: Vec<NativeFunctionInfo>)
        ensures
            r@.len() == self.natives().len(),
            forall|i: int|
                0 <= i < r@.len() ==> info_matches(#[trigger] r@[i], self.natives()[i]);
}

/// The global under `name` is a first-class function value carrying the
/// given native handler and arity.
#[verifier::opaque]
pub open spec fn native_bound(vm: VM, name: Seq<char>, address: NativeFunction, n_params: usize) -> bool {
    &&& vm.globals.has_name(name)
    &&& forall|b: int|
        0 <= b < vm.globals.memory@.len() && (#[trigger] vm.globals.memory@[b]).0@ == name
            ==> vm.val(vm.globals.memory@[b].1) == Value::Function(
            Box::new(FunctionInfo { address: FunctionAddress::Native(address), n_params }),
        )
}

/// Installs every native function of an extension, in order, as a
/// first-class callable value in the machine's globals.  For an extension
/// whose natives carry distinct names, afterwards every one of them is
/// bound to its handler and arity.
pub fn register_native<T: RegisterableExtension>(vm: &mut VM, extension: &T)
    requires
        old(vm).wf(),
    ensures
        final(vm).wf(),
        (forall|j: int, k: int|
            0 <= j < k < extension.natives().len() ==> (#[trigger] extension.natives()[j]).2 != (
            #[trigger] extension.natives()[k]).2) ==> forall|j: int|
            0 <= j < extension.natives().len() ==> native_bound(
                *final(vm),
                (#[trigger] extension.natives()[j]).2,
                extension.natives()[j].0,
                extension.natives()[j].1,
            ),
{
    let functions = extension.register();
    register_native_list(vm, &functions);
    proof {
        if forall|j: int, k: int|
            0 <= j < k < extension.natives().len() ==> (#[trigger] extension.natives()[j]).2 != (
            #[trigger] extension.natives()[k]).2 {
            assert forall|j: int, k: int|
                0 <= j < k < functions@.len() implies (#[trigger] functions@[j]).name@ != (
            #[trigger] functions@[k]).name@ by {
                assert(info_matches(functions@[j], extension.natives()[j]));
                assert(info_matches(functions@[k], extension.natives()[k]));
            }
            assert forall|j: int|
                0 <= j < extension.natives().len() implies native_bound(
                *vm,
                (#[trigger] extension.natives()[j]).2,
                extension.natives()[j].0,
                extension.natives()[j].1,
            ) by {
                assert(info_matches(functions@[j], extension.natives()[j]));
                assert(native_bound(
                    *vm,
                    functions@[j].name@,
                    functions@[j].address,
                    functions@[j].n_params,
                ));
            }
        }
    }
}

/// Installs one native description; afterwards its name is bound to it.
fn register_one(vm: &mut VM, info: &NativeFunctionInfo)
    requires
        old(vm).wf(),
    ensures
        final(vm).wf(),
        native_bound(*final(vm), info.name@, info.address, info.n_params),
        exists|fobj: ObjectPtr|
            NameMemory::stored(old(vm).globals, final(vm).globals, info.name@, fobj),
        VM::roots_preserved(*old(vm), *final(vm)),
{
    let f_info = FunctionInfo::new(FunctionAddress::Native(*info.address()), info.n_params());
    vm.register_native(info.name().as_str(), &f_info);
    proof {
        reveal(crate::extension::native_bound);
        assert(native_bound(*vm, info.name@, info.address, info.n_params));
    }
}

/// A binding under another name survives one registration: its table entry
/// keeps its reference, and the heap keeps that reference's value.
proof fn lemma_native_binding_preserved(
    pre: VM,
    post: VM,
    name: Seq<char>,
    address: NativeFunction,
    n_params: usize,
    stored_name: Seq<char>,
    fobj: ObjectPtr,
)
    requires
        native_bound(pre, name, address, n_params),
        NameMemory::stored(pre.globals, post.globals, stored_name, fobj),
        stored_name != name,
        VM::roots_preserved(pre, post),
    ensures
        native_bound(post, name, address, n_params),
{
    reveal(crate::extension::native_bound);
    let w = choose|w: int|
        0 <= w < pre.globals.memory@.len() && (#[trigger] pre.globals.memory@[w]).0@ == name;
    assert(post.globals.memory@[w].0@ == name);
    assert(post.globals.has_name(name));
    assert forall|b: int|
        0 <= b < post.globals.memory@.len() && (#[trigger] post.globals.memory@[b]).0@ == name
        implies post.val(post.globals.memory@[b].1) == Value::Function(
        Box::new(FunctionInfo { address: FunctionAddress::Native(address), n_params }),
    ) by {
        assert(b < pre.globals.memory@.len());
        assert(pre.globals.memory@[b].0@ == name);
        let q: ObjectPtr = post.globals.memory@[b].1;
        assert(q == pre.globals.memory@[b].1);
        assert(pre.is_vm_root(q.index as int));
        assert(post.val(q) == pre.val(q));
    }
}

/// Installs a list of native descriptions with distinct names, in order.
/// Afterwards every listed name is bound to its native.
pub fn register_native_list(vm: &mut VM, functions: &Vec<NativeFunctionInfo>)
    requires
        old(vm).wf(),
    ensures
        final(vm).wf(),
        (forall|j: int, k: int|
            0 <= j < k < functions@.len() ==> (#[trigger] functions@[j]).name@ != (
            #[trigger] functions@[k]).name@) ==> forall|j: int|
            0 <= j < functions@.len() ==> native_bound(
                *final(vm),
                (#[trigger] functions@[j]).name@,
                functions@[j].address,
                functions@[j].n_params,
            ),
{
    let ghost distinct = forall|j: int, k: int|
        0 <= j < k < functions@.len() ==> (#[trigger] functions@[j]).name@ != (
        #[trigger] functions@[k]).name@;
    let mut i: usize = 0;
    while i < functions.len()
        invariant
            vm.wf(),
            i <= functions@.len(),
            distinct == (forall|j: int, k: int|
                0 <= j < k < functions@.len() ==> (#[trigger] functions@[j]).name@ != (
                #[trigger] functions@[k]).name@),
            distinct ==> forall|j: int|
                0 <= j < i ==> native_bound(
                    *vm,
                    (#[trigger] functions@[j]).name@,
                    functions@[j].address,
                    functions@[j].n_params,
                ),
        decreases functions@.len() - i,
    {
        let ghost pre = *vm;
        register_one(vm, &functions[i]);
        proof {
            if distinct {
                let fobj = choose|fobj: ObjectPtr|
                    NameMemory::stored(pre.globals, vm.globals, functions@[i as int].name@, fobj);
                assert forall|j: int|
                    0 <= j < i + 1 implies native_bound(
                    *vm,
                    (#[trigger] functions@[j]).name@,
                    functions@[j].address,
                    functions@[j].n_params,
                ) by {
                    if j < i {
                        lemma_native_binding_preserved(
                            pre,
                            *vm,
                            functions@[j].name@,
                            functions@[j].address,
                            functions@[j].n_params,
                            functions@[i as int].name@,
                            fobj,
                        );
                    }
                }
            }
        }
        i += 1;
    }
}

/// Registering a name twice overwrites the global binding but does not grow
/// the table: after the second registration the table is exactly as large as
/// after the first, and the name maps to the newest object.
pub proof fn lemma_register_twice_no_growth(
    g0: NameMemory,
    g1: NameMemory,
    g2: NameMemory,
    name: Seq<char>,
    p1: crate::object::ObjectPtr,
    p2: crate::object::ObjectPtr,
)
    requires
        NameMemory::stored(g0, g1, name, p1),
        NameMemory::stored(g1, g2, name, p2),
    ensures
        g2.memory@.len() == g1.memory@.len(),
        forall|j: int|
            0 <= j < g2.memory@.len() && (#[trigger] g2.memory@[j]).0@ == name
                ==> g2.memory@[j].1 == p2,
{
}

} // verus!
