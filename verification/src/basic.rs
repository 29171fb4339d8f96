use vstd::prelude::*;

use crate::extension::{NativeFunctionInfo, RegisterableExtension};
use crate::object::NativeFunction;
use crate::render::render_spec;
use crate::vm::VM;

verus! {

/// The rendering that the `str` native hands back: argument 0 of the
/// current call, as a string, or nothing if that argument is the
/// uninitialised sentinel (a fatal error at the call site).
pub fn str_impl(vm: &VM) -> (r: Option<String>)
    requires
        vm.wf(),
    ensures
        ({
            let f = vm.stack_frames@[vm.stack_frame_top as int];
            let p = if 0 < f.memory@.len() {
                f.memory@[0]
            } else {
                f.invalid_obj
            };
            match r {
                Some(s) => !(vm.val(p) is Invalid) && s@ == render_spec(vm.val(p)),
                None => vm.val(p) is Invalid,
            }
        }),
{
    let p = vm.get_function_argument_by_index(0);
    proof {
        assert(vm.is_vm_root(p.index as int));
    }
    vm.render_ptr(p)
}

/// The built-in extension: `println(x)` prints a human-readable form of any
/// value and returns null; `str(x)` returns a string rendering.
#[derive(Default, Debug)]
pub struct BasicFunctions {}

impl RegisterableExtension for BasicFunctions {
    open spec fn natives(&self) -> Seq<(NativeFunction, usize, Seq<char>)> {
        seq![(NativeFunction::Println, 1usize, "println"@), (NativeFunction::Str, 1usize, "str"@)]
    }

    fn register(&self) -> (r: Vec<NativeFunctionInfo>)
        ensures
            r@.len() == self.natives().len(),
            forall|i: int|
                0 <= i < r@.len() ==> crate::extension::info_matches(
                    #[trigger] r@[i],
                    self.natives()[i],
                ),
    {
        let mut r: Vec<NativeFunctionInfo> = Vec::new();
        r.push(NativeFunctionInfo::new(NativeFunction::Println, 1, "println".to_owned()));
        r.push(NativeFunctionInfo::new(NativeFunction::Str, 1, "str".to_owned()));
        r
    }
}

} // verus!
