//! Unit-level checks of the compiler, the linker, the layout and name
//! tables, the heap, the field map, the renderings, and the machine's fatal
//! errors.

use factory::ast::{
    AssignmentStatement, BinaryExpression, BinaryOperator, Expression, FunCallExpression,
    LiteralExpression, NameExpression, Statement,
};
use factory::basic::BasicFunctions;
use factory::compiler::{CompileError, Compiler, Metadata, OpcodeWithMetadata};
use factory::extension::{register_native, NativeFunctionInfo, RegisterableExtension};
use factory::gc::GCSystem;
use factory::global::GlobalTable;
use factory::layout::LayoutTracker;
use factory::names::{convert_to_c_fun_name, UniqueNameGenerator};
use factory::object::{
    FunctionAddress, FunctionInfo, Instance, NativeFunction, Object, ObjectPtr, Value,
};
use factory::opcode::Opcode;
use factory::render::{i64_to_string, render_value, u64_to_string};
use factory::vm::{StepEffect, VmError, VM};

fn lit_int(v: i64) -> Expression {
    Expression::Literal(LiteralExpression::Integer(v))
}

fn name(s: &str) -> Expression {
    Expression::Name(NameExpression::new(s.to_string()))
}

fn bin(op: BinaryOperator, l: Expression, r: Expression) -> Expression {
    Expression::Binary(BinaryExpression::new(op, l, r))
}

#[test]
fn compile_exact_code_for_print_call() {
    // do println(1) end
    let top = Statement::Block(vec![Statement::Expression(Expression::FunCall(
        FunCallExpression::new(name("println"), vec![lit_int(1)]),
    ))]);
    let mut compiler = Compiler::new();
    compiler.compile_top(&top);
    let code = compiler.link().unwrap();
    assert_eq!(
        code,
        vec![
            Opcode::LoadGlobal("println".to_string()),
            Opcode::ConstInt(1),
            Opcode::CallNoKw(1),
            Opcode::Nop,
            Opcode::Discard,
            Opcode::ConstInt(0),
            Opcode::Exit,
        ]
    );
}

#[test]
fn linking_twice_is_a_no_op() {
    // a conditional produces forward jumps whose immediates the linker fills
    let top = Statement::Block(vec![Statement::Conditional(
        factory::ast::ConditionalStatement::new(
            bin(BinaryOperator::Lt, lit_int(1), lit_int(2)),
            Statement::Expression(lit_int(1)),
            Statement::Expression(lit_int(0)),
        ),
    )]);
    let mut compiler = Compiler::new();
    compiler.compile_top(&top);
    let first = compiler.link().unwrap();
    let second = compiler.link().unwrap();
    assert_eq!(first, second);
    // every linked jump lands inside the code vector
    for op in &first {
        match op {
            Opcode::JmpAlways(a) | Opcode::JmpIfTrue(a) | Opcode::JmpIfFalse(a) => {
                assert!(*a < first.len());
            }
            Opcode::CreateFunction(a, _) => assert!(*a < first.len()),
            _ => {}
        }
    }
}

#[test]
fn unresolved_label_is_a_link_error() {
    let orphan = OpcodeWithMetadata::new(
        Opcode::JmpAlways(0),
        Metadata { jmp_to_label: Some(7), this_label: Vec::new() },
    );
    let mut compiler = Compiler::new();
    compiler.codes = vec![vec![orphan]];
    assert_eq!(compiler.link(), Err(CompileError::UnresolvedLabel));
}

#[test]
fn layout_registers_same_name_once() {
    let mut layout = LayoutTracker::new();
    let a = layout.register_local("x".to_string());
    let b = layout.register_local("y".to_string());
    let a2 = layout.register_local("x".to_string());
    assert_eq!(a, 0);
    assert_eq!(b, 1);
    assert_eq!(a2, a);
    assert_eq!(layout.get_local("y"), Some(1));
    assert_eq!(layout.get_local("z"), None);
}

#[test]
fn global_table_dense_indices() {
    let mut table = GlobalTable::new();
    assert_eq!(table.register_global("a"), 0);
    assert_eq!(table.register_global("b"), 1);
    assert_eq!(table.register_global("a"), 0);
    assert_eq!(table.get_global("b"), Some(1));
    assert_eq!(table.get_global("c"), None);
}

#[test]
fn unique_name_generator_counts() {
    let mut names = UniqueNameGenerator::new();
    assert_eq!(names.next_function_name().as_str(), "fun_0");
    assert_eq!(names.next_function_name().as_str(), "fun_1");
    assert_eq!(names.next_var_name().as_str(), "var_0");
    assert_eq!(names.next_label_name().as_str(), "L0");
    assert_eq!(names.next_label_name().as_str(), "L1");
}

#[test]
fn c_function_names_are_sanitised() {
    assert_eq!(convert_to_c_fun_name("fact").as_str(), "fact");
    assert_eq!(convert_to_c_fun_name("my-fun.2").as_str(), "my_fun_2");
    assert_eq!(convert_to_c_fun_name("").as_str(), "");
}

#[test]
fn decimal_renderings() {
    assert_eq!(u64_to_string(0).as_str(), "0");
    assert_eq!(u64_to_string(907).as_str(), "907");
    assert_eq!(i64_to_string(-123).as_str(), "-123");
    assert_eq!(i64_to_string(i64::MIN).as_str(), "-9223372036854775808");
    assert_eq!(i64_to_string(i64::MAX).as_str(), "9223372036854775807");
    assert_eq!(render_value(&Value::Null).unwrap().as_str(), "null");
    assert_eq!(render_value(&Value::Boolean(false)).unwrap().as_str(), "false");
    assert!(render_value(&Value::Invalid).is_none());
    let f = Value::Function(Box::new(FunctionInfo::new(FunctionAddress::Bytecode(3), 0)));
    assert_eq!(render_value(&f).unwrap().as_str(), "<function object>");
}

#[test]
fn collection_keeps_reachable_and_frees_the_rest() {
    let mut gc = GCSystem::new(100);
    let keep = gc.new_object(Object::const_int(42), &Vec::new());
    let _drop1 = gc.new_object(Object::const_int(1), &vec![keep]);
    let _drop2 = gc.new_object(Object::const_string("gone".to_string()), &vec![keep]);
    assert_eq!(gc.num_objects(), 3);
    gc.collect_garbage(&vec![keep]);
    assert_eq!(gc.num_objects(), 1);
    // the surviving root keeps its slot and its value
    match gc.object_at(keep) {
        Some(o) => match o.value() {
            Value::Integer(v) => assert_eq!(*v, 42),
            _ => panic!("wrong value after collection"),
        },
        None => panic!("root was freed"),
    }
    assert_eq!(gc.get_all_allocated().len(), 3);
}

#[test]
fn collection_walks_instance_children() {
    let mut gc = GCSystem::new(100);
    let key = gc.new_object(Object::const_string("field".to_string()), &Vec::new());
    let val = gc.new_object(Object::const_int(7), &vec![key]);
    let mut inst = Instance::new(None);
    inst.set_field(&gc, key, val);
    let obj = gc.new_object(Object::new_from_value(Value::Instance(inst)), &vec![key, val]);
    let _garbage = gc.new_object(Object::const_int(0), &vec![key, val, obj]);
    assert_eq!(gc.num_objects(), 4);
    gc.collect_garbage(&vec![obj]);
    // the instance and both halves of its field binding survive
    assert_eq!(gc.num_objects(), 3);
    match gc.object_at(obj) {
        Some(o) => match o.value() {
            Value::Instance(inst) => {
                let got = inst.get_field(&gc, key).expect("field lost");
                match gc.object_at(got) {
                    Some(o2) => match o2.value() {
                        Value::Integer(v) => assert_eq!(*v, 7),
                        _ => panic!("field value changed"),
                    },
                    None => panic!("field target freed"),
                }
            }
            _ => panic!("instance value changed"),
        },
        None => panic!("instance freed"),
    }
}

#[test]
fn field_map_overwrites_and_misses() {
    let mut gc = GCSystem::new(100);
    let key = gc.new_object(Object::const_string("k".to_string()), &Vec::new());
    let other = gc.new_object(Object::const_string("other".to_string()), &vec![key]);
    let v1 = gc.new_object(Object::const_int(1), &vec![key, other]);
    let v2 = gc.new_object(Object::const_int(2), &vec![key, other, v1]);
    let mut inst = Instance::new(None);
    inst.set_field(&gc, key, v1);
    inst.set_field(&gc, key, v2);
    assert_eq!(inst.get_field(&gc, key), Some(v2));
    assert_eq!(inst.get_field(&gc, other), None);
}

#[test]
fn explicit_mark_and_sweep_keep_the_machine_sound() {
    let mut vm = VM::new(8);
    vm.set_code(vec![
        Opcode::ConstInt(1),
        Opcode::StoreGlobal("keep".to_string()),
        Opcode::ConstInt(2),
        Opcode::Discard,
    ]);
    for _ in 0..4 {
        vm.step_code().unwrap();
    }
    let before = vm.num_objects();
    vm.gc_mark();
    vm.gc_sweep();
    // the discarded temporary is reclaimed, the global binding survives
    assert!(vm.num_objects() < before);
    vm.set_code(vec![Opcode::LoadGlobal("keep".to_string()), Opcode::Exit]);
    vm.pc = 0;
    assert_eq!(vm.step_code(), Ok(StepEffect::Ran));
    assert_eq!(vm.step_code(), Ok(StepEffect::Exit(1)));
}

#[test]
fn full_field_map_still_overwrites_existing_keys() {
    let mut gc = GCSystem::new(1000);
    let mut inst = Instance::new(None);
    // the default field map holds sixteen slots; fill every one
    let mut keys: Vec<ObjectPtr> = Vec::new();
    for i in 0..16 {
        let key = gc.new_object(
            Object::const_string(format!("field{}", i)),
            &keys.clone(),
        );
        keys.push(key);
        let val = gc.new_object(Object::const_int(i as i64), &keys.clone());
        inst.set_field(&gc, key, val);
    }
    // the table is full, but a bound key can still be overwritten
    let newval = gc.new_object(Object::const_int(99), &keys.clone());
    inst.set_field(&gc, keys[3], newval);
    assert_eq!(inst.get_field(&gc, keys[3]), Some(newval));
    assert_eq!(inst.get_field(&gc, keys[7]).is_some(), true);
}

#[test]
fn registering_a_native_twice_keeps_one_binding() {
    let mut vm = VM::new(16);
    let info = FunctionInfo::new(FunctionAddress::Native(NativeFunction::Println), 1);
    vm.register_native("println", &info);
    let after_first = vm.globals.memory.len();
    vm.register_native("println", &info);
    assert_eq!(vm.globals.memory.len(), after_first);
    let basics = BasicFunctions::default();
    register_native(&mut vm, &basics);
    register_native(&mut vm, &basics);
    // println, str: two bindings however often they are registered
    assert_eq!(vm.globals.memory.len(), 2);
}

#[test]
fn basic_extension_lists_println_and_str() {
    let basics = BasicFunctions::default();
    let infos = basics.register();
    assert_eq!(infos.len(), 2);
    assert_eq!(infos[0].name().as_str(), "println");
    assert_eq!(infos[0].n_params(), 1);
    assert!(matches!(infos[0].address(), NativeFunction::Println));
    assert_eq!(infos[1].name().as_str(), "str");
    assert!(matches!(infos[1].address(), NativeFunction::Str));
}

fn run_code(code: Vec<Opcode>) -> Result<Vec<StepEffect>, VmError> {
    let mut vm = VM::new(64);
    let basics = BasicFunctions::default();
    register_native(&mut vm, &basics);
    vm.set_code(code);
    let mut effects = Vec::new();
    loop {
        match vm.step_code()? {
            StepEffect::Idle => return Ok(effects),
            StepEffect::Exit(c) => {
                effects.push(StepEffect::Exit(c));
                return Ok(effects);
            }
            e => effects.push(e),
        }
    }
}

#[test]
fn division_by_zero_is_fatal() {
    let r = run_code(vec![Opcode::ConstInt(1), Opcode::ConstInt(0), Opcode::Div2]);
    assert_eq!(r, Err(VmError::DivisionByZero));
}

#[test]
fn overflow_is_fatal() {
    let r = run_code(vec![Opcode::ConstInt(i64::MAX), Opcode::ConstInt(1), Opcode::Add2]);
    assert_eq!(r, Err(VmError::IntegerOverflow));
    let r = run_code(vec![Opcode::ConstInt(i64::MIN), Opcode::ConstInt(-1), Opcode::Div2]);
    assert_eq!(r, Err(VmError::IntegerOverflow));
}

#[test]
fn type_errors_are_fatal() {
    // adding a boolean to an integer
    let r = run_code(vec![
        Opcode::ConstInt(1),
        Opcode::ConstInt(2),
        Opcode::Eq2,
        Opcode::ConstInt(3),
        Opcode::Add2,
    ]);
    assert_eq!(r, Err(VmError::InvalidOperands));
    // jumping on a non-boolean
    let r = run_code(vec![Opcode::ConstInt(1), Opcode::JmpIfTrue(0)]);
    assert_eq!(r, Err(VmError::InvalidCondition));
    // exiting with a non-integer
    let r = run_code(vec![Opcode::ConstNull, Opcode::Exit]);
    assert_eq!(r, Err(VmError::InvalidExitCode));
    // calling a non-function
    let r = run_code(vec![Opcode::ConstInt(1), Opcode::CallNoKw(0)]);
    assert_eq!(r, Err(VmError::NotAFunction));
}

#[test]
fn arity_mismatch_is_fatal() {
    let r = run_code(vec![
        Opcode::LoadGlobal("println".to_string()),
        Opcode::ConstInt(1),
        Opcode::ConstInt(2),
        Opcode::CallNoKw(2),
    ]);
    assert_eq!(r, Err(VmError::ArityMismatch));
}

#[test]
fn uninitialized_access_is_fatal() {
    // printing a slot that was never stored reads the invalid sentinel
    let r = run_code(vec![
        Opcode::LoadGlobal("println".to_string()),
        Opcode::Load(3),
        Opcode::CallNoKw(1),
    ]);
    assert_eq!(r, Err(VmError::UninitializedAccess));
}

#[test]
fn unaddressable_slot_is_fatal() {
    let r = run_code(vec![Opcode::ConstInt(1), Opcode::Store(usize::MAX)]);
    assert_eq!(r, Err(VmError::FrameOverflow));
}

#[test]
fn return_without_call_is_fatal() {
    let r = run_code(vec![Opcode::Return]);
    assert_eq!(r, Err(VmError::ReturnWithoutCall));
}

#[test]
fn underflow_and_idle() {
    let r = run_code(vec![Opcode::Add2]);
    assert_eq!(r, Err(VmError::StackUnderflow));
    // no exit instruction: the machine goes idle at the end of the code
    let r = run_code(vec![Opcode::ConstInt(5), Opcode::Discard]);
    assert_eq!(r, Ok(vec![StepEffect::Ran, StepEffect::Ran]));
}

#[test]
fn stack_overflow_is_fatal() {
    let mut vm = VM::new(1);
    vm.set_code(vec![Opcode::ConstInt(1), Opcode::ConstInt(2)]);
    assert_eq!(vm.step_code(), Ok(StepEffect::Ran));
    assert_eq!(vm.step_code(), Err(VmError::StackOverflow));
}

#[test]
fn rot2_swaps_the_top_operands() {
    let r = run_code(vec![
        Opcode::ConstInt(5),
        Opcode::ConstInt(3),
        Opcode::Rot2,
        Opcode::Sub2,
        Opcode::Exit,
    ]);
    // 3 - 5 after the swap
    assert_eq!(r, Ok(vec![
        StepEffect::Ran,
        StepEffect::Ran,
        StepEffect::Ran,
        StepEffect::Ran,
        StepEffect::Exit(-2),
    ]));
}

#[test]
fn globals_round_trip_through_the_machine() {
    let r = run_code(vec![
        Opcode::ConstInt(9),
        Opcode::StoreGlobal("g".to_string()),
        Opcode::LoadGlobal("g".to_string()),
        Opcode::Exit,
    ]);
    assert_eq!(
        r,
        Ok(vec![StepEffect::Ran, StepEffect::Ran, StepEffect::Ran, StepEffect::Exit(9)])
    );
}

#[test]
fn assignment_statement_accessors() {
    let stmt = AssignmentStatement::new("x".to_string(), lit_int(3));
    assert_eq!(stmt.name(), "x");
    match stmt.expression() {
        Expression::Literal(LiteralExpression::Integer(v)) => assert_eq!(*v, 3),
        _ => panic!("wrong expression"),
    }
}
