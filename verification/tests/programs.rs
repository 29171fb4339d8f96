//! End-to-end runs: build a syntax tree, compile and link it, and drive the
//! machine until it asks to exit, collecting what the natives print.

use factory::ast::{
    AssignmentStatement, BinaryExpression, BinaryOperator, ConditionalStatement, Expression,
    FunCallExpression, FuncDefStatement, FuncParam, LiteralExpression, NameExpression,
    ReturnStatement, Statement, WhileStatement,
};
use factory::basic::BasicFunctions;
use factory::compiler::Compiler;
use factory::extension::register_native;
use factory::vm::{StepEffect, VM};

fn lit_int(v: i64) -> Expression {
    Expression::Literal(LiteralExpression::Integer(v))
}

fn string(s: &str) -> Expression {
    Expression::Literal(LiteralExpression::String(s.to_string()))
}

fn name(s: &str) -> Expression {
    Expression::Name(NameExpression::new(s.to_string()))
}

fn bin(op: BinaryOperator, l: Expression, r: Expression) -> Expression {
    Expression::Binary(BinaryExpression::new(op, l, r))
}

fn call(f: &str, args: Vec<Expression>) -> Expression {
    Expression::FunCall(FunCallExpression::new(name(f), args))
}

fn assign(n: &str, e: Expression) -> Statement {
    Statement::Assignment(AssignmentStatement::new(n.to_string(), e))
}

fn expr_stmt(e: Expression) -> Statement {
    Statement::Expression(e)
}

fn block(stmts: Vec<Statement>) -> Statement {
    Statement::Block(stmts)
}

fn while_loop(cond: Expression, body: Statement) -> Statement {
    Statement::While(WhileStatement::new(cond, body))
}

fn if_else(cond: Expression, then_branch: Statement, otherwise: Statement) -> Statement {
    Statement::Conditional(ConditionalStatement::new(cond, then_branch, otherwise))
}

fn fundef(n: &str, params: Vec<&str>, body: Statement) -> Statement {
    let params = params
        .into_iter()
        .map(|p| FuncParam::new_without_type(p.to_string()))
        .collect();
    Statement::FuncDef(FuncDefStatement::new(n.to_string(), params, body, None))
}

fn ret(e: Expression) -> Statement {
    Statement::Return(ReturnStatement::new(e))
}

/// Compiles, links, runs until exit; returns the printed lines, the exit
/// status, and the machine as it stopped.
fn run_tree(top: Statement) -> (Vec<String>, i64, VM) {
    let mut compiler = Compiler::new();
    compiler.compile_top(&top);
    let code = compiler.link().expect("link failed");
    let mut vm = VM::new(1024);
    let basics = BasicFunctions::default();
    register_native(&mut vm, &basics);
    vm.set_code(code);
    let mut outputs: Vec<String> = Vec::new();
    loop {
        match vm.step_code().expect("fatal runtime error") {
            StepEffect::Ran => {}
            StepEffect::Print(line) => outputs.push(line),
            StepEffect::Exit(status) => return (outputs, status, vm),
            StepEffect::Idle => panic!("program ended without an exit"),
        }
    }
}

// do println(1 + 2 * 3) end
#[test]
fn constant_arithmetic() {
    let top = block(vec![expr_stmt(call(
        "println",
        vec![bin(
            BinaryOperator::Plus,
            lit_int(1),
            bin(BinaryOperator::Times, lit_int(2), lit_int(3)),
        )],
    ))]);
    let (outputs, status, vm) = run_tree(top);
    assert_eq!(outputs, vec!["7".to_string()]);
    assert_eq!(status, 0);
    // after a full top-level run the operand stack is back at zero
    assert!(vm.stack_top().is_none());
}

// do x = 10 y = x + 5 println(y) end
#[test]
fn local_assignment_and_read() {
    let top = block(vec![
        assign("x", lit_int(10)),
        assign("y", bin(BinaryOperator::Plus, name("x"), lit_int(5))),
        expr_stmt(call("println", vec![name("y")])),
    ]);
    let (outputs, status, _) = run_tree(top);
    assert_eq!(outputs, vec!["15".to_string()]);
    assert_eq!(status, 0);
}

// do if 3 < 5 do println(1) end else do println(0) end end
#[test]
fn conditional_with_else() {
    let top = block(vec![if_else(
        bin(BinaryOperator::Lt, lit_int(3), lit_int(5)),
        block(vec![expr_stmt(call("println", vec![lit_int(1)]))]),
        block(vec![expr_stmt(call("println", vec![lit_int(0)]))]),
    )]);
    let (outputs, status, _) = run_tree(top);
    assert_eq!(outputs, vec!["1".to_string()]);
    assert_eq!(status, 0);
}

// the false branch of a conditional without an else skips the body
#[test]
fn conditional_without_else_skips_body() {
    let top = block(vec![
        Statement::Conditional(ConditionalStatement::new_no_else(
            bin(BinaryOperator::Gt, lit_int(3), lit_int(5)),
            block(vec![expr_stmt(call("println", vec![lit_int(1)]))]),
        )),
        expr_stmt(call("println", vec![lit_int(2)])),
    ]);
    let (outputs, status, _) = run_tree(top);
    assert_eq!(outputs, vec!["2".to_string()]);
    assert_eq!(status, 0);
}

// do i = 0 s = 0 while i < 5 do i = i + 1 s = s + i end println(s) end
#[test]
fn while_loop_sums() {
    let top = block(vec![
        assign("i", lit_int(0)),
        assign("s", lit_int(0)),
        while_loop(
            bin(BinaryOperator::Lt, name("i"), lit_int(5)),
            block(vec![
                assign("i", bin(BinaryOperator::Plus, name("i"), lit_int(1))),
                assign("s", bin(BinaryOperator::Plus, name("s"), name("i"))),
            ]),
        ),
        expr_stmt(call("println", vec![name("s")])),
    ]);
    let (outputs, status, _) = run_tree(top);
    assert_eq!(outputs, vec!["15".to_string()]);
    assert_eq!(status, 0);
}

// do def fact(n) do if n == 0 do return 1 end else do return n * fact(n - 1)
// end end end println(fact(5)) end
#[test]
fn recursion_factorial() {
    let body = block(vec![if_else(
        bin(BinaryOperator::Eq, name("n"), lit_int(0)),
        block(vec![ret(lit_int(1))]),
        block(vec![ret(bin(
            BinaryOperator::Times,
            name("n"),
            call("fact", vec![bin(BinaryOperator::Minus, name("n"), lit_int(1))]),
        ))]),
    )]);
    let top = block(vec![
        fundef("fact", vec!["n"], body),
        expr_stmt(call("println", vec![call("fact", vec![lit_int(5)])])),
    ]);
    let (outputs, status, _) = run_tree(top);
    assert_eq!(outputs, vec!["120".to_string()]);
    assert_eq!(status, 0);
}

// a tight loop allocates ten times the heap's object limit of transient
// strings, keeping only the latest in a global; the collector keeps the
// machine inside its budget and the global stays readable
#[test]
fn gc_liveness_under_pressure() {
    let top = block(vec![
        assign("g", string("start")),
        assign("i", lit_int(0)),
        while_loop(
            bin(BinaryOperator::Lt, name("i"), lit_int(1000)),
            block(vec![
                assign("g", call("str", vec![name("i")])),
                assign("i", bin(BinaryOperator::Plus, name("i"), lit_int(1))),
            ]),
        ),
        expr_stmt(call("println", vec![name("g")])),
    ]);
    let (outputs, status, vm) = run_tree(top);
    assert_eq!(outputs, vec!["999".to_string()]);
    assert_eq!(status, 0);
    // the machine collects at one hundred objects, so the heap never ends
    // far beyond that despite thousands of transient allocations
    assert!(vm.num_objects() <= 102);
}

// string concatenation through the addition opcode
#[test]
fn string_concatenation() {
    let top = block(vec![expr_stmt(call(
        "println",
        vec![bin(BinaryOperator::Plus, string("foo"), string("bar"))],
    ))]);
    let (outputs, status, _) = run_tree(top);
    assert_eq!(outputs, vec!["foobar".to_string()]);
    assert_eq!(status, 0);
}

// the str native renders its argument; printing booleans and null
#[test]
fn str_native_and_renderings() {
    let top = block(vec![
        expr_stmt(call("println", vec![call("str", vec![lit_int(-42)])])),
        expr_stmt(call("println", vec![bin(BinaryOperator::Le, lit_int(2), lit_int(2))])),
    ]);
    let (outputs, status, _) = run_tree(top);
    assert_eq!(outputs, vec!["-42".to_string(), "true".to_string()]);
    assert_eq!(status, 0);
}

// a function defined and called with two arguments, reading both slots
#[test]
fn two_argument_function() {
    let body = block(vec![ret(bin(BinaryOperator::Minus, name("a"), name("b")))]);
    let top = block(vec![
        fundef("sub2", vec!["a", "b"], body),
        expr_stmt(call("println", vec![call("sub2", vec![lit_int(10), lit_int(4)])])),
    ]);
    let (outputs, status, _) = run_tree(top);
    assert_eq!(outputs, vec!["6".to_string()]);
    assert_eq!(status, 0);
}

// conditionals in the top level and inside a function body draw their
// labels from one counter, so the two units never share a label
#[test]
fn labels_stay_distinct_across_units() {
    let outer_if = if_else(
        bin(BinaryOperator::Lt, lit_int(1), lit_int(2)),
        block(vec![assign("x", lit_int(1))]),
        block(vec![assign("x", lit_int(2))]),
    );
    let body = block(vec![if_else(
        bin(BinaryOperator::Lt, name("n"), lit_int(1)),
        block(vec![ret(lit_int(10))]),
        block(vec![ret(lit_int(20))]),
    )]);
    let top = block(vec![
        outer_if,
        fundef("pick", vec!["n"], body),
        expr_stmt(call("println", vec![call("pick", vec![lit_int(0)])])),
        expr_stmt(call("println", vec![call("pick", vec![lit_int(5)])])),
    ]);
    let (outputs, status, _) = run_tree(top);
    assert_eq!(outputs, vec!["10".to_string(), "20".to_string()]);
    assert_eq!(status, 0);
}

// a function that falls off its end returns null
#[test]
fn function_without_return_yields_null() {
    let body = block(vec![assign("unused", lit_int(1))]);
    let top = block(vec![
        fundef("noop", vec![], body),
        expr_stmt(call("println", vec![call("noop", vec![])])),
    ]);
    let (outputs, status, _) = run_tree(top);
    assert_eq!(outputs, vec!["null".to_string()]);
    assert_eq!(status, 0);
}
