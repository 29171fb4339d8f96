use vstd::prelude::*;

use crate::ast::{BinaryOperator, Expression, FuncParam, LiteralExpression, Statement};
use crate::layout::LayoutTracker;
use crate::opcode::{op_stack_effect, Opcode};

verus! {

/// Compile-time annotation attached to one emitted instruction: the labels
/// whose address is this instruction's position (several may coalesce on one
/// instruction), and the label this jump or function-create targets.
#[derive(Debug)]
pub struct Metadata {
    pub jmp_to_label: Option<u64>,
    pub this_label: Vec<u64>,
}

impl Clone for Metadata {
    fn clone(&self) -> (r: Self)
        ensures
            r.jmp_to_label == self.jmp_to_label,
            r.this_label@ == self.this_label@,
    {
        Metadata { jmp_to_label: self.jmp_to_label, this_label: clone_labels(&self.this_label) }
    }
}

fn clone_labels(v: &Vec<u64>) -> (r: Vec<u64>)
    ensures
        r@ == v@,
{
    let mut r: Vec<u64> = Vec::new();
    let mut i: usize = 0;
    while i < v.len()
        invariant
            i <= v@.len(),
            r@ == v@.subrange(0, i as int),
        decreases v@.len() - i,
    {
        r.push(v[i]);
        i += 1;
        assert(r@ =~= v@.subrange(0, i as int));
    }
    assert(r@ =~= v@);
    r
}

#[derive(Debug)]
pub struct OpcodeWithMetadata {
    pub op: Opcode,
    pub md: Metadata,
}

/// The projections of an instruction that the linker and the stack-effect
/// accounting read: a clone agrees with the original on all of them.
pub open spec fn owm_like(a: OpcodeWithMetadata, b: OpcodeWithMetadata) -> bool {
    &&& a.op == b.op
    &&& a.md.jmp_to_label == b.md.jmp_to_label
    &&& a.md.this_label@ == b.md.this_label@
}

pub open spec fn code_like(a: Seq<OpcodeWithMetadata>, b: Seq<OpcodeWithMetadata>) -> bool {
    a.len() == b.len() && forall|i: int| 0 <= i < a.len() ==> owm_like(#[trigger] a[i], b[i])
}

impl Clone for OpcodeWithMetadata {
    fn clone(&self) -> (r: Self)
        ensures
            owm_like(r, *self),
    {
        OpcodeWithMetadata { op: self.op.clone(), md: self.md.clone() }
    }
}

impl OpcodeWithMetadata {
    pub fn new(op: Opcode, md: Metadata) -> (r: Self)
        ensures
            r.op == op,
            r.md == md,
    {
        Self { op, md }
    }

    pub fn new_op(op: Opcode) -> (r: Self)
        ensures
            r.op == op,
            r.md.jmp_to_label is None,
            r.md.this_label@ == Seq::<u64>::empty(),
    {
        Self { op, md: Metadata { jmp_to_label: None, this_label: Vec::new() } }
    }

    pub fn get_labels(&self) -> (r: &Vec<u64>)
        ensures
            r@ == self.md.this_label@,
    {
        &self.md.this_label
    }

    pub fn get_jmp_to_label(&self) -> (r: Option<u64>)
        ensures
            r == self.md.jmp_to_label,
    {
        self.md.jmp_to_label
    }
}

/// Net operand-stack effect of an instruction sequence, instruction by
/// instruction.
pub open spec fn code_sum(code: Seq<OpcodeWithMetadata>) -> int
    decreases code.len(),
{
    if code.len() == 0 {
        0
    } else {
        code_sum(code.drop_last()) + op_stack_effect(code.last().op)
    }
}

pub proof fn lemma_code_sum_push(s: Seq<OpcodeWithMetadata>, x: OpcodeWithMetadata)
    ensures
        code_sum(s.push(x)) == code_sum(s) + op_stack_effect(x.op),
{
    assert(s.push(x).drop_last() =~= s);
}

/// `post` begins with `pre`: nothing already emitted is ever rewritten by
/// later emission.
pub open spec fn code_extends(pre: Seq<OpcodeWithMetadata>, post: Seq<OpcodeWithMetadata>) -> bool {
    &&& pre.len() <= post.len()
    &&& forall|n: int| 0 <= n <= pre.len() ==> post.subrange(0, n) == pre.subrange(0, n)
}

/// Blocks of already-stashed function code are never rewritten, and every
/// newly stashed block is stack-balanced.
pub open spec fn ext_extends(
    pre: Seq<Vec<OpcodeWithMetadata>>,
    post: Seq<Vec<OpcodeWithMetadata>>,
) -> bool {
    &&& pre.len() <= post.len()
    &&& forall|i: int| 0 <= i < pre.len() ==> post[i] == pre[i]
    &&& forall|i: int| pre.len() <= i < post.len() ==> code_sum((#[trigger] post[i])@) == 0
}

/// Which expressions the lowering covers: everything the surface syntax
/// produces except indexing and list literals.
pub open spec fn expr_supported(e: Expression) -> bool
    decreases e,
{
    match e {
        Expression::Binary(b) => expr_supported(*b.left) && expr_supported(*b.right),
        Expression::Literal(l) => !(l is List),
        Expression::Name(_) => true,
        Expression::FunCall(f) => expr_supported(*f.callee) && exprs_supported(f.args@),
        Expression::Index(_) => false,
    }
}

pub open spec fn exprs_supported(es: Seq<Expression>) -> bool
    decreases es,
{
    if es.len() == 0 {
        true
    } else {
        expr_supported(es[0]) && exprs_supported(es.skip(1))
    }
}

pub proof fn lemma_exprs_supported_index(es: Seq<Expression>, i: int)
    requires
        exprs_supported(es),
        0 <= i < es.len(),
    ensures
        expr_supported(es[i]),
    decreases i,
{
    if i > 0 {
        lemma_exprs_supported_index(es.skip(1), i - 1);
        assert(es.skip(1)[i - 1] == es[i]);
    }
}

/// Which statements the lowering covers: everything the surface syntax
/// produces except assignment through an index expression.
pub open spec fn stmt_supported(s: Statement) -> bool
    decreases s,
{
    match s {
        Statement::Assignment(a) => expr_supported(*a.expression),
        Statement::ObjectAssignment(_) => false,
        Statement::Expression(e) => expr_supported(e),
        Statement::Block(blk) => stmts_supported(blk@),
        Statement::Conditional(c) => expr_supported(*c.cond) && stmt_supported(*c.then_branch)
            && (match c.otherwise {
            Some(o) => stmt_supported(*o),
            None => true,
        }),
        Statement::While(w) => expr_supported(*w.cond) && stmt_supported(*w.body),
        Statement::FuncDef(d) => stmt_supported(*d.body),
        Statement::Return(r) => match r.expression {
            Some(e) => expr_supported(*e),
            None => true,
        },
    }
}

pub open spec fn stmts_supported(ss: Seq<Statement>) -> bool
    decreases ss,
{
    if ss.len() == 0 {
        true
    } else {
        stmt_supported(ss[0]) && stmts_supported(ss.skip(1))
    }
}

pub proof fn lemma_stmts_supported_index(ss: Seq<Statement>, i: int)
    requires
        stmts_supported(ss),
        0 <= i < ss.len(),
    ensures
        stmt_supported(ss[i]),
    decreases i,
{
    if i > 0 {
        lemma_stmts_supported_index(ss.skip(1), i - 1);
        assert(ss.skip(1)[i - 1] == ss[i]);
    }
}

/// The operator opcode a binary operator lowers to.
pub open spec fn binop_opcode(op: BinaryOperator) -> Opcode {
    match op {
        BinaryOperator::Plus => Opcode::Add2,
        BinaryOperator::Minus => Opcode::Sub2,
        BinaryOperator::Times => Opcode::Mul2,
        BinaryOperator::Divide => Opcode::Div2,
        BinaryOperator::Modulo => Opcode::Mod2,
        BinaryOperator::Eq => Opcode::Eq2,
        BinaryOperator::Neq => Opcode::Neq2,
        BinaryOperator::Lt => Opcode::Lt2,
        BinaryOperator::Le => Opcode::Le2,
        BinaryOperator::Gt => Opcode::Gt2,
        BinaryOperator::Ge => Opcode::Ge2,
    }
}

/// The model of one emitted instruction: its opcode, the labels attached to
/// its position, and the label it targets.  Clones agree with their
/// originals on all three.
pub type Inst = (Opcode, Seq<u64>, Option<u64>);

pub open spec fn plain(op: Opcode) -> Inst {
    (op, Seq::<u64>::empty(), None::<u64>)
}

pub open spec fn jumping(op: Opcode, target: u64) -> Inst {
    (op, Seq::<u64>::empty(), Some(target))
}

pub open spec fn owm_model(o: OpcodeWithMetadata) -> Inst {
    (o.op, o.md.this_label@, o.md.jmp_to_label)
}

pub open spec fn code_model(c: Seq<OpcodeWithMetadata>) -> Seq<Inst> {
    Seq::new(c.len(), |i: int| owm_model(c[i]))
}

pub open spec fn blocks_model(b: Seq<Vec<OpcodeWithMetadata>>) -> Seq<Seq<Inst>> {
    Seq::new(b.len(), |i: int| code_model(b[i]@))
}

/// Marker carrying the two halves of a split; the quantifier trigger for
/// the lowering relations' decompositions.
pub open spec fn split2(a: Seq<Inst>, b: Seq<Inst>) -> bool {
    true
}

/// Marker carrying a block decomposition's parts.
pub open spec fn stmt_parts(
    c1: Seq<Inst>,
    c2: Seq<Inst>,
    e1: Seq<Seq<Inst>>,
    e2: Seq<Seq<Inst>>,
    lay_mid: LayoutTracker,
) -> bool {
    true
}

/// Marker carrying a conditional lowering's parts.
pub open spec fn cond_parts(
    cc: Seq<Inst>,
    tc: Seq<Inst>,
    oc: Seq<Inst>,
    lt: u64,
    lf: u64,
    lend: u64,
    lay_mid: LayoutTracker,
    e1: Seq<Seq<Inst>>,
    e2: Seq<Seq<Inst>>,
) -> bool {
    true
}

/// Marker carrying a function definition's stashed-block parts.
pub open spec fn fun_parts(
    lay0: LayoutTracker,
    layp: LayoutTracker,
    layq: LayoutTracker,
    bodyc: Seq<Inst>,
    bodyext: Seq<Seq<Inst>>,
) -> bool {
    true
}

/// `code` is the §-by-§ lowering of expression `e` in the given scope:
/// one labelled constant or load for a leaf, operands then the operator for
/// a binary, callee, arguments, `CallNoKw` and the landing `Nop` for a call.
pub open spec fn lowers_expr(
    e: Expression,
    is_global: bool,
    lay: LayoutTracker,
    labels: Seq<u64>,
    code: Seq<Inst>,
) -> bool
    decreases e, 0nat,
{
    match e {
        Expression::Literal(lit) => match lit {
            LiteralExpression::Integer(k) => code == seq![
                ((Opcode::ConstInt(k)), labels, None::<u64>),
            ],
            LiteralExpression::String(cs) => code.len() == 1 && code[0].1 == labels && code[0].2
                is None && (code[0].0 matches Opcode::ConstString(s2) && s2@ == cs@),
            LiteralExpression::List => false,
        },
        Expression::Name(n) => code.len() == 1 && code[0].1 == labels && code[0].2 is None && {
            if !is_global && lay.has_name(n.name@) {
                exists|i: int|
                    0 <= i < lay.locals@.len() && (#[trigger] lay.locals@[i]).0@ == n.name@
                        && code[0].0 == (Opcode::Load(lay.locals@[i].1))
            } else {
                code[0].0 matches Opcode::LoadGlobal(nm) && nm@ == n.name@
            }
        },
        Expression::Binary(b) => exists|lc: Seq<Inst>, rc: Seq<Inst>|
            #![trigger split2(lc, rc)]
            {
                &&& code == lc + rc + seq![plain(binop_opcode(b.op))]
                &&& lowers_expr(*b.left, is_global, lay, labels, lc)
                &&& lowers_expr(*b.right, is_global, lay, Seq::<u64>::empty(), rc)
            },
        Expression::FunCall(f) => exists|cc: Seq<Inst>, ac: Seq<Inst>|
            #![trigger split2(cc, ac)]
            {
                &&& code == cc + ac + seq![
                    plain(Opcode::CallNoKw(f.args@.len() as usize)),
                    plain(Opcode::Nop),
                ]
                &&& lowers_expr(*f.callee, is_global, lay, labels, cc)
                &&& lowers_exprs(f.args@, is_global, lay, ac)
            },
        Expression::Index(_) => false,
    }
}

/// `code` is the left-to-right concatenation of the arguments' lowerings,
/// none carrying labels.
pub open spec fn lowers_exprs(
    es: Seq<Expression>,
    is_global: bool,
    lay: LayoutTracker,
    code: Seq<Inst>,
) -> bool
    decreases es, 0nat,
{
    if es.len() == 0 {
        code == Seq::<Inst>::empty()
    } else {
        exists|h: Seq<Inst>, t: Seq<Inst>|
            #![trigger split2(h, t)]
            {
                &&& code == h + t
                &&& lowers_exprs(es.drop_last(), is_global, lay, h)
                &&& lowers_expr(es.last(), is_global, lay, Seq::<u64>::empty(), t)
            }
    }
}

/// The instruction shape of a lowered conditional with an else branch.
pub open spec fn cond_else_shape(
    code: Seq<Inst>,
    cc: Seq<Inst>,
    tc: Seq<Inst>,
    oc: Seq<Inst>,
    lt: u64,
    lf: u64,
    lend: u64,
) -> bool {
    code == cc + seq![jumping(Opcode::JmpIfTrue(0), lt), jumping(Opcode::JmpAlways(0), lf)] + tc
        + seq![jumping(Opcode::JmpAlways(0), lend)] + oc + seq![
        ((Opcode::Nop), seq![lend], None::<u64>),
    ]
}

/// The instruction shape of a lowered conditional without an else branch:
/// the false path jumps straight to the merge point.
pub open spec fn cond_noelse_shape(
    code: Seq<Inst>,
    cc: Seq<Inst>,
    tc: Seq<Inst>,
    lt: u64,
    lend: u64,
) -> bool {
    code == cc + seq![jumping(Opcode::JmpIfTrue(0), lt), jumping(Opcode::JmpAlways(0), lend)] + tc
        + seq![jumping(Opcode::JmpAlways(0), lend)] + seq![((Opcode::Nop), seq![lend], None::<u64>)]
}

/// The instruction shape of a lowered while loop.
pub open spec fn while_shape(
    code: Seq<Inst>,
    cc: Seq<Inst>,
    bc: Seq<Inst>,
    lc: u64,
    lend: u64,
) -> bool {
    code == cc + seq![jumping(Opcode::JmpIfFalse(0), lend)] + bc + seq![
        jumping(Opcode::JmpAlways(0), lc),
    ] + seq![((Opcode::Nop), seq![lend], None::<u64>)]
}

/// `code` and `ext` are the lowering of statement `s`: `code` is the code
/// emitted in place (with `labels` on its first instruction) and `ext` the
/// instruction blocks of nested function bodies, in order; the layout goes
/// from `lay_pre` to `lay_post` by the registrations the statement makes.
pub open spec fn lowers_stmt(
    s: Statement,
    is_global: bool,
    lay_pre: LayoutTracker,
    lay_post: LayoutTracker,
    labels: Seq<u64>,
    code: Seq<Inst>,
    ext: Seq<Seq<Inst>>,
) -> bool
    decreases s, 0nat,
{
    match s {
        Statement::Expression(e) => ext.len() == 0 && lay_post == lay_pre && exists|ec: Seq<Inst>|
            {
                &&& code == ec + seq![plain(Opcode::Discard)]
                &&& #[trigger] lowers_expr(e, is_global, lay_pre, labels, ec)
            },
        Statement::Assignment(a) => ext.len() == 0 && exists|ec: Seq<Inst>|
            {
                &&& #[trigger] lowers_expr(*a.expression, is_global, lay_pre, labels, ec)
                &&& if is_global {
                    &&& lay_post == lay_pre
                    &&& code.len() == ec.len() + 1
                    &&& code.subrange(0, ec.len() as int) == ec
                    &&& code.last().1 == Seq::<u64>::empty()
                    &&& code.last().2 is None
                    &&& (code.last().0 matches Opcode::StoreGlobal(nm) && nm@ == a.name@)
                } else {
                    exists|slot: usize|
                        {
                            &&& #[trigger] LayoutTracker::register_post(
                                lay_pre,
                                lay_post,
                                a.name@,
                                slot,
                            )
                            &&& code == ec + seq![plain(Opcode::Store(slot))]
                        }
                }
            },
        Statement::Block(blk) => lowers_stmts(blk@, is_global, lay_pre, lay_post, labels, code, ext),
        Statement::Conditional(c) => match c.otherwise {
            Some(o) => exists|
                cc: Seq<Inst>,
                tc: Seq<Inst>,
                oc: Seq<Inst>,
                lt: u64,
                lf: u64,
                lend: u64,
                lay_mid: LayoutTracker,
                e1: Seq<Seq<Inst>>,
                e2: Seq<Seq<Inst>>,
            |
                #![trigger cond_parts(cc, tc, oc, lt, lf, lend, lay_mid, e1, e2)]
                {
                    &&& cond_else_shape(code, cc, tc, oc, lt, lf, lend)
                    &&& lowers_expr(*c.cond, is_global, lay_pre, labels, cc)
                    &&& lowers_stmt(*c.then_branch, is_global, lay_pre, lay_mid, seq![lt], tc, e1)
                    &&& lowers_stmt(*o, is_global, lay_mid, lay_post, seq![lf], oc, e2)
                    &&& ext == e1 + e2
                },
            None => exists|cc: Seq<Inst>, tc: Seq<Inst>, lt: u64, lend: u64|
                {
                    &&& #[trigger] cond_noelse_shape(code, cc, tc, lt, lend)
                    &&& lowers_expr(*c.cond, is_global, lay_pre, labels, cc)
                    &&& lowers_stmt(*c.then_branch, is_global, lay_pre, lay_post, seq![lt], tc, ext)
                },
        },
        Statement::While(w) => exists|cc: Seq<Inst>, bc: Seq<Inst>, lc: u64, lend: u64|
            {
                &&& #[trigger] while_shape(code, cc, bc, lc, lend)
                &&& lowers_expr(*w.cond, is_global, lay_pre, labels.push(lc), cc)
                &&& lowers_stmt(
                    *w.body,
                    is_global,
                    lay_pre,
                    lay_post,
                    Seq::<u64>::empty(),
                    bc,
                    ext,
                )
            },
        Statement::FuncDef(d) => exists|flabel: u64|
            #![trigger fdef_label(flabel)]
            {
                &&& code.len() == 2
                &&& code[0].1 == labels
                &&& code[0].2 == Some(flabel)
                &&& code[0].0 == (Opcode::CreateFunction(0, d.params@.len() as usize))
                &&& code[1].1 == Seq::<u64>::empty()
                &&& code[1].2 is None
                &&& if is_global {
                    &&& lay_post == lay_pre
                    &&& (code[1].0 matches Opcode::StoreGlobal(nm) && nm@ == d.name@)
                } else {
                    exists|slot: usize|
                        #![trigger reg_parts(lay_post, slot)]
                        {
                            &&& LayoutTracker::register_post(lay_pre, lay_post, d.name@, slot)
                            &&& code[1].0 == (Opcode::Store(slot))
                        }
                }
                &&& lowers_fun_blocks(d.params@, *d.body, seq![flabel], ext)
            },
        Statement::Return(r) => ext.len() == 0 && lay_post == lay_pre && match r.expression {
            Some(e) => exists|ec: Seq<Inst>|
                {
                    &&& code == ec + seq![plain(Opcode::Return)]
                    &&& #[trigger] lowers_expr(*e, is_global, lay_pre, labels, ec)
                },
            None => code == seq![
                ((Opcode::ConstNull), labels, None::<u64>),
                plain(Opcode::Return),
            ],
        },
        Statement::ObjectAssignment(_) => false,
    }
}

/// Children of a block in order; `labels` pass only to the first.
pub open spec fn lowers_stmts(
    ss: Seq<Statement>,
    is_global: bool,
    lay_pre: LayoutTracker,
    lay_post: LayoutTracker,
    labels: Seq<u64>,
    code: Seq<Inst>,
    ext: Seq<Seq<Inst>>,
) -> bool
    decreases ss, 0nat,
{
    if ss.len() == 0 {
        code == Seq::<Inst>::empty() && ext == Seq::<Seq<Inst>>::empty() && lay_post == lay_pre
    } else if ss.len() == 1 {
        lowers_stmt(ss[0], is_global, lay_pre, lay_post, labels, code, ext)
    } else {
        exists|c1: Seq<Inst>, c2: Seq<Inst>, e1: Seq<Seq<Inst>>, e2: Seq<Seq<Inst>>, lay_mid: LayoutTracker|
            #![trigger stmt_parts(c1, c2, e1, e2, lay_mid)]
            {
                &&& code == c1 + c2
                &&& ext == e1 + e2
                &&& lowers_stmts(ss.drop_last(), is_global, lay_pre, lay_mid, labels, c1, e1)
                &&& lowers_stmt(
                    ss.last(),
                    is_global,
                    lay_mid,
                    lay_post,
                    Seq::<u64>::empty(),
                    c2,
                    e2,
                )
            }
    }
}

/// Marker carrying a whole-program lowering's parts.
pub open spec fn top_parts(
    lay0: LayoutTracker,
    layq: LayoutTracker,
    main: Seq<Inst>,
    extm: Seq<Seq<Inst>>,
) -> bool {
    true
}

/// Marker carrying a function definition's entry label.
pub open spec fn fdef_label(flabel: u64) -> bool {
    true
}

/// Marker carrying a parameter registration's parts.
pub open spec fn reg_parts(mid: LayoutTracker, slot: usize) -> bool {
    true
}

/// The layout a fresh function unit starts from: the parameters registered
/// in order into an empty layout.
pub open spec fn params_registered(
    params: Seq<FuncParam>,
    pre: LayoutTracker,
    post: LayoutTracker,
) -> bool
    decreases params.len(),
{
    if params.len() == 0 {
        post == pre
    } else {
        exists|mid: LayoutTracker, slot: usize|
            #![trigger reg_parts(mid, slot)]
            {
                &&& params_registered(params.drop_last(), pre, mid)
                &&& LayoutTracker::register_post(mid, post, params.last().name@, slot)
            }
    }
}

/// The stashed blocks of one function definition: the body lowered in a
/// fresh unit whose layout starts with the parameters, closed by
/// `ConstNull; Return`, followed by the body's own nested blocks.
pub open spec fn lowers_fun_blocks(
    params: Seq<FuncParam>,
    body: Statement,
    body_labels: Seq<u64>,
    ext: Seq<Seq<Inst>>,
) -> bool
    decreases body, 1nat,
{
    exists|
        lay0: LayoutTracker,
        layp: LayoutTracker,
        layq: LayoutTracker,
        bodyc: Seq<Inst>,
        bodyext: Seq<Seq<Inst>>,
    |
        #![trigger fun_parts(lay0, layp, layq, bodyc, bodyext)]
        {
            &&& lay0.locals@.len() == 0
            &&& params_registered(params, lay0, layp)
            &&& lowers_stmt(body, false, layp, layq, body_labels, bodyc, bodyext)
            &&& ext == seq![bodyc + seq![plain(Opcode::ConstNull), plain(Opcode::Return)]]
                + bodyext
        }
}

pub proof fn lemma_code_like_model(a: Seq<OpcodeWithMetadata>, b: Seq<OpcodeWithMetadata>)
    requires
        code_like(a, b),
    ensures
        code_model(a) == code_model(b),
{
    assert(code_model(a) =~= code_model(b));
}

pub proof fn lemma_model_push(c: Seq<OpcodeWithMetadata>, x: OpcodeWithMetadata)
    ensures
        code_model(c.push(x)) == code_model(c).push(owm_model(x)),
{
    assert(code_model(c.push(x)) =~= code_model(c).push(owm_model(x)));
}

/// Splits the instructions emitted across two phases at the phase boundary.
pub proof fn lemma_model_split(
    c0: Seq<OpcodeWithMetadata>,
    c1: Seq<OpcodeWithMetadata>,
    c2: Seq<OpcodeWithMetadata>,
)
    requires
        code_extends(c0, c1),
        code_extends(c1, c2),
    ensures
        code_extends(c0, c2),
        code_model(c2.skip(c0.len() as int)) == code_model(c1.skip(c0.len() as int)) + code_model(
            c2.skip(c1.len() as int),
        ),
{
    assert forall|j: int| 0 <= j < c1.len() implies c2[j] == c1[j] by {
        assert(c2.subrange(0, c1.len() as int) == c1.subrange(0, c1.len() as int));
        assert(c2.subrange(0, c1.len() as int)[j] == c2[j]);
        assert(c1.subrange(0, c1.len() as int)[j] == c1[j]);
    }
    assert forall|n: int| 0 <= n <= c0.len() implies c2.subrange(0, n) == c0.subrange(0, n) by {
        assert(c2.subrange(0, n) == c1.subrange(0, n));
    }
    assert(code_model(c2.skip(c0.len() as int)) =~= code_model(c1.skip(c0.len() as int))
        + code_model(c2.skip(c1.len() as int)));
}

pub proof fn lemma_model_empty(c: Seq<OpcodeWithMetadata>)
    ensures
        code_model(c.skip(c.len() as int)) == Seq::<Inst>::empty(),
{
    assert(code_model(c.skip(c.len() as int)) =~= Seq::<Inst>::empty());
}

/// One freshly appended instruction forms a singleton chunk.
pub proof fn lemma_push_chunk(prev: Seq<OpcodeWithMetadata>, cur: Seq<OpcodeWithMetadata>)
    requires
        cur.len() == prev.len() + 1,
        code_extends(prev, cur),
    ensures
        code_model(cur.skip(prev.len() as int)) == seq![owm_model(cur.last())],
{
    assert(code_model(cur.skip(prev.len() as int)) =~= seq![owm_model(cur.last())]);
}

pub proof fn lemma_blocks_push(e: Seq<Vec<OpcodeWithMetadata>>, x: Vec<OpcodeWithMetadata>)
    ensures
        blocks_model(e.push(x)) == blocks_model(e).push(code_model(x@)),
{
    assert(blocks_model(e.push(x)) =~= blocks_model(e).push(code_model(x@)));
}

/// Splits the blocks stashed across two phases at the phase boundary.
pub proof fn lemma_blocks_split(
    e0: Seq<Vec<OpcodeWithMetadata>>,
    e1: Seq<Vec<OpcodeWithMetadata>>,
    e2: Seq<Vec<OpcodeWithMetadata>>,
)
    requires
        ext_extends(e0, e1),
        ext_extends(e1, e2),
    ensures
        ext_extends(e0, e2),
        blocks_model(e2).skip(e0.len() as int) == blocks_model(e1).skip(e0.len() as int)
            + blocks_model(e2).skip(e1.len() as int),
{
    assert(blocks_model(e2).skip(e0.len() as int) =~= blocks_model(e1).skip(e0.len() as int)
        + blocks_model(e2).skip(e1.len() as int));
}

/// Assembles a function definition's lowering from its parts.
pub proof fn lemma_fundef_intro(
    s: Statement,
    is_global: bool,
    lay_pre: LayoutTracker,
    lay_post: LayoutTracker,
    labels: Seq<u64>,
    code: Seq<Inst>,
    ext: Seq<Seq<Inst>>,
    flabel: u64,
    slot: usize,
)
    requires
        s is FuncDef,
        code.len() == 2,
        code[0].1 == labels,
        code[0].2 == Some(flabel),
        code[0].0 == (Opcode::CreateFunction(0, s->FuncDef_0.params@.len() as usize)),
        code[1].1 == Seq::<u64>::empty(),
        code[1].2 is None,
        is_global ==> lay_post == lay_pre && (code[1].0 matches Opcode::StoreGlobal(nm) && nm@
            == s->FuncDef_0.name@),
        !is_global ==> LayoutTracker::register_post(
            lay_pre,
            lay_post,
            s->FuncDef_0.name@,
            slot,
        ) && code[1].0 == (Opcode::Store(slot)),
        lowers_fun_blocks(s->FuncDef_0.params@, *s->FuncDef_0.body, seq![flabel], ext),
    ensures
        lowers_stmt(s, is_global, lay_pre, lay_post, labels, code, ext),
{
    assert(fdef_label(flabel));
    assert(reg_parts(lay_post, slot));
}

/// How many fresh labels lowering a statement draws from the unit's label
/// counter.
pub open spec fn stmt_label_count(s: Statement) -> nat
    decreases s,
{
    match s {
        Statement::Block(blk) => stmts_label_count(blk@),
        Statement::Conditional(c) => 2 + (if c.otherwise is Some {
            1nat
        } else {
            0nat
        }) + stmt_label_count(*c.then_branch) + (match c.otherwise {
            Some(o) => stmt_label_count(*o),
            None => 0nat,
        }),
        Statement::While(w) => 2 + stmt_label_count(*w.body),
        Statement::FuncDef(d) => 1 + stmt_label_count(*d.body),
        _ => 0,
    }
}

pub open spec fn stmts_label_count(ss: Seq<Statement>) -> nat
    decreases ss,
{
    if ss.len() == 0 {
        0
    } else {
        stmt_label_count(ss[0]) + stmts_label_count(ss.skip(1))
    }
}

/// The compiler for one unit: the top-level (global) unit or one function
/// body (local), with its own local layout and an auxiliary buffer for the
/// instruction blocks of nested function definitions.
#[derive(Debug)]
pub struct UnitCompiler {
    pub is_global: bool,
    pub code: Vec<OpcodeWithMetadata>,
    pub layout: LayoutTracker,
    pub ext_codes: Vec<Vec<OpcodeWithMetadata>>,
    pub current_label_index: u64,
}

impl UnitCompiler {
    pub open spec fn wf(self) -> bool {
        self.layout.wf()
    }

    pub fn new(is_global: bool) -> (r: UnitCompiler)
        ensures
            r.wf(),
            r.is_global == is_global,
            r.code@.len() == 0,
            r.ext_codes@.len() == 0,
            r.layout.locals@.len() == 0,
            r.current_label_index == 0,
    {
        Self {
            is_global,
            code: Vec::new(),
            layout: LayoutTracker::new(),
            ext_codes: Vec::new(),
            current_label_index: 0,
        }
    }

    fn current_layout_mut(&mut self) -> (r: &mut LayoutTracker)
        ensures
            *r == old(self).layout,
            *final(self) == (UnitCompiler { layout: *final(r), ..*old(self) }),
    {
        &mut self.layout
    }

    fn add_op(&mut self, op: Opcode)
        ensures
            *final(self) == (UnitCompiler { code: final(self).code, ..*old(self) }),
            final(self).code@.len() == old(self).code@.len() + 1,
            code_extends(old(self).code@, final(self).code@),
            final(self).code@.last().op == op,
            final(self).code@.last().md.this_label@ == Seq::<u64>::empty(),
            final(self).code@.last().md.jmp_to_label is None,
            forall|n: int|
                0 <= n <= old(self).code@.len() ==> code_sum(final(self).code@.skip(n))
                    == code_sum(old(self).code@.skip(n)) + op_stack_effect(op),
    {
        let ghost pre = self.code@;
        self.code.push(OpcodeWithMetadata::new_op(op));
        proof {
            let x = self.code@.last();
            assert forall|n: int| 0 <= n <= pre.len() implies code_sum(self.code@.skip(n))
                == code_sum(pre.skip(n)) + op_stack_effect(x.op) by {
                assert(self.code@.skip(n) =~= pre.skip(n).push(x));
                lemma_code_sum_push(pre.skip(n), x);
            }
            assert forall|n: int| 0 <= n <= pre.len() implies self.code@.subrange(0, n)
                == pre.subrange(0, n) by {
                assert(self.code@.subrange(0, n) =~= pre.subrange(0, n));
            }
        }
    }

    fn add_op_md(&mut self, op: Opcode, md: Metadata)
        ensures
            *final(self) == (UnitCompiler { code: final(self).code, ..*old(self) }),
            final(self).code@.len() == old(self).code@.len() + 1,
            code_extends(old(self).code@, final(self).code@),
            final(self).code@.last().op == op,
            final(self).code@.last().md == md,
            forall|n: int|
                0 <= n <= old(self).code@.len() ==> code_sum(final(self).code@.skip(n))
                    == code_sum(old(self).code@.skip(n)) + op_stack_effect(op),
    {
        let ghost pre = self.code@;
        self.code.push(OpcodeWithMetadata::new(op, md));
        proof {
            let x = self.code@.last();
            assert forall|n: int| 0 <= n <= pre.len() implies code_sum(self.code@.skip(n))
                == code_sum(pre.skip(n)) + op_stack_effect(x.op) by {
                assert(self.code@.skip(n) =~= pre.skip(n).push(x));
                lemma_code_sum_push(pre.skip(n), x);
            }
            assert forall|n: int| 0 <= n <= pre.len() implies self.code@.subrange(0, n)
                == pre.subrange(0, n) by {
                assert(self.code@.subrange(0, n) =~= pre.subrange(0, n));
            }
        }
    }

    /// Draws the next fresh control-flow label from the unit's counter.
    fn generate_unique_label(&mut self) -> (l: u64)
        requires
            old(self).current_label_index < u64::MAX,
        ensures
            *final(self) == (UnitCompiler {
                current_label_index: final(self).current_label_index,
                ..*old(self)
            }),
            l == old(self).current_label_index,
            final(self).current_label_index == old(self).current_label_index + 1,
    {
        let label = self.current_label_index;
        self.current_label_index = self.current_label_index + 1;
        label
    }

    /// A function entry label.  It is drawn from the same counter as the
    /// control-flow labels, so that two definitions that share a name still
    /// get distinct entry labels; the name itself plays no part.
    fn generate_func_label(&mut self, _func_name: &str) -> (l: u64)
        requires
            old(self).current_label_index < u64::MAX,
        ensures
            *final(self) == (UnitCompiler {
                current_label_index: final(self).current_label_index,
                ..*old(self)
            }),
            l == old(self).current_label_index,
            final(self).current_label_index == old(self).current_label_index + 1,
    {
        self.generate_unique_label()
    }

    /// Lowers one expression.  The emitted instructions leave exactly one new
    /// value on the operand stack; `top_labels` are attached to the first
    /// instruction emitted.
    #[verifier::rlimit(100)]
    #[verifier::spinoff_prover]
    pub fn compile_expr(&mut self, expr: &Expression, top_labels: &Vec<u64>)
        requires
            old(self).wf(),
            expr_supported(*expr),
        ensures
            lowers_expr(
                *expr,
                old(self).is_global,
                old(self).layout,
                top_labels@,
                code_model(final(self).code@.skip(old(self).code@.len() as int)),
            ),
            final(self).wf(),
            final(self).is_global == old(self).is_global,
            final(self).layout == old(self).layout,
            final(self).ext_codes == old(self).ext_codes,
            final(self).current_label_index == old(self).current_label_index,
            code_extends(old(self).code@, final(self).code@),
            code_sum(final(self).code@.skip(old(self).code@.len() as int)) == 1,
            forall|n: int|
                0 <= n <= old(self).code@.len() ==> code_sum(final(self).code@.skip(n))
                    == code_sum(old(self).code@.skip(n)) + 1,
            final(self).code@.len() > old(self).code@.len(),
        decreases *expr,
    {
        match expr {
            Expression::Binary(bin) => {
                let op = bin.op();
                let left = &*bin.left;
                let right = &*bin.right;
                // generate operands
                let ghost c0 = self.code@;
                self.compile_expr(left, top_labels);
                let ghost c1 = self.code@;
                self.compile_expr(right, &Vec::new());
                let ghost c2 = self.code@;

                // generate operator
                let op = match op {
                    BinaryOperator::Plus => Opcode::Add2,
                    BinaryOperator::Minus => Opcode::Sub2,
                    BinaryOperator::Times => Opcode::Mul2,
                    BinaryOperator::Divide => Opcode::Div2,
                    BinaryOperator::Modulo => Opcode::Mod2,
                    BinaryOperator::Eq => Opcode::Eq2,
                    BinaryOperator::Neq => Opcode::Neq2,
                    BinaryOperator::Lt => Opcode::Lt2,
                    BinaryOperator::Le => Opcode::Le2,
                    BinaryOperator::Gt => Opcode::Gt2,
                    BinaryOperator::Ge => Opcode::Ge2,
                };
                self.add_op(op);
                proof {
                    let x = self.code@.last();
                    lemma_model_split(c0, c1, c2);
                    assert(self.code@.skip(c2.len() as int)
                        =~= Seq::<OpcodeWithMetadata>::empty().push(x));
                    assert(code_model(self.code@.skip(c2.len() as int)) =~= seq![owm_model(x)]);
                    lemma_model_split(c0, c2, self.code@);
                    let d1 = code_model(c1.skip(c0.len() as int));
                    let d2 = code_model(c2.skip(c1.len() as int));
                    let em = code_model(self.code@.skip(c0.len() as int));
                    assert(owm_model(x) == plain(binop_opcode(bin.op)));
                    assert(em =~= d1 + d2 + seq![plain(binop_opcode(bin.op))]);
                    assert(split2(d1, d2));
                    assert(lowers_expr(*bin.left, old(self).is_global, old(self).layout, top_labels@, d1));
                    assert(lowers_expr(
                        *bin.right,
                        old(self).is_global,
                        old(self).layout,
                        Seq::<u64>::empty(),
                        d2,
                    ));
                }
            }
            Expression::Literal(lit) => {
                let op = match lit {
                    LiteralExpression::Integer(i) => Opcode::ConstInt(*i),
                    LiteralExpression::String(s) => Opcode::ConstString(s.clone()),
                    LiteralExpression::List => {
                        proof {
                            assert(false);
                        }
                        Opcode::Nop
                    }
                };
                let md = Metadata { this_label: clone_labels(top_labels), jmp_to_label: None };
                self.add_op_md(op, md);
                proof {
                    let em = self.code@.skip(old(self).code@.len() as int);
                    assert(em =~= Seq::<OpcodeWithMetadata>::empty().push(self.code@.last()));
                    assert(code_model(em) =~= seq![owm_model(self.code@.last())]);
                    match lit {
                        LiteralExpression::Integer(i) => {
                            assert(code_model(em) =~= seq![
                                ((Opcode::ConstInt(*i)), top_labels@, None::<u64>),
                            ]);
                        }
                        LiteralExpression::String(_) => {}
                        LiteralExpression::List => {
                            assert(false);
                        }
                    }
                }
            }
            Expression::Name(name) => {
                let var_name = name.get_name();
                if !self.is_global {
                    let var_index = self.current_layout_mut().get_local(var_name);
                    match var_index {
                        None => {
                            // fall back to global
                            let op = Opcode::LoadGlobal(var_name.to_owned());
                            let md = Metadata {
                                this_label: clone_labels(top_labels),
                                jmp_to_label: None,
                            };
                            self.add_op_md(op, md);
                        }
                        Some(var_index) => {
                            let op = Opcode::Load(var_index);
                            let md = Metadata {
                                this_label: clone_labels(top_labels),
                                jmp_to_label: None,
                            };
                            self.add_op_md(op, md);
                            proof {
                                assert(old(self).layout.locals@[var_index as int].1 == var_index);
                            }
                        }
                    };
                } else {
                    let op = Opcode::LoadGlobal(var_name.to_owned());
                    let md = Metadata { this_label: clone_labels(top_labels), jmp_to_label: None };
                    self.add_op_md(op, md);
                }
                proof {
                    let em = self.code@.skip(old(self).code@.len() as int);
                    assert(em =~= Seq::<OpcodeWithMetadata>::empty().push(self.code@.last()));
                    assert(code_model(em) =~= seq![owm_model(self.code@.last())]);
                }
            }
            Expression::FunCall(func) => {
                let callee = &*func.callee;
                let args = &func.args;

                // generate callee
                let ghost c0 = self.code@;
                self.compile_expr(callee, top_labels);
                let ghost c1 = self.code@;
                proof {
                    lemma_model_empty(c1);
                    assert(args@.subrange(0, 0) =~= Seq::<Expression>::empty());
                }

                // generate args (from left to right)
                let mut i: usize = 0;
                while i < args.len()
                    invariant
                        self.wf(),
                        *expr is FunCall,
                        expr->FunCall_0.args@ == args@,
                        exprs_supported(args@),
                        i <= args@.len(),
                        self.is_global == old(self).is_global,
                        self.layout == old(self).layout,
                        self.ext_codes == old(self).ext_codes,
                        self.current_label_index == old(self).current_label_index,
                        code_extends(c1, self.code@),
                        forall|n: int|
                            0 <= n <= c1.len() ==> code_sum(self.code@.skip(n))
                                == code_sum(c1.skip(n)) + i,
                        lowers_exprs(
                            args@.subrange(0, i as int),
                            old(self).is_global,
                            old(self).layout,
                            code_model(self.code@.skip(c1.len() as int)),
                        ),
                    decreases args@.len() - i,
                {
                    proof {
                        broadcast use vstd::seq::group_seq_axioms;

                        lemma_exprs_supported_index(args@, i as int);
                        assert(decreases_to!(*expr => expr->FunCall_0));
                        assert(decreases_to!(expr->FunCall_0 => expr->FunCall_0.args));
                        assert(decreases_to!(expr->FunCall_0.args => expr->FunCall_0.args@));
                        assert(decreases_to!(expr->FunCall_0.args@ => expr->FunCall_0.args@[i as int]));
                        assert(expr->FunCall_0.args@[i as int] == args@[i as int]);
                    }
                    let ghost cpre = self.code@;
                    self.compile_expr(&args[i], &Vec::new());
                    proof {
                        lemma_model_split(c1, cpre, self.code@);
                        let h = code_model(cpre.skip(c1.len() as int));
                        let d = code_model(self.code@.skip(cpre.len() as int));
                        assert(args@.subrange(0, i + 1).drop_last() =~= args@.subrange(
                            0,
                            i as int,
                        ));
                        assert(args@.subrange(0, i + 1).last() == args@[i as int]);
                        assert(lowers_exprs(
                            args@.subrange(0, i + 1).drop_last(),
                            old(self).is_global,
                            old(self).layout,
                            h,
                        ));
                        assert(lowers_expr(
                            args@.subrange(0, i + 1).last(),
                            old(self).is_global,
                            old(self).layout,
                            Seq::<u64>::empty(),
                            d,
                        ));
                        assert(lowers_exprs(
                            args@.subrange(0, i + 1),
                            old(self).is_global,
                            old(self).layout,
                            h + d,
                        )) by {
                            reveal_with_fuel(lowers_exprs, 2);
                            assert(split2(h, d));
                            assert(args@.subrange(0, i + 1).len() >= 1);
                            assert(lowers_exprs(
                                args@.subrange(0, i + 1).drop_last(),
                                old(self).is_global,
                                old(self).layout,
                                h,
                            ));
                            assert(lowers_expr(
                                args@.subrange(0, i + 1).last(),
                                old(self).is_global,
                                old(self).layout,
                                Seq::<u64>::empty(),
                                d,
                            ));
                        }
                    }
                    i += 1;
                }
                let ghost c2 = self.code@;
                proof {
                    assert(args@.subrange(0, args@.len() as int) =~= args@);
                }

                // generate call
                let op = Opcode::CallNoKw(args.len());
                self.add_op(op);
                let ghost with_call = self.code@;

                // generate return destination
                self.add_op(Opcode::Nop);
                proof {
                    assert(with_call.subrange(0, with_call.len() as int) =~= with_call);
                    assert(self.code@.subrange(0, with_call.len() as int) == with_call);
                    assert(self.code@[self.code@.len() - 2] == self.code@.subrange(
                        0,
                        with_call.len() as int,
                    )[with_call.len() - 1]);
                    assert(self.code@[self.code@.len() - 2] == with_call.last());
                    let x1 = with_call.last();
                    let x2 = self.code@.last();
                    lemma_model_split(c0, c1, c2);
                    assert(self.code@.skip(c2.len() as int)
                        =~= Seq::<OpcodeWithMetadata>::empty().push(x1).push(x2));
                    assert(code_model(self.code@.skip(c2.len() as int)) =~= seq![
                        owm_model(x1),
                        owm_model(x2),
                    ]);
                    lemma_model_split(c0, c2, self.code@);
                    let cc = code_model(c1.skip(c0.len() as int));
                    let ac = code_model(c2.skip(c1.len() as int));
                    let em = code_model(self.code@.skip(c0.len() as int));
                    assert(em =~= cc + ac + seq![
                        plain(Opcode::CallNoKw(func.args@.len() as usize)),
                        plain(Opcode::Nop),
                    ]);
                    assert(split2(cc, ac));
                    assert(lowers_expr(
                        *func.callee,
                        old(self).is_global,
                        old(self).layout,
                        top_labels@,
                        cc,
                    ));
                    assert(lowers_exprs(func.args@, old(self).is_global, old(self).layout, ac));
                }
            }
            Expression::Index(_) => {
                proof {
                    assert(false);
                }
            }
        }
    }

    /// Lowers one statement.  The emitted instructions have a net operand
    /// stack effect of zero; `top_labels` are attached to the first
    /// instruction emitted.
    #[verifier::rlimit(100)]
    #[verifier::spinoff_prover]
    pub fn compile_stmt(&mut self, stmt: &Statement, top_labels: &Vec<u64>)
        requires
            old(self).wf(),
            stmt_supported(*stmt),
            old(self).current_label_index + stmt_label_count(*stmt) <= u64::MAX,
        ensures
            lowers_stmt(
                *stmt,
                old(self).is_global,
                old(self).layout,
                final(self).layout,
                top_labels@,
                code_model(final(self).code@.skip(old(self).code@.len() as int)),
                blocks_model(final(self).ext_codes@).skip(old(self).ext_codes@.len() as int),
            ),
            final(self).wf(),
            final(self).is_global == old(self).is_global,
            old(self).current_label_index <= final(self).current_label_index,
            final(self).current_label_index
                <= old(self).current_label_index + stmt_label_count(*stmt),
            code_extends(old(self).code@, final(self).code@),
            code_sum(final(self).code@.skip(old(self).code@.len() as int)) == 0,
            forall|n: int|
                0 <= n <= old(self).code@.len() ==> code_sum(final(self).code@.skip(n))
                    == code_sum(old(self).code@.skip(n)),
            ext_extends(old(self).ext_codes@, final(self).ext_codes@),
        decreases *stmt, 0nat,
    {
        match stmt {
            Statement::Expression(expr) => {
                let ghost c0 = self.code@;
                self.compile_expr(expr, top_labels);
                let ghost c1 = self.code@;
                let discard = Opcode::Discard;
                self.add_op(discard);
                proof {
                    lemma_model_split(c0, c1, self.code@);
                    lemma_push_chunk(c1, self.code@);
                    let ec = code_model(c1.skip(c0.len() as int));
                    assert(code_model(self.code@.skip(c0.len() as int)) =~= ec + seq![
                        plain(Opcode::Discard),
                    ]);
                    assert(blocks_model(self.ext_codes@).skip(old(self).ext_codes@.len() as int)
                        =~= Seq::<Seq<Inst>>::empty());
                }
                proof {
                    assert(lowers_stmt(
                        *stmt,
                        old(self).is_global,
                        old(self).layout,
                        self.layout,
                        top_labels@,
                        code_model(self.code@.skip(old(self).code@.len() as int)),
                        blocks_model(self.ext_codes@).skip(old(self).ext_codes@.len() as int),
                    ));
                }
            }
            Statement::Assignment(assign) => {
                let name = assign.name();

                let ghost c0 = self.code@;
                self.compile_expr(&assign.expression, top_labels);
                let ghost c1 = self.code@;
                let ghost ec = code_model(c1.skip(c0.len() as int));
                if !self.is_global {
                    let assigned_index = self.current_layout_mut().register_local(name.to_owned());
                    let op = Opcode::Store(assigned_index);
                    self.add_op(op);
                    proof {
                        assert(LayoutTracker::register_post(
                            old(self).layout,
                            self.layout,
                            assign.name@,
                            assigned_index,
                        ));
                        lemma_model_split(c0, c1, self.code@);
                        lemma_push_chunk(c1, self.code@);
                        assert(code_model(self.code@.skip(c0.len() as int)) =~= ec + seq![
                            plain(Opcode::Store(assigned_index)),
                        ]);
                    }
                } else {
                    let op = Opcode::StoreGlobal(name.to_owned());
                    self.add_op(op);
                    proof {
                        lemma_model_split(c0, c1, self.code@);
                        lemma_push_chunk(c1, self.code@);
                        let em = code_model(self.code@.skip(c0.len() as int));
                        assert(em.subrange(0, ec.len() as int) =~= ec);
                    }
                }
                proof {
                    assert(blocks_model(self.ext_codes@).skip(old(self).ext_codes@.len() as int)
                        =~= Seq::<Seq<Inst>>::empty());
                }
                proof {
                    assert(lowers_stmt(
                        *stmt,
                        old(self).is_global,
                        old(self).layout,
                        self.layout,
                        top_labels@,
                        code_model(self.code@.skip(old(self).code@.len() as int)),
                        blocks_model(self.ext_codes@).skip(old(self).ext_codes@.len() as int),
                    ));
                }
            }
            Statement::Block(blk) => {
                let ghost c0 = self.code@;
                let ghost e0 = self.ext_codes@;
                let ghost cli0 = self.current_label_index;
                let ghost lay0 = self.layout;
                proof {
                    assert(blk@.skip(0) =~= blk@);
                    assert(blk@.subrange(0, 0) =~= Seq::<Statement>::empty());
                    assert(code_model(self.code@.skip(c0.len() as int)) =~= Seq::<Inst>::empty());
                    assert(blocks_model(self.ext_codes@).skip(e0.len() as int)
                        =~= Seq::<Seq<Inst>>::empty());
                }
                let mut i: usize = 0;
                while i < blk.len()
                    invariant
                        self.wf(),
                        *stmt is Block,
                        stmt->Block_0@ == blk@,
                        stmts_supported(blk@),
                        i <= blk@.len(),
                        self.is_global == old(self).is_global,
                        cli0 <= self.current_label_index,
                        self.current_label_index + stmts_label_count(blk@.skip(i as int))
                            <= cli0 + stmt_label_count(*stmt),
                        cli0 + stmt_label_count(*stmt) <= u64::MAX,
                        code_extends(c0, self.code@),
                        forall|n: int|
                            0 <= n <= c0.len() ==> code_sum(self.code@.skip(n))
                                == code_sum(c0.skip(n)),
                        ext_extends(e0, self.ext_codes@),
                        lowers_stmts(
                            blk@.subrange(0, i as int),
                            old(self).is_global,
                            lay0,
                            self.layout,
                            top_labels@,
                            code_model(self.code@.skip(c0.len() as int)),
                            blocks_model(self.ext_codes@).skip(e0.len() as int),
                        ),
                    decreases blk@.len() - i,
                {
                    proof {
                        lemma_stmts_supported_index(blk@, i as int);
                        lemma_stmts_label_count_skip(blk@, i as int);
                        assert(decreases_to!(*stmt => stmt->Block_0));
                        assert(decreases_to!(stmt->Block_0 => stmt->Block_0@));
                        assert(decreases_to!(stmt->Block_0@ => stmt->Block_0@[i as int]));
                        assert(stmt->Block_0@[i as int] == blk@[i as int]);
                    }
                    let v: Vec<u64> = Vec::new();
                    let labels = if i == 0 { top_labels } else { &v };
                    let ghost cpre = self.code@;
                    let ghost epre = self.ext_codes@;
                    let ghost laypre = self.layout;
                    self.compile_stmt(&blk[i], labels);
                    proof {
                        lemma_model_split(c0, cpre, self.code@);
                        lemma_blocks_split(e0, epre, self.ext_codes@);
                        let h = code_model(cpre.skip(c0.len() as int));
                        let d = code_model(self.code@.skip(cpre.len() as int));
                        let he = blocks_model(epre).skip(e0.len() as int);
                        let de = blocks_model(self.ext_codes@).skip(epre.len() as int);
                        assert(blk@.subrange(0, i + 1).drop_last() =~= blk@.subrange(0, i as int));
                        assert(blk@.subrange(0, i + 1).last() == blk@[i as int]);
                        if i == 0 {
                            assert(h =~= Seq::<Inst>::empty());
                            assert(he =~= Seq::<Seq<Inst>>::empty());
                            assert(h + d =~= d);
                            assert(he + de =~= de);
                            assert(blk@.subrange(0, 1)[0] == blk@[0]);
                            assert(lowers_stmt(
                                blk@.subrange(0, 1)[0],
                                old(self).is_global,
                                lay0,
                                self.layout,
                                top_labels@,
                                d,
                                de,
                            ));
                        } else {
                            assert(stmt_parts(h, d, he, de, laypre));
                            assert(lowers_stmts(
                                blk@.subrange(0, i + 1).drop_last(),
                                old(self).is_global,
                                lay0,
                                laypre,
                                top_labels@,
                                h,
                                he,
                            ));
                            assert(lowers_stmt(
                                blk@.subrange(0, i + 1).last(),
                                old(self).is_global,
                                laypre,
                                self.layout,
                                Seq::<u64>::empty(),
                                d,
                                de,
                            ));
                        }
                        assert(lowers_stmts(
                            blk@.subrange(0, i + 1),
                            old(self).is_global,
                            lay0,
                            self.layout,
                            top_labels@,
                            h + d,
                            he + de,
                        ));
                    }
                    i += 1;
                }
                proof {
                    assert(blk@.skip(i as int) =~= Seq::<Statement>::empty());
                    assert(blk@.subrange(0, i as int) =~= blk@);
                }
                proof {
                    assert(lowers_stmt(
                        *stmt,
                        old(self).is_global,
                        old(self).layout,
                        self.layout,
                        top_labels@,
                        code_model(self.code@.skip(old(self).code@.len() as int)),
                        blocks_model(self.ext_codes@).skip(old(self).ext_codes@.len() as int),
                    ));
                }
            }
            Statement::Conditional(cond) => {
                let ghost c0 = self.code@;
                let ghost e0 = self.ext_codes@;
                let ghost lay0 = self.layout;
                // evaluate condition
                self.compile_expr(&cond.cond, top_labels);
                let ghost c1 = self.code@;

                // jump if true
                let true_label = self.generate_unique_label();
                self.add_op_md(
                    Opcode::JmpIfTrue(0),
                    Metadata { this_label: Vec::new(), jmp_to_label: Some(true_label) },
                );
                let ghost c2 = self.code@;

                // label for the false path, when an else branch exists
                let false_label: Option<u64> = match &cond.otherwise {
                    None => None,
                    Some(_) => Some(self.generate_unique_label()),
                };

                // branch end label
                let branch_end_label = self.generate_unique_label();

                // the false path jumps to the else branch when there is one,
                // and straight to the merge point otherwise
                match false_label {
                    Some(l) => {
                        self.add_op_md(
                            Opcode::JmpAlways(0),
                            Metadata { this_label: Vec::new(), jmp_to_label: Some(l) },
                        );
                    }
                    None => {
                        self.add_op_md(
                            Opcode::JmpAlways(0),
                            Metadata {
                                this_label: Vec::new(),
                                jmp_to_label: Some(branch_end_label),
                            },
                        );
                    }
                }

                let ghost c3 = self.code@;
                // code for true branch
                let mut tl: Vec<u64> = Vec::new();
                tl.push(true_label);
                proof {
                    assert(tl@ =~= seq![true_label]);
                }
                self.compile_stmt(&cond.then_branch, &tl);
                let ghost c4 = self.code@;
                let ghost e4 = self.ext_codes@;
                let ghost lay4 = self.layout;
                self.add_op_md(
                    Opcode::JmpAlways(0),
                    Metadata { this_label: Vec::new(), jmp_to_label: Some(branch_end_label) },
                );
                let ghost c5 = self.code@;

                // code for false branch
                match (&cond.otherwise, false_label) {
                    (Some(o), Some(fl)) => {
                        let mut fv: Vec<u64> = Vec::new();
                        fv.push(fl);
                        proof {
                            assert(fv@ =~= seq![fl]);
                        }
                        self.compile_stmt(o, &fv);
                    }
                    _ => {}
                }
                let ghost c6 = self.code@;

                // branch end label
                let mut el: Vec<u64> = Vec::new();
                el.push(branch_end_label);
                proof {
                    assert(el@ =~= seq![branch_end_label]);
                }
                self.add_op_md(Opcode::Nop, Metadata { this_label: el, jmp_to_label: None });
                proof {
                    assert(lowers_stmt(
                        *stmt,
                        old(self).is_global,
                        old(self).layout,
                        self.layout,
                        top_labels@,
                        code_model(self.code@.skip(old(self).code@.len() as int)),
                        blocks_model(self.ext_codes@).skip(old(self).ext_codes@.len() as int),
                    )) by {
                    let nopm = owm_model(self.code@.last());
                    assert(nopm == ((Opcode::Nop), seq![branch_end_label], None::<u64>));
                    let cc = code_model(c1.skip(c0.len() as int));
                    let tc = code_model(c4.skip(c3.len() as int));
                    let oc = code_model(c6.skip(c5.len() as int));
                    lemma_model_split(c0, c1, self.code@);
                    lemma_model_split(c1, c2, self.code@);
                    lemma_push_chunk(c1, c2);
                    lemma_model_split(c2, c3, self.code@);
                    lemma_push_chunk(c2, c3);
                    lemma_model_split(c3, c4, self.code@);
                    lemma_model_split(c4, c5, self.code@);
                    lemma_push_chunk(c4, c5);
                    lemma_model_split(c5, c6, self.code@);
                    lemma_push_chunk(c6, self.code@);
                    let em = code_model(self.code@.skip(c0.len() as int));
                    lemma_blocks_split(e0, e4, self.ext_codes@);
                    let e1m = blocks_model(e4).skip(e0.len() as int);
                    let e2m = blocks_model(self.ext_codes@).skip(e4.len() as int);
                    match (&cond.otherwise, false_label) {
                        (Some(_), Some(fl)) => {
                            assert(cond_else_shape(
                                em,
                                cc,
                                tc,
                                oc,
                                true_label,
                                fl,
                                branch_end_label,
                            )) by {
                                assert(em =~= cc + seq![
                                    jumping(Opcode::JmpIfTrue(0), true_label),
                                    jumping(Opcode::JmpAlways(0), fl),
                                ] + tc + seq![jumping(Opcode::JmpAlways(0), branch_end_label)]
                                    + oc + seq![
                                    ((Opcode::Nop), seq![branch_end_label], None::<u64>),
                                ]);
                            }
                            assert(cond_parts(
                                cc,
                                tc,
                                oc,
                                true_label,
                                fl,
                                branch_end_label,
                                lay4,
                                e1m,
                                e2m,
                            ));
                            assert(e1m + e2m =~= blocks_model(self.ext_codes@).skip(
                                e0.len() as int,
                            ));
                        }
                        _ => {
                            assert(oc =~= Seq::<Inst>::empty());
                            assert(e2m =~= Seq::<Seq<Inst>>::empty());
                            assert(cond_noelse_shape(em, cc, tc, true_label, branch_end_label))
                                by {
                                assert(em =~= cc + seq![
                                    jumping(Opcode::JmpIfTrue(0), true_label),
                                    jumping(Opcode::JmpAlways(0), branch_end_label),
                                ] + tc + seq![jumping(Opcode::JmpAlways(0), branch_end_label)]
                                    + seq![((Opcode::Nop), seq![branch_end_label], None::<u64>)]);
                            }
                            assert(blocks_model(self.ext_codes@).skip(e0.len() as int) =~= e1m);
                        }
                    }
                    }
                }
            }
            Statement::While(wh) => {
                let ghost c0 = self.code@;
                let ghost e0 = self.ext_codes@;
                let cond_label = self.generate_unique_label();
                let body_end_label = self.generate_unique_label();

                // evaluate condition; incoming labels coalesce with the
                // condition label on its first instruction
                let mut cl = clone_labels(top_labels);
                cl.push(cond_label);
                proof {
                    assert(cl@ == top_labels@.push(cond_label));
                }
                self.compile_expr(&wh.cond, &cl);
                let ghost c1 = self.code@;
                // jump if condition is not met
                self.add_op_md(
                    Opcode::JmpIfFalse(0),
                    Metadata { this_label: Vec::new(), jmp_to_label: Some(body_end_label) },
                );
                let ghost c2 = self.code@;

                // generate body
                self.compile_stmt(&wh.body, &Vec::new());
                let ghost c3 = self.code@;
                // jump back to condition
                self.add_op_md(
                    Opcode::JmpAlways(0),
                    Metadata { this_label: Vec::new(), jmp_to_label: Some(cond_label) },
                );
                let ghost c4 = self.code@;

                // end of while
                let mut el: Vec<u64> = Vec::new();
                el.push(body_end_label);
                proof {
                    assert(el@ =~= seq![body_end_label]);
                }
                self.add_op_md(Opcode::Nop, Metadata { this_label: el, jmp_to_label: None });
                proof {
                    assert(lowers_stmt(
                        *stmt,
                        old(self).is_global,
                        old(self).layout,
                        self.layout,
                        top_labels@,
                        code_model(self.code@.skip(old(self).code@.len() as int)),
                        blocks_model(self.ext_codes@).skip(old(self).ext_codes@.len() as int),
                    )) by {
                    let cc = code_model(c1.skip(c0.len() as int));
                    let bc = code_model(c3.skip(c2.len() as int));
                    lemma_model_split(c0, c1, self.code@);
                    lemma_model_split(c1, c2, self.code@);
                    lemma_push_chunk(c1, c2);
                    lemma_model_split(c2, c3, self.code@);
                    lemma_model_split(c3, c4, self.code@);
                    lemma_push_chunk(c3, c4);
                    lemma_push_chunk(c4, self.code@);
                    let em = code_model(self.code@.skip(c0.len() as int));
                    assert(while_shape(em, cc, bc, cond_label, body_end_label)) by {
                        assert(em =~= cc + seq![jumping(Opcode::JmpIfFalse(0), body_end_label)]
                            + bc + seq![jumping(Opcode::JmpAlways(0), cond_label)] + seq![
                            ((Opcode::Nop), seq![body_end_label], None::<u64>),
                        ]);
                    }
                    assert(blocks_model(self.ext_codes@).skip(e0.len() as int)
                        == blocks_model(self.ext_codes@).skip(old(self).ext_codes@.len() as int));
                    }
                }
            }
            Statement::FuncDef(def) => {
                let ghost c0 = self.code@;
                let ghost e0 = self.ext_codes@;
                let func_name = def.name();
                let func_params = def.params();

                // register the function's own name eagerly, so that its body
                // can refer to it and recursion works
                let ghost mut regslot: usize = 0;
                let func_register_op = if !self.is_global {
                    let func_index = self.current_layout_mut().register_local(func_name.to_owned());
                    proof {
                        regslot = func_index;
                    }
                    Opcode::Store(func_index)
                } else {
                    // in global space, name lookup is done at runtime
                    Opcode::StoreGlobal(func_name.to_owned())
                };
                let ghost layreg = self.layout;

                let func_body_label = self.generate_func_label(func_name);

                // the body's block is stashed and emitted after the code of
                // the unit that is currently being compiled
                let mut bl: Vec<u64> = Vec::new();
                bl.push(func_body_label);
                proof {
                    assert(bl@ =~= seq![func_body_label]);
                }
                self.compile_fundef_body(func_params, &def.body, &bl);

                self.add_op_md(
                    Opcode::CreateFunction(0, func_params.len()),
                    Metadata {
                        this_label: clone_labels(top_labels),
                        jmp_to_label: Some(func_body_label),
                    },
                );
                let ghost with_create = self.code@;

                self.add_op(func_register_op);
                proof {
                    assert(lowers_stmt(
                        *stmt,
                        old(self).is_global,
                        old(self).layout,
                        self.layout,
                        top_labels@,
                        code_model(self.code@.skip(old(self).code@.len() as int)),
                        blocks_model(self.ext_codes@).skip(old(self).ext_codes@.len() as int),
                    )) by {
                    assert(with_create.subrange(0, with_create.len() as int) =~= with_create);
                    assert(self.code@.subrange(0, with_create.len() as int) == with_create);
                    assert(self.code@[self.code@.len() - 2] == self.code@.subrange(
                        0,
                        with_create.len() as int,
                    )[with_create.len() - 1]);
                    assert(self.code@[self.code@.len() - 2] == with_create.last());
                    let m1 = owm_model(with_create.last());
                    let m2 = owm_model(self.code@.last());
                    lemma_model_split(c0, with_create, self.code@);
                    lemma_push_chunk(c0, with_create);
                    lemma_push_chunk(with_create, self.code@);
                    let em = code_model(self.code@.skip(c0.len() as int));
                    assert(em =~= seq![m1, m2]);
                    assert(em[0].1 == top_labels@);
                    assert(em[0].2 == Some(func_body_label));
                    assert(em[0].0 == (Opcode::CreateFunction(0, def.params@.len() as usize)));
                    assert(em[1].1 == Seq::<u64>::empty());
                    assert(em[1].2 is None);
                    assert(self.layout == layreg);
                    if !old(self).is_global {
                        assert(LayoutTracker::register_post(
                            old(self).layout,
                            self.layout,
                            def.name@,
                            regslot,
                        ));
                        assert(em[1].0 == (Opcode::Store(regslot)));
                    } else {
                        assert(em[1].0 matches Opcode::StoreGlobal(nm) && nm@ == def.name@);
                        assert(self.layout == old(self).layout);
                    }
                    assert(lowers_fun_blocks(
                        def.params@,
                        *def.body,
                        seq![func_body_label],
                        blocks_model(self.ext_codes@).skip(e0.len() as int),
                    ));
                    lemma_fundef_intro(
                        *stmt,
                        old(self).is_global,
                        old(self).layout,
                        self.layout,
                        top_labels@,
                        em,
                        blocks_model(self.ext_codes@).skip(e0.len() as int),
                        func_body_label,
                        regslot,
                    );
                    }
                }
            }
            Statement::Return(ret) => {
                let ghost c0 = self.code@;
                match &ret.expression {
                    None => {
                        self.add_op_md(
                            Opcode::ConstNull,
                            Metadata { this_label: clone_labels(top_labels), jmp_to_label: None },
                        );
                    }
                    Some(e) => {
                        self.compile_expr(e, top_labels);
                    }
                }
                let ghost c1 = self.code@;
                self.add_op(Opcode::Return);
                proof {
                    lemma_model_split(c0, c1, self.code@);
                    lemma_push_chunk(c1, self.code@);
                    let em = code_model(self.code@.skip(c0.len() as int));
                    match ret.expression {
                        None => {
                            lemma_push_chunk(c0, c1);
                            assert(em =~= seq![
                                ((Opcode::ConstNull), top_labels@, None::<u64>),
                                plain(Opcode::Return),
                            ]);
                        }
                        Some(_) => {
                            let ec = code_model(c1.skip(c0.len() as int));
                            assert(em =~= ec + seq![plain(Opcode::Return)]);
                        }
                    }
                    assert(blocks_model(self.ext_codes@).skip(old(self).ext_codes@.len() as int)
                        =~= Seq::<Seq<Inst>>::empty());
                }
                proof {
                    assert(lowers_stmt(
                        *stmt,
                        old(self).is_global,
                        old(self).layout,
                        self.layout,
                        top_labels@,
                        code_model(self.code@.skip(old(self).code@.len() as int)),
                        blocks_model(self.ext_codes@).skip(old(self).ext_codes@.len() as int),
                    ));
                }
            }
            Statement::ObjectAssignment(_) => {
                proof {
                    assert(false);
                }
            }
        }
        proof {
            assert(old(self).code@.skip(old(self).code@.len() as int)
                =~= Seq::<OpcodeWithMetadata>::empty());
        }
    }

    /// Compiles a function body in a fresh local unit: parameters become
    /// local slots 0, 1, ... in order, and control that reaches the end of
    /// the body returns null.  The resulting blocks are stashed in this
    /// unit's auxiliary buffer.
    fn compile_fundef_body(
        &mut self,
        params: &Vec<FuncParam>,
        body: &Statement,
        top_labels: &Vec<u64>,
    )
        requires
            old(self).wf(),
            stmt_supported(*body),
            old(self).current_label_index + stmt_label_count(*body) <= u64::MAX,
        ensures
            final(self).wf(),
            *final(self) == (UnitCompiler {
                ext_codes: final(self).ext_codes,
                current_label_index: final(self).current_label_index,
                ..*old(self)
            }),
            old(self).current_label_index <= final(self).current_label_index,
            final(self).current_label_index
                <= old(self).current_label_index + stmt_label_count(*body),
            ext_extends(old(self).ext_codes@, final(self).ext_codes@),
            lowers_fun_blocks(
                params@,
                *body,
                top_labels@,
                blocks_model(final(self).ext_codes@).skip(old(self).ext_codes@.len() as int),
            ),
        decreases *body, 1nat,
    {
        let mut unit = UnitCompiler::new(false);
        // labels must stay unique across units: the nested unit continues
        // from this unit's counter, which afterwards takes over its position
        unit.current_label_index = self.current_label_index;

        let ghost lay0u = unit.layout;
        proof {
            assert(params@.subrange(0, 0) =~= Seq::<FuncParam>::empty());
        }
        // register params in order
        let mut i: usize = 0;
        while i < params.len()
            invariant
                unit.wf(),
                unit.is_global == false,
                unit.code@.len() == 0,
                unit.ext_codes@.len() == 0,
                unit.current_label_index == old(self).current_label_index,
                lay0u.locals@.len() == 0,
                params_registered(params@.subrange(0, i as int), lay0u, unit.layout),
                i <= params@.len(),
            decreases params@.len() - i,
        {
            let ghost laypre = unit.layout;
            let slot = unit.layout.register_local(params[i].name.clone());
            proof {
                assert(params@.subrange(0, i + 1).drop_last() =~= params@.subrange(0, i as int));
                assert(params@.subrange(0, i + 1).last() == params@[i as int]);
                assert(reg_parts(laypre, slot));
                assert(params_registered(params@.subrange(0, i + 1).drop_last(), lay0u, laypre));
                assert(LayoutTracker::register_post(
                    laypre,
                    unit.layout,
                    params@.subrange(0, i + 1).last().name@,
                    slot,
                ));
                assert(params_registered(params@.subrange(0, i + 1), lay0u, unit.layout));
            }
            i += 1;
        }
        let ghost layp = unit.layout;
        proof {
            assert(params@.subrange(0, params@.len() as int) =~= params@);
        }

        let ghost u0 = unit.code@;
        unit.compile_stmt(body, top_labels);
        let ghost b0 = unit.code@;
        let ghost layq = unit.layout;
        let ghost ue = unit.ext_codes@;
        // these returns are redundant if the body already returns on every
        // path, but then the machine simply never reaches them
        unit.add_op(Opcode::ConstNull);
        let ghost b1 = unit.code@;
        unit.add_op(Opcode::Return);

        self.current_label_index = unit.current_label_index;

        proof {
            assert(unit.code@.skip(0) =~= unit.code@);
            assert(code_sum(unit.code@) == 0);
            // the unit's whole code is the body's lowering closed by
            // ConstNull; Return
            assert(b0.skip(0) =~= b0);
            assert(blocks_model(ue).skip(0) =~= blocks_model(ue));
            lemma_model_split(u0, b0, unit.code@);
            lemma_model_split(b0, b1, unit.code@);
            lemma_push_chunk(b0, b1);
            lemma_push_chunk(b1, unit.code@);
            assert(code_model(unit.code@) =~= code_model(unit.code@.skip(0)));
            assert(code_model(unit.code@) =~= code_model(b0) + seq![
                plain(Opcode::ConstNull),
                plain(Opcode::Return),
            ]);
        }
        let ghost e0 = self.ext_codes@;
        let mut codes = unit.collect_codes();
        let ghost newblocks = codes@;
        self.ext_codes.append(&mut codes);
        proof {
            assert forall|j: int| e0.len() <= j < self.ext_codes@.len() implies code_sum(
                (#[trigger] self.ext_codes@[j])@,
            ) == 0 by {
                assert(self.ext_codes@[j] == newblocks[j - e0.len()]);
            }
            assert forall|j: int| 0 <= j < e0.len() implies self.ext_codes@[j] == e0[j] by {}
            // the appended chunk is exactly the collected blocks
            assert(blocks_model(self.ext_codes@).skip(e0.len() as int) =~= blocks_model(
                newblocks,
            ));
            let bodyc = code_model(b0);
            let bodyext = blocks_model(ue);
            assert(blocks_model(newblocks) == seq![bodyc + seq![
                plain(Opcode::ConstNull),
                plain(Opcode::Return),
            ]] + bodyext);
            assert(fun_parts(lay0u, layp, layq, bodyc, bodyext));
            assert(lowers_stmt(*body, false, layp, layq, top_labels@, bodyc, bodyext));
            assert(lowers_fun_blocks(
                params@,
                *body,
                top_labels@,
                blocks_model(self.ext_codes@).skip(e0.len() as int),
            ));
        }
    }

    /// The first block is always the unit's own code; the blocks of nested
    /// function definitions follow.  In the global unit the program is closed
    /// with a clean exit carrying status zero.
    fn collect_codes(&self) -> (r: Vec<Vec<OpcodeWithMetadata>>)
        ensures
            r@.len() == 1 + self.ext_codes@.len(),
            code_sum(r@[0]@) == code_sum(self.code@),
            self.is_global ==> r@[0]@.len() >= 2 && r@[0]@.last().op == Opcode::Exit
                && r@[0]@[r@[0]@.len() - 2].op == (Opcode::ConstInt(0)),
            forall|i: int|
                1 <= i < r@.len() ==> code_sum((#[trigger] r@[i])@)
                    == code_sum(self.ext_codes@[i - 1]@),
            self.is_global ==> blocks_model(r@) == seq![
                code_model(self.code@) + seq![plain(Opcode::ConstInt(0)), plain(Opcode::Exit)],
            ] + blocks_model(self.ext_codes@),
            !self.is_global ==> blocks_model(r@) == seq![code_model(self.code@)] + blocks_model(
                self.ext_codes@,
            ),
    {
        let mut main_code = clone_code(&self.code);
        proof {
            lemma_code_sum_like(main_code@, self.code@);
            lemma_code_like_model(main_code@, self.code@);
        }
        // end of program
        if self.is_global {
            let ghost m0 = main_code@;
            main_code.push(OpcodeWithMetadata::new_op(Opcode::ConstInt(0)));
            let ghost m1 = main_code@;
            main_code.push(OpcodeWithMetadata::new_op(Opcode::Exit));
            proof {
                lemma_code_sum_push(m0, m1.last());
                lemma_code_sum_push(m1, main_code@.last());
                assert(m1 == m0.push(m1.last()));
                assert(main_code@ == m1.push(main_code@.last()));
                lemma_model_push(m0, m1.last());
                lemma_model_push(m1, main_code@.last());
                assert(code_model(main_code@) =~= code_model(self.code@) + seq![
                    plain(Opcode::ConstInt(0)),
                    plain(Opcode::Exit),
                ]);
            }
        }
        let ghost mainm = code_model(main_code@);
        let mut codes: Vec<Vec<OpcodeWithMetadata>> = Vec::new();
        codes.push(main_code);
        proof {
            assert(blocks_model(codes@) =~= seq![mainm] + blocks_model(
                self.ext_codes@.subrange(0, 0),
            ));
        }
        let mut i: usize = 0;
        while i < self.ext_codes.len()
            invariant
                codes@.len() == 1 + i,
                i <= self.ext_codes@.len(),
                code_sum(codes@[0]@) == code_sum(self.code@),
                self.is_global ==> codes@[0]@.len() >= 2 && codes@[0]@.last().op == Opcode::Exit
                    && codes@[0]@[codes@[0]@.len() - 2].op == (Opcode::ConstInt(0)),
                forall|j: int|
                    1 <= j < codes@.len() ==> code_sum((#[trigger] codes@[j])@)
                        == code_sum(self.ext_codes@[j - 1]@),
                blocks_model(codes@) == seq![mainm] + blocks_model(
                    self.ext_codes@.subrange(0, i as int),
                ),
            decreases self.ext_codes@.len() - i,
        {
            let c = clone_code(&self.ext_codes[i]);
            proof {
                lemma_code_sum_like(c@, self.ext_codes@[i as int]@);
                lemma_code_like_model(c@, self.ext_codes@[i as int]@);
            }
            let ghost pre = codes@;
            codes.push(c);
            proof {
                lemma_blocks_push(pre, codes@[codes@.len() - 1]);
                assert(blocks_model(codes@) =~= seq![mainm] + blocks_model(
                    self.ext_codes@.subrange(0, i + 1),
                ));
            }
            i += 1;
        }
        proof {
            assert(self.ext_codes@.subrange(0, self.ext_codes@.len() as int) =~= self.ext_codes@);
            if self.is_global {
                assert(blocks_model(codes@) =~= seq![
                    code_model(self.code@) + seq![plain(Opcode::ConstInt(0)), plain(Opcode::Exit)],
                ] + blocks_model(self.ext_codes@));
            } else {
                assert(blocks_model(codes@) =~= seq![code_model(self.code@)] + blocks_model(
                    self.ext_codes@,
                ));
            }
        }
        codes
    }
}

pub proof fn lemma_stmts_label_count_skip(ss: Seq<Statement>, i: int)
    requires
        0 <= i < ss.len(),
    ensures
        stmts_label_count(ss.skip(i)) == stmt_label_count(ss[i]) + stmts_label_count(
            ss.skip(i + 1),
        ),
{
    assert(ss.skip(i).len() > 0);
    assert(ss.skip(i)[0] == ss[i]);
    assert(ss.skip(i).skip(1) =~= ss.skip(i + 1));
}

pub proof fn lemma_code_sum_like(a: Seq<OpcodeWithMetadata>, b: Seq<OpcodeWithMetadata>)
    requires
        code_like(a, b),
    ensures
        code_sum(a) == code_sum(b),
    decreases a.len(),
{
    if a.len() > 0 {
        assert(code_like(a.drop_last(), b.drop_last()));
        lemma_code_sum_like(a.drop_last(), b.drop_last());
    }
}

fn clone_code(v: &Vec<OpcodeWithMetadata>) -> (r: Vec<OpcodeWithMetadata>)
    ensures
        code_like(r@, v@),
{
    let mut r: Vec<OpcodeWithMetadata> = Vec::new();
    let mut i: usize = 0;
    while i < v.len()
        invariant
            i <= v@.len(),
            r@.len() == i,
            forall|j: int| 0 <= j < i ==> owm_like(#[trigger] r@[j], v@[j]),
        decreases v@.len() - i,
    {
        r.push(v[i].clone());
        i += 1;
    }
    r
}

/// The whole-program compiler: a stack of unit compilations whose emitted
/// blocks are concatenated and then linked.
#[derive(Debug)]
pub struct Compiler {
    pub codes: Vec<Vec<OpcodeWithMetadata>>,
}

impl Compiler {
    pub fn new() -> (r: Self)
        ensures
            r.codes@.len() == 0,
    {
        Self { codes: Vec::new() }
    }

    /// Lowers a top-level statement in a fresh global unit.  The unit's own
    /// block is stack-balanced, and so is every stashed function block.
    pub fn compile_top(&mut self, top_stmt: &Statement)
        requires
            stmt_supported(*top_stmt),
            stmt_label_count(*top_stmt) <= u64::MAX,
        ensures
            final(self).codes@.len() > old(self).codes@.len(),
            forall|i: int|
                0 <= i < old(self).codes@.len() ==> final(self).codes@[i]
                    == old(self).codes@[i],
            forall|i: int|
                old(self).codes@.len() <= i < final(self).codes@.len() ==> code_sum(
                    (#[trigger] final(self).codes@[i])@,
                ) == 0,
            ({
                // reaching the end of the program exits cleanly with status zero
                let main = final(self).codes@[old(self).codes@.len() as int]@;
                main.len() >= 2 && main.last().op == Opcode::Exit && main[main.len() - 2].op
                    == (Opcode::ConstInt(0))
            }),
            // the appended blocks are the statement's lowering in a fresh
            // global unit: its own code closed by `ConstInt(0); Exit` first,
            // then the stashed function bodies
            exists|lay0: LayoutTracker, layq: LayoutTracker, main: Seq<Inst>, extm: Seq<Seq<Inst>>|
                #![trigger top_parts(lay0, layq, main, extm)]
                {
                    &&& lay0.locals@.len() == 0
                    &&& lowers_stmt(*top_stmt, true, lay0, layq, Seq::<u64>::empty(), main, extm)
                    &&& final(self).codes@.len() == old(self).codes@.len() + 1 + extm.len()
                    &&& code_model(final(self).codes@[old(self).codes@.len() as int]@) == main
                        + seq![plain(Opcode::ConstInt(0)), plain(Opcode::Exit)]
                    &&& forall|i: int|
                        0 <= i < extm.len() ==> code_model(
                            (#[trigger] final(self).codes@[old(self).codes@.len() + 1 + i])@,
                        ) == extm[i]
                },
    {
        let mut unit_compiler = UnitCompiler::new(true);
        let ghost lay0u = unit_compiler.layout;
        unit_compiler.compile_stmt(top_stmt, &Vec::new());
        proof {
            assert(unit_compiler.code@.skip(0) =~= unit_compiler.code@);
            assert(blocks_model(unit_compiler.ext_codes@).skip(0) =~= blocks_model(
                unit_compiler.ext_codes@,
            ));
        }
        let ghost layq = unit_compiler.layout;
        let ghost mainm = code_model(unit_compiler.code@);
        let ghost extm = blocks_model(unit_compiler.ext_codes@);
        let ghost c0 = self.codes@;
        let mut blocks = unit_compiler.collect_codes();
        let ghost newblocks = blocks@;
        self.codes.append(&mut blocks);
        proof {
            assert forall|i: int|
                c0.len() <= i < self.codes@.len() implies code_sum(
                (#[trigger] self.codes@[i])@,
            ) == 0 by {
                assert(self.codes@[i] == newblocks[i - c0.len()]);
            }
            assert(top_parts(lay0u, layq, mainm, extm));
            assert(lowers_stmt(*top_stmt, true, lay0u, layq, Seq::<u64>::empty(), mainm, extm));
            assert(self.codes@[c0.len() as int] == newblocks[0]);
            assert(code_model(self.codes@[c0.len() as int]@) == blocks_model(newblocks)[0]);
            assert(code_model(self.codes@[c0.len() as int]@) == mainm + seq![
                plain(Opcode::ConstInt(0)),
                plain(Opcode::Exit),
            ]);
            assert forall|i: int| 0 <= i < extm.len() implies code_model(
                (#[trigger] self.codes@[c0.len() + 1 + i])@,
            ) == extm[i] by {
                assert(self.codes@[c0.len() + 1 + i] == newblocks[1 + i]);
                assert(code_model(self.codes@[c0.len() + 1 + i]@) == blocks_model(
                    newblocks,
                )[1 + i]);
            }
        }
    }
}

/// A fatal error of the compile or link pass.
#[derive(Debug, Clone, Copy, PartialEq, Eq, Structural)]
pub enum CompileError {
    /// A jump or function-create targets a label that no instruction carries.
    UnresolvedLabel,
}

pub open spec fn has_label(o: OpcodeWithMetadata, l: u64) -> bool {
    o.md.this_label@.contains(l)
}

pub open spec fn label_defined(code: Seq<OpcodeWithMetadata>, l: u64) -> bool {
    exists|i: int| 0 <= i < code.len() && has_label(#[trigger] code[i], l)
}

/// The address a label resolves to: the position of the last instruction
/// that carries it.
pub open spec fn label_addr(code: Seq<OpcodeWithMetadata>, l: u64) -> int
    decreases code.len(),
{
    if code.len() == 0 {
        0
    } else if has_label(code.last(), l) {
        code.len() - 1
    } else {
        label_addr(code.drop_last(), l)
    }
}

/// The opcodes whose first immediate is a label to be resolved.
pub open spec fn patchable(op: Opcode) -> bool {
    ||| op is JmpIfTrue
    ||| op is JmpAlways
    ||| op is JmpIfFalse
    ||| op is CreateFunction
}

/// Rewrites the first immediate to the resolved address; the arity of
/// `CreateFunction` is preserved, and non-patchable opcodes pass unchanged.
pub open spec fn patch_op(op: Opcode, a: usize) -> Opcode {
    match op {
        Opcode::JmpIfTrue(_) => Opcode::JmpIfTrue(a),
        Opcode::JmpAlways(_) => Opcode::JmpAlways(a),
        Opcode::JmpIfFalse(_) => Opcode::JmpIfFalse(a),
        Opcode::CreateFunction(_, n) => Opcode::CreateFunction(a, n),
        _ => op,
    }
}

pub open spec fn needs_patch(o: OpcodeWithMetadata) -> bool {
    patchable(o.op) && o.md.jmp_to_label is Some
}

/// Every instruction that carries a target label can be resolved.
pub open spec fn linkable(code: Seq<OpcodeWithMetadata>) -> bool {
    forall|i: int|
        0 <= i < code.len() && needs_patch(#[trigger] code[i]) ==> label_defined(
            code,
            code[i].md.jmp_to_label->Some_0,
        )
}

/// The instruction at position `i` after the link pass.
pub open spec fn linked_op_at(code: Seq<OpcodeWithMetadata>, i: int) -> Opcode {
    if needs_patch(code[i]) && label_defined(code, code[i].md.jmp_to_label->Some_0) {
        patch_op(code[i].op, label_addr(code, code[i].md.jmp_to_label->Some_0) as usize)
    } else {
        code[i].op
    }
}

/// After linking, a patched immediate lies inside the code vector.
pub open spec fn jump_target_in_range(op: Opcode, n: int) -> bool {
    match op {
        Opcode::JmpIfTrue(a) => a < n,
        Opcode::JmpAlways(a) => a < n,
        Opcode::JmpIfFalse(a) => a < n,
        Opcode::CreateFunction(a, _) => a < n,
        _ => true,
    }
}

pub proof fn lemma_label_addr_in_range(code: Seq<OpcodeWithMetadata>, l: u64)
    requires
        label_defined(code, l),
    ensures
        0 <= label_addr(code, l) < code.len(),
    decreases code.len(),
{
    if !has_label(code.last(), l) {
        let i = choose|i: int| 0 <= i < code.len() && has_label(#[trigger] code[i], l);
        assert(code.drop_last()[i] == code[i]);
        assert(label_defined(code.drop_last(), l));
        lemma_label_addr_in_range(code.drop_last(), l);
    }
}

/// The resolved address is the last position carrying the label.
pub proof fn lemma_label_addr_last_match(code: Seq<OpcodeWithMetadata>, l: u64, i: int)
    requires
        0 <= i < code.len(),
        has_label(code[i], l),
        forall|j: int| i < j < code.len() ==> !has_label(#[trigger] code[j], l),
    ensures
        label_defined(code, l),
        label_addr(code, l) == i,
    decreases code.len(),
{
    if i == code.len() - 1 {
    } else {
        assert(!has_label(code.last(), l));
        assert(code.drop_last()[i] == code[i]);
        assert forall|j: int| i < j < code.drop_last().len() implies !has_label(
            #[trigger] code.drop_last()[j],
            l,
        ) by {
            assert(code.drop_last()[j] == code[j]);
        }
        lemma_label_addr_last_match(code.drop_last(), l, i);
    }
}

/// The metadata projections the linker reads.
pub open spec fn md_like(a: OpcodeWithMetadata, b: OpcodeWithMetadata) -> bool {
    &&& a.md.jmp_to_label == b.md.jmp_to_label
    &&& a.md.this_label@ == b.md.this_label@
}

pub open spec fn mds_like(a: Seq<OpcodeWithMetadata>, b: Seq<OpcodeWithMetadata>) -> bool {
    a.len() == b.len() && forall|i: int| 0 <= i < a.len() ==> md_like(#[trigger] a[i], b[i])
}

pub proof fn lemma_label_defined_like(
    a: Seq<OpcodeWithMetadata>,
    b: Seq<OpcodeWithMetadata>,
    l: u64,
)
    requires
        mds_like(a, b),
    ensures
        label_defined(a, l) == label_defined(b, l),
{
    if label_defined(a, l) {
        let i = choose|i: int| 0 <= i < a.len() && has_label(#[trigger] a[i], l);
        assert(has_label(b[i], l));
    }
    if label_defined(b, l) {
        let i = choose|i: int| 0 <= i < b.len() && has_label(#[trigger] b[i], l);
        assert(has_label(a[i], l));
    }
}

pub proof fn lemma_label_addr_like(a: Seq<OpcodeWithMetadata>, b: Seq<OpcodeWithMetadata>, l: u64)
    requires
        mds_like(a, b),
    ensures
        label_addr(a, l) == label_addr(b, l),
    decreases a.len(),
{
    if a.len() > 0 {
        assert(has_label(a.last(), l) == has_label(b.last(), l));
        assert forall|i: int| 0 <= i < a.drop_last().len() implies md_like(
            #[trigger] a.drop_last()[i],
            b.drop_last()[i],
        ) by {
            assert(a.drop_last()[i] == a[i]);
            assert(b.drop_last()[i] == b[i]);
        }
        lemma_label_addr_like(a.drop_last(), b.drop_last(), l);
    }
}

fn contains_label(v: &Vec<u64>, l: u64) -> (r: bool)
    ensures
        r == v@.contains(l),
{
    let mut i: usize = 0;
    while i < v.len()
        invariant
            i <= v@.len(),
            forall|j: int| 0 <= j < i ==> v@[j] != l,
        decreases v@.len() - i,
    {
        if v[i] == l {
            assert(v@.contains(l));
            return true;
        }
        i += 1;
    }
    assert(!v@.contains(l));
    false
}

/// Finds the address of the last instruction that carries label `l`.
fn find_label_addr(code: &Vec<OpcodeWithMetadata>, l: u64) -> (r: Option<usize>)
    ensures
        match r {
            Some(a) => label_defined(code@, l) && a as int == label_addr(code@, l),
            None => !label_defined(code@, l),
        },
{
    let mut i: usize = code.len();
    while i > 0
        invariant
            i <= code@.len(),
            forall|j: int| i <= j < code@.len() ==> !has_label(#[trigger] code@[j], l),
        decreases i,
    {
        i -= 1;
        if contains_label(&code[i].md.this_label, l) {
            proof {
                lemma_label_addr_last_match(code@, l, i as int);
            }
            return Some(i);
        }
    }
    None
}

pub proof fn lemma_code_like_append(
    a1: Seq<OpcodeWithMetadata>,
    a2: Seq<OpcodeWithMetadata>,
    b1: Seq<OpcodeWithMetadata>,
    b2: Seq<OpcodeWithMetadata>,
)
    requires
        code_like(a1, b1),
        code_like(a2, b2),
    ensures
        code_like(a1 + a2, b1 + b2),
{
    assert forall|i: int| 0 <= i < (a1 + a2).len() implies owm_like(
        #[trigger] (a1 + a2)[i],
        (b1 + b2)[i],
    ) by {
        if i < a1.len() {
            assert((a1 + a2)[i] == a1[i]);
            assert((b1 + b2)[i] == b1[i]);
        } else {
            assert((a1 + a2)[i] == a2[i - a1.len()]);
            assert((b1 + b2)[i] == b2[i - a1.len()]);
        }
    }
}

/// The concatenation of all emitted blocks, main block first.
pub open spec fn concat_all(codes: Seq<Vec<OpcodeWithMetadata>>) -> Seq<OpcodeWithMetadata>
    decreases codes.len(),
{
    if codes.len() == 0 {
        Seq::empty()
    } else {
        concat_all(codes.drop_last()) + codes.last()@
    }
}

impl Compiler {
    /// Resolves every target label to the address of the last instruction
    /// carrying that label; an instruction whose target label no instruction
    /// carries is a fatal link error.
    pub fn link_jumps(&self, orig_codes: &Vec<OpcodeWithMetadata>) -> (r: Result<
        Vec<OpcodeWithMetadata>,
        CompileError,
    >)
        ensures
            match r {
                Ok(lc) => {
                    &&& linkable(orig_codes@)
                    &&& lc@.len() == orig_codes@.len()
                    &&& forall|i: int|
                        0 <= i < lc@.len() ==> (#[trigger] lc@[i]).op == linked_op_at(
                            orig_codes@,
                            i,
                        )
                    &&& mds_like(lc@, orig_codes@)
                },
                Err(e) => !linkable(orig_codes@) && e == CompileError::UnresolvedLabel,
            },
    {
        let mut lc: Vec<OpcodeWithMetadata> = Vec::new();
        let mut i: usize = 0;
        while i < orig_codes.len()
            invariant
                i <= orig_codes@.len(),
                lc@.len() == i,
                forall|j: int|
                    0 <= j < i ==> (#[trigger] lc@[j]).op == linked_op_at(orig_codes@, j),
                forall|j: int| 0 <= j < i ==> md_like(#[trigger] lc@[j], orig_codes@[j]),
                forall|j: int|
                    0 <= j < i && needs_patch(#[trigger] orig_codes@[j]) ==> label_defined(
                        orig_codes@,
                        orig_codes@[j].md.jmp_to_label->Some_0,
                    ),
            decreases orig_codes@.len() - i,
        {
            let cur = &orig_codes[i];
            let jmp_to_label = cur.get_jmp_to_label();
            let new_op: Opcode = match (jmp_to_label, &cur.op) {
                (Some(l), Opcode::JmpIfTrue(_)) => {
                    match find_label_addr(orig_codes, l) {
                        None => {
                            return Err(CompileError::UnresolvedLabel);
                        }
                        Some(a) => Opcode::JmpIfTrue(a),
                    }
                }
                (Some(l), Opcode::JmpAlways(_)) => {
                    match find_label_addr(orig_codes, l) {
                        None => {
                            return Err(CompileError::UnresolvedLabel);
                        }
                        Some(a) => Opcode::JmpAlways(a),
                    }
                }
                (Some(l), Opcode::JmpIfFalse(_)) => {
                    match find_label_addr(orig_codes, l) {
                        None => {
                            return Err(CompileError::UnresolvedLabel);
                        }
                        Some(a) => Opcode::JmpIfFalse(a),
                    }
                }
                (Some(l), Opcode::CreateFunction(_, n)) => {
                    match find_label_addr(orig_codes, l) {
                        None => {
                            return Err(CompileError::UnresolvedLabel);
                        }
                        Some(a) => Opcode::CreateFunction(a, *n),
                    }
                }
                _ => cur.op.clone(),
            };
            lc.push(OpcodeWithMetadata { op: new_op, md: cur.md.clone() });
            i += 1;
        }
        Ok(lc)
    }

    /// Concatenates the emitted blocks into one flat vector and links it.
    /// Every patched immediate then lies inside the returned code vector.
    pub fn link(&mut self) -> (r: Result<Vec<Opcode>, CompileError>)
        ensures
            *final(self) == *old(self),
            match r {
                Ok(code) => {
                    &&& linkable(concat_all(old(self).codes@))
                    &&& code@.len() == concat_all(old(self).codes@).len()
                    &&& forall|i: int|
                        0 <= i < code@.len() ==> code@[i] == linked_op_at(
                            concat_all(old(self).codes@),
                            i,
                        )
                    &&& forall|i: int|
                        0 <= i < code@.len() && needs_patch(
                            concat_all(old(self).codes@)[i],
                        ) ==> jump_target_in_range(code@[i], code@.len() as int)
                },
                Err(e) => !linkable(concat_all(old(self).codes@))
                    && e == CompileError::UnresolvedLabel,
            },
    {
        let ghost cc = concat_all(self.codes@);

        // flatten the blocks
        let mut concat: Vec<OpcodeWithMetadata> = Vec::new();
        let mut i: usize = 0;
        while i < self.codes.len()
            invariant
                i <= self.codes@.len(),
                code_like(concat@, concat_all(self.codes@.subrange(0, i as int))),
                *self == *old(self),
            decreases self.codes@.len() - i,
        {
            let ghost pre = concat@;
            let mut c = clone_code(&self.codes[i]);
            let ghost cseq = c@;
            concat.append(&mut c);
            proof {
                assert(self.codes@.subrange(0, i + 1).drop_last() =~= self.codes@.subrange(
                    0,
                    i as int,
                ));
                assert(self.codes@.subrange(0, i + 1).last() == self.codes@[i as int]);
                lemma_code_like_append(
                    pre,
                    cseq,
                    concat_all(self.codes@.subrange(0, i as int)),
                    self.codes@[i as int]@,
                );
            }
            i += 1;
        }
        proof {
            assert(self.codes@.subrange(0, self.codes@.len() as int) =~= self.codes@);
            assert(code_like(concat@, cc));
        }

        match self.link_jumps(&concat) {
            Err(e) => {
                proof {
                    // an unresolved label in the flattened copy is unresolved
                    // in the original blocks too
                    assert(!linkable(concat@));
                    if linkable(cc) {
                        let j = choose|j: int|
                            0 <= j < concat@.len() && needs_patch(#[trigger] concat@[j])
                                && !label_defined(concat@, concat@[j].md.jmp_to_label->Some_0);
                        assert(owm_like(concat@[j], cc[j]));
                        assert(needs_patch(cc[j]));
                        lemma_label_defined_like(concat@, cc, cc[j].md.jmp_to_label->Some_0);
                        assert(false);
                    }
                }
                Err(e)
            }
            Ok(lc) => {
                proof {
                    assert forall|j: int|
                        0 <= j < cc.len() && needs_patch(#[trigger] cc[j]) implies label_defined(
                        cc,
                        cc[j].md.jmp_to_label->Some_0,
                    ) by {
                        assert(owm_like(concat@[j], cc[j]));
                        assert(needs_patch(concat@[j]));
                        lemma_label_defined_like(concat@, cc, cc[j].md.jmp_to_label->Some_0);
                    }
                }
                let mut out: Vec<Opcode> = Vec::new();
                let mut i: usize = 0;
                while i < lc.len()
                    invariant
                        i <= lc@.len(),
                        out@.len() == i,
                        lc@.len() == concat@.len(),
                        code_like(concat@, cc),
                        linkable(concat@),
                        linkable(cc),
                        forall|j: int|
                            0 <= j < lc@.len() ==> (#[trigger] lc@[j]).op == linked_op_at(
                                concat@,
                                j,
                            ),
                        forall|j: int| 0 <= j < i ==> out@[j] == linked_op_at(cc, j),
                        forall|j: int|
                            0 <= j < i && needs_patch(cc[j]) ==> jump_target_in_range(
                                #[trigger] out@[j],
                                cc.len() as int,
                            ),
                        *self == *old(self),
                    decreases lc@.len() - i,
                {
                    let op = lc[i].op.clone();
                    proof {
                        let j = i as int;
                        assert(owm_like(concat@[j], cc[j]));
                        if needs_patch(cc[j]) {
                            let l = cc[j].md.jmp_to_label->Some_0;
                            lemma_label_defined_like(concat@, cc, l);
                            lemma_label_addr_like(concat@, cc, l);
                            lemma_label_addr_in_range(cc, l);
                        }
                        assert(linked_op_at(concat@, j) == linked_op_at(cc, j));
                    }
                    out.push(op);
                    i += 1;
                }
                Ok(out)
            }
        }
    }
}

/// Linking is idempotent: running the link pass again over already-linked
/// instructions resolves every label to the same address and leaves every
/// instruction unchanged.
pub proof fn lemma_link_idempotent(code: Seq<OpcodeWithMetadata>, linked: Seq<OpcodeWithMetadata>)
    requires
        linkable(code),
        linked.len() == code.len(),
        forall|i: int|
            0 <= i < linked.len() ==> (#[trigger] linked[i]).op == linked_op_at(code, i),
        mds_like(linked, code),
    ensures
        linkable(linked),
        forall|i: int| 0 <= i < linked.len() ==> linked_op_at(linked, i) == linked[i].op,
{
    assert forall|i: int|
        0 <= i < linked.len() && needs_patch(#[trigger] linked[i]) implies label_defined(
        linked,
        linked[i].md.jmp_to_label->Some_0,
    ) by {
        assert(needs_patch(code[i]));
        lemma_label_defined_like(linked, code, linked[i].md.jmp_to_label->Some_0);
    }
    assert forall|i: int| 0 <= i < linked.len() implies linked_op_at(linked, i)
        == linked[i].op by {
        if needs_patch(linked[i]) {
            let l = linked[i].md.jmp_to_label->Some_0;
            assert(needs_patch(code[i]));
            lemma_label_defined_like(linked, code, l);
            lemma_label_addr_like(linked, code, l);
        } else {
            if needs_patch(code[i]) {
                assert(patchable(patch_op(code[i].op, label_addr(
                    code,
                    code[i].md.jmp_to_label->Some_0,
                ) as usize)));
                assert(false);
            }
        }
    }
}

} // verus!
