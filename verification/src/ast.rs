use vstd::prelude::*;

verus! {

/// The broad kinds of expression the surface syntax produces.
#[derive(Debug, Clone)]
pub enum ExpressionType {
    Binary,
    Literal,
    Name,
}

/// The kinds of literal the compiler core distinguishes.
#[derive(Debug, Clone)]
pub enum LiteralType {
    Integer,
}

#[derive(Debug, Clone)]
pub enum BinaryOperator {
    Plus,
    Minus,
    Times,
    Divide,
    Modulo,
    Eq,
    Neq,
    Lt,
    Le,
    Gt,
    Ge,
}

/// The broad kinds of statement the surface syntax produces.
#[derive(Debug, Clone)]
pub enum StatementType {
    Assign,
    Expr,
    Block,
    Conditional,
}

#[derive(Debug)]
pub enum Statement {
    Assignment(AssignmentStatement),
    ObjectAssignment(ObjectAssignmentStatement),
    Expression(Expression),
    Block(Vec<Statement>),
    Conditional(ConditionalStatement),
    While(WhileStatement),
    FuncDef(FuncDefStatement),
    Return(ReturnStatement),
}

#[derive(Debug)]
pub struct AssignmentStatement {
    pub name: String,
    pub expression: Box<Expression>,
}

impl AssignmentStatement {
    pub fn new(name: String, expression: Expression) -> (r: Self)
        ensures
            r.name == name,
            *r.expression == expression,
    {
        Self { name, expression: Box::new(expression) }
    }

    pub fn name(&self) -> (r: &str)
        ensures
            r@ == self.name@,
    {
        self.name.as_str()
    }

    pub fn expression(&self) -> (r: &Expression)
        ensures
            *r == *self.expression,
    {
        &self.expression
    }
}

#[derive(Debug)]
pub struct ObjectAssignmentStatement {
    pub object: Box<Expression>,
    pub index: Box<Expression>,
    pub expression: Box<Expression>,
}

impl ObjectAssignmentStatement {
    pub fn new(object: Expression, index: Expression, expression: Expression) -> (r: Self)
        ensures
            *r.object == object,
            *r.index == index,
            *r.expression == expression,
    {
        Self {
            object: Box::new(object),
            index: Box::new(index),
            expression: Box::new(expression),
        }
    }

    pub fn object(&self) -> (r: &Expression)
        ensures
            *r == *self.object,
    {
        &self.object
    }

    pub fn index(&self) -> (r: &Expression)
        ensures
            *r == *self.index,
    {
        &self.index
    }

    pub fn expression(&self) -> (r: &Expression)
        ensures
            *r == *self.expression,
    {
        &self.expression
    }
}

#[derive(Debug)]
pub struct ConditionalStatement {
    pub cond: Box<Expression>,
    pub then_branch: Box<Statement>,
    pub otherwise: Option<Box<Statement>>,
}

impl ConditionalStatement {
    pub fn cond(&self) -> (r: &Expression)
        ensures
            *r == *self.cond,
    {
        &self.cond
    }

    pub fn then_branch(&self) -> (r: &Statement)
        ensures
            *r == *self.then_branch,
    {
        &self.then_branch
    }

    pub fn otherwise(&self) -> (r: Option<&Statement>)
        ensures
            match r {
                Some(s) => self.otherwise is Some && *s == *self.otherwise->Some_0,
                None => self.otherwise is None,
            },
    {
        match &self.otherwise {
            Some(s) => Some(&**s),
            None => None,
        }
    }

    pub fn new_no_else(cond: Expression, then_branch: Statement) -> (r: Self)
        ensures
            *r.cond == cond,
            *r.then_branch == then_branch,
            r.otherwise is None,
    {
        Self { cond: Box::new(cond), then_branch: Box::new(then_branch), otherwise: None }
    }

    pub fn new(cond: Expression, then_branch: Statement, otherwise: Statement) -> (r: Self)
        ensures
            *r.cond == cond,
            *r.then_branch == then_branch,
            r.otherwise is Some && *r.otherwise->Some_0 == otherwise,
    {
        Self {
            cond: Box::new(cond),
            then_branch: Box::new(then_branch),
            otherwise: Some(Box::new(otherwise)),
        }
    }
}

#[derive(Debug)]
pub struct WhileStatement {
    pub cond: Box<Expression>,
    pub body: Box<Statement>,
}

impl WhileStatement {
    pub fn new(cond: Expression, body: Statement) -> (r: Self)
        ensures
            *r.cond == cond,
            *r.body == body,
    {
        Self { cond: Box::new(cond), body: Box::new(body) }
    }

    pub fn cond(&self) -> (r: &Expression)
        ensures
            *r == *self.cond,
    {
        &self.cond
    }

    pub fn body(&self) -> (r: &Statement)
        ensures
            *r == *self.body,
    {
        &self.body
    }
}

#[derive(Debug, Clone)]
pub enum PrimitiveType {
    Integer,
}

#[derive(Debug, Clone)]
pub enum TypeExpression {
    Primitive(PrimitiveType),
}

impl TypeExpression {
    pub fn new_primitive(ty: PrimitiveType) -> (r: Self)
        ensures
            r == TypeExpression::Primitive(ty),
    {
        Self::Primitive(ty)
    }
}

#[derive(Debug, Clone)]
pub struct FuncParam {
    pub name: String,
    pub ty: Option<TypeExpression>,
}

impl FuncParam {
    pub fn new_with_type(name: String, ty: TypeExpression) -> (r: Self)
        ensures
            r.name == name,
            r.ty == Some(ty),
    {
        Self { name, ty: Some(ty) }
    }

    pub fn new_without_type(name: String) -> (r: Self)
        ensures
            r.name == name,
            r.ty is None,
    {
        Self { name, ty: None }
    }

    pub fn name(&self) -> (r: &str)
        ensures
            r@ == self.name@,
    {
        self.name.as_str()
    }

    pub fn ty(&self) -> (r: Option<&TypeExpression>)
        ensures
            match r {
                Some(t) => self.ty is Some && *t == self.ty->Some_0,
                None => self.ty is None,
            },
    {
        self.ty.as_ref()
    }
}

#[derive(Debug)]
pub struct FuncDefStatement {
    pub name: String,
    pub params: Vec<FuncParam>,
    pub body: Box<Statement>,
    pub return_type: Option<TypeExpression>,
}

impl FuncDefStatement {
    pub fn new(
        name: String,
        params: Vec<FuncParam>,
        body: Statement,
        return_type: Option<TypeExpression>,
    ) -> (r: Self)
        ensures
            r.name == name,
            r.params == params,
            *r.body == body,
            r.return_type == return_type,
    {
        Self { name, params, body: Box::new(body), return_type }
    }

    pub fn name(&self) -> (r: &str)
        ensures
            r@ == self.name@,
    {
        self.name.as_str()
    }

    pub fn params(&self) -> (r: &Vec<FuncParam>)
        ensures
            *r == self.params,
    {
        &self.params
    }

    pub fn body(&self) -> (r: &Statement)
        ensures
            *r == *self.body,
    {
        &self.body
    }

    pub fn return_type(&self) -> (r: Option<&TypeExpression>)
        ensures
            match r {
                Some(t) => self.return_type is Some && *t == self.return_type->Some_0,
                None => self.return_type is None,
            },
    {
        self.return_type.as_ref()
    }
}

#[derive(Debug)]
pub struct ReturnStatement {
    pub expression: Option<Box<Expression>>,
}

impl ReturnStatement {
    pub fn new(expression: Expression) -> (r: Self)
        ensures
            r.expression is Some && *r.expression->Some_0 == expression,
    {
        Self { expression: Some(Box::new(expression)) }
    }

    pub fn new_null() -> (r: Self)
        ensures
            r.expression is None,
    {
        Self { expression: None }
    }

    pub fn expression(&self) -> (r: Option<&Expression>)
        ensures
            match r {
                Some(e) => self.expression is Some && *e == *self.expression->Some_0,
                None => self.expression is None,
            },
    {
        match &self.expression {
            Some(e) => Some(&**e),
            None => None,
        }
    }
}

#[derive(Debug)]
pub enum Expression {
    Binary(BinaryExpression),
    Literal(LiteralExpression),
    FunCall(FunCallExpression),
    Index(IndexExpression),
    Name(NameExpression),
}

#[derive(Debug)]
pub struct BinaryExpression {
    pub op: BinaryOperator,
    pub left: Box<Expression>,
    pub right: Box<Expression>,
}

impl BinaryExpression {
    pub fn new(op: BinaryOperator, left: Expression, right: Expression) -> (r: Self)
        ensures
            r.op == op,
            *r.left == left,
            *r.right == right,
    {
        Self { op, left: Box::new(left), right: Box::new(right) }
    }

    pub fn op(&self) -> (r: &BinaryOperator)
        ensures
            *r == self.op,
    {
        &self.op
    }

    pub fn left(&self) -> (r: &Expression)
        ensures
            *r == *self.left,
    {
        &self.left
    }

    pub fn right(&self) -> (r: &Expression)
        ensures
            *r == *self.right,
    {
        &self.right
    }
}

/// A literal: an integer, a string, or the placeholder for a list literal.
#[derive(Debug, Clone)]
pub enum LiteralExpression {
    Integer(i64),
    String(String),
    List,
}

#[derive(Debug)]
pub struct FunCallExpression {
    pub callee: Box<Expression>,
    pub args: Vec<Expression>,
}

impl FunCallExpression {
    pub fn new(callee: Expression, args: Vec<Expression>) -> (r: Self)
        ensures
            *r.callee == callee,
            r.args == args,
    {
        Self { callee: Box::new(callee), args }
    }

    pub fn callee(&self) -> (r: &Expression)
        ensures
            *r == *self.callee,
    {
        &self.callee
    }

    pub fn args(&self) -> (r: &Vec<Expression>)
        ensures
            *r == self.args,
    {
        &self.args
    }
}

#[derive(Debug, Clone)]
pub struct NameExpression {
    pub name: String,
}

impl NameExpression {
    pub fn new(name: String) -> (r: Self)
        ensures
            r.name == name,
    {
        Self { name }
    }

    pub fn get_name(&self) -> (r: &str)
        ensures
            r@ == self.name@,
    {
        self.name.as_str()
    }
}

#[derive(Debug)]
pub struct IndexExpression {
    pub callee: Box<Expression>,
    pub arg: Box<Expression>,
}

impl IndexExpression {
    pub fn new(callee: Expression, arg: Expression) -> (r: Self)
        ensures
            *r.callee == callee,
            *r.arg == arg,
    {
        Self { callee: Box::new(callee), arg: Box::new(arg) }
    }

    pub fn callee(&self) -> (r: &Expression)
        ensures
            *r == *self.callee,
    {
        &self.callee
    }

    pub fn arg(&self) -> (r: &Expression)
        ensures
            *r == *self.arg,
    {
        &self.arg
    }
}

} // verus!
