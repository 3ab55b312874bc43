//! The structured control-flow tree: statements, sequences, switches and
//! loops, with a mathematical model (`Expr`) that contracts speak of.
use vstd::prelude::*;
use vstd::string::StringExecFns;
use crate::types::{
    decimal, join_strings, joined, u128_to_decimal, usize_to_decimal, DummyFormatter, ErasedRegion,
    Formatter, IntegerTy, RefKind, VariantId,
};

verus! {

/// A memory location: a local variable.
#[derive(Debug, Clone, Copy, PartialEq, Eq, Structural)]
pub struct Place {
    pub var_id: usize,
}

/// A value read by a statement or a test; opaque to control-flow work.
#[derive(Debug, Clone, Copy, PartialEq, Eq, Structural)]
pub enum Operand {
    Copy(Place),
    Move(Place),
    Const(u128),
}

/// The right-hand side of an assignment; opaque to control-flow work.
#[derive(Debug, Clone, Copy, PartialEq, Eq, Structural)]
pub enum Rvalue {
    Use(Operand),
    Ref(Place, RefKind),
    Discriminant(Place),
}

#[derive(Debug, Clone, Copy, PartialEq, Eq, Structural)]
pub struct Assert {
    pub cond: Operand,
    pub expected: bool,
}

/// Functions that the translation knows of without a definition.
#[derive(Debug, Clone, Copy, PartialEq, Eq, Structural)]
pub enum AssumedFunId {
    BoxNew,
    BoxDeref,
    BoxDerefMut,
    BoxFree,
}

/// Identifier of a function declaration.
#[derive(Debug, Clone, Copy, PartialEq, Eq, Structural)]
pub struct DefId {
    pub index: usize,
}

/// The callee of a call.
#[derive(Debug, Clone, Copy, PartialEq, Eq, Structural)]
pub enum FunId {
    /// A function of the crate.
    Local(DefId),
    Assumed(AssumedFunId),
}

#[derive(Debug, Clone, PartialEq, Eq)]
pub struct Call {
    pub func: FunId,
    pub region_params: Vec<ErasedRegion>,
    pub args: Vec<Operand>,
    pub dest: Place,
}

#[derive(Debug, Clone, PartialEq, Eq)]
pub enum Statement {
    Assign(Place, Rvalue),
    FakeRead(Place),
    SetDiscriminant(Place, VariantId),
    Drop(Place),
    Assert(Assert),
    Call(Call),
    /// Panic also handles "unreachable"
    Panic,
    Return,
    /// Break to an outer loop: 0 is the innermost enclosing loop.
    Break(usize),
    /// Continue an outer loop: 0 is the innermost enclosing loop.
    Continue(usize),
    /// No-op.
    Nop,
}

#[derive(Debug, PartialEq, Eq)]
pub enum SwitchTargets {
    /// The `if` branch and the `else` branch
    If(Box<Expression>, Box<Expression>),
    /// The integer type, the branches for given values in their declared
    /// order, and the branch taken for every other value.
    SwitchInt(IntegerTy, Vec<(u128, Expression)>, Box<Expression>),
}

#[derive(Debug, PartialEq, Eq)]
pub enum Expression {
    Statement(Statement),
    Sequence(Box<Expression>, Box<Expression>),
    Switch(Operand, SwitchTargets),
    Loop(Box<Expression>),
}

/// A function declaration whose body has been structured.
#[derive(Debug)]
pub struct FunDecl {
    pub def_id: DefId,
    /// The path of the function, one segment per element.
    pub name: Vec<String>,
    /// Whether the function might diverge.
    pub divergent: bool,
    pub arg_count: usize,
    pub body: Expression,
}

/// Model of a call: its arguments as sequences.
pub struct CallModel {
    pub func: FunId,
    pub region_params: Seq<ErasedRegion>,
    pub args: Seq<Operand>,
    pub dest: Place,
}

/// Model of a statement.
pub enum Stmt {
    Assign(Place, Rvalue),
    FakeRead(Place),
    SetDiscriminant(Place, VariantId),
    Drop(Place),
    Assert(Assert),
    Call(CallModel),
    Panic,
    Return,
    Break(usize),
    Continue(usize),
    Nop,
}

/// Model of the branches of a switch.
pub enum Targets {
    If(Box<Expr>, Box<Expr>),
    SwitchInt(IntegerTy, Seq<(u128, Expr)>, Box<Expr>),
}

/// Model of a structured expression.
pub enum Expr {
    Stmt(Stmt),
    Sequence(Box<Expr>, Box<Expr>),
    Switch(Operand, Targets),
    Loop(Box<Expr>),
}

impl View for Call {
    type V = CallModel;

    open spec fn view(&self) -> CallModel {
        CallModel {
            func: self.func,
            region_params: self.region_params@,
            args: self.args@,
            dest: self.dest,
        }
    }
}

impl View for Statement {
    type V = Stmt;

    open spec fn view(&self) -> Stmt {
        match *self {
            Statement::Assign(p, rv) => Stmt::Assign(p, rv),
            Statement::FakeRead(p) => Stmt::FakeRead(p),
            Statement::SetDiscriminant(p, v) => Stmt::SetDiscriminant(p, v),
            Statement::Drop(p) => Stmt::Drop(p),
            Statement::Assert(a) => Stmt::Assert(a),
            Statement::Call(c) => Stmt::Call(c@),
            Statement::Panic => Stmt::Panic,
            Statement::Return => Stmt::Return,
            Statement::Break(i) => Stmt::Break(i),
            Statement::Continue(i) => Stmt::Continue(i),
            Statement::Nop => Stmt::Nop,
        }
    }
}

/// Model of the value-indexed branches of a switch.
pub open spec fn cases_view(s: Seq<(u128, Expression)>) -> Seq<(u128, Expr)>
    decreases s,
{
    if s.len() == 0 {
        Seq::empty()
    } else {
        cases_view(s.drop_last()).push((s.last().0, expr_view(s.last().1)))
    }
}

/// Model of an expression.
pub open spec fn expr_view(e: Expression) -> Expr
    decreases e,
{
    match e {
        Expression::Statement(s) => Expr::Stmt(s@),
        Expression::Sequence(a, b) => Expr::Sequence(Box::new(expr_view(*a)), Box::new(expr_view(*b))),
        Expression::Switch(op, SwitchTargets::If(a, b)) => Expr::Switch(
            op,
            Targets::If(Box::new(expr_view(*a)), Box::new(expr_view(*b))),
        ),
        Expression::Switch(op, SwitchTargets::SwitchInt(ty, cases, otherwise)) => Expr::Switch(
            op,
            Targets::SwitchInt(ty, cases_view(cases@), Box::new(expr_view(*otherwise))),
        ),
        Expression::Loop(b) => Expr::Loop(Box::new(expr_view(*b))),
    }
}

impl View for Expression {
    type V = Expr;

    open spec fn view(&self) -> Expr {
        expr_view(*self)
    }
}

/// What a context must write: places, operands, right-hand sides and
/// function identifiers.
pub trait StatementFormatter: Formatter<Place> + Formatter<Operand> + Formatter<Rvalue> + Formatter<DefId> {}

impl<T: Formatter<Place> + Formatter<Operand> + Formatter<Rvalue> + Formatter<DefId>> StatementFormatter for T {}

/// `true` or `false`.
pub open spec fn bool_text(b: bool) -> Seq<char> {
    if b {
        "true"@
    } else {
        "false"@
    }
}

/// The region and type arguments of a call, in angle brackets when there
/// are any.
pub open spec fn call_params_text(c: CallModel) -> Seq<char> {
    if c.region_params.len() == 0 {
        Seq::empty()
    } else {
        "<"@ + joined(c.region_params.map_values(|r: ErasedRegion| "'_"@), ", "@) + ">"@
    }
}

/// The text of a callee.
pub open spec fn callee_text<T: StatementFormatter>(ctx: T, c: CallModel) -> Seq<char> {
    let params = call_params_text(c);
    match c.func {
        FunId::Local(id) => <T as Formatter<DefId>>::format_spec(&ctx, id) + params,
        FunId::Assumed(AssumedFunId::BoxNew) => "alloc::boxed::Box"@ + params + "::new"@,
        FunId::Assumed(AssumedFunId::BoxDeref) => "core::ops::deref::Deref<Box"@ + params + ">::deref"@,
        FunId::Assumed(AssumedFunId::BoxDerefMut) => "core::ops::deref::DerefMut<Box"@ + params
            + ">::deref_mut"@,
        FunId::Assumed(AssumedFunId::BoxFree) => "alloc::alloc::box_free<"@ + params + ">"@,
    }
}

/// The text of a statement.
pub open spec fn stmt_text<T: StatementFormatter>(ctx: T, s: Stmt) -> Seq<char> {
    match s {
        Stmt::Assign(p, rv) => <T as Formatter<Place>>::format_spec(&ctx, p) + " := "@
            + <T as Formatter<Rvalue>>::format_spec(&ctx, rv),
        Stmt::FakeRead(p) => "@fake_read("@ + <T as Formatter<Place>>::format_spec(&ctx, p) + ")"@,
        Stmt::SetDiscriminant(p, v) => "@discriminant("@ + <T as Formatter<Place>>::format_spec(&ctx, p)
            + ") := "@ + decimal(v.index as nat),
        Stmt::Drop(p) => "drop "@ + <T as Formatter<Place>>::format_spec(&ctx, p),
        Stmt::Assert(a) => "assert("@ + <T as Formatter<Operand>>::format_spec(&ctx, a.cond) + " == "@
            + bool_text(a.expected) + ")"@,
        Stmt::Call(c) => <T as Formatter<Place>>::format_spec(&ctx, c.dest) + " := "@ + callee_text(ctx, c)
            + "("@ + joined(
            c.args.map_values(|o: Operand| <T as Formatter<Operand>>::format_spec(&ctx, o)),
            ", "@,
        ) + ")"@,
        Stmt::Panic => "panic"@,
        Stmt::Return => "return"@,
        Stmt::Break(i) => "break "@ + decimal(i as nat),
        Stmt::Continue(i) => "continue "@ + decimal(i as nat),
        Stmt::Nop => "nop"@,
    }
}

/// The text of an expression, each line indented by `tab`; nested blocks
/// are indented by `tab` written twice.
pub open spec fn expr_text<T: StatementFormatter>(ctx: T, tab: Seq<char>, e: Expr) -> Seq<char>
    decreases e,
{
    let inner = tab + tab;
    match e {
        Expr::Stmt(s) => tab + stmt_text(ctx, s) + ";"@,
        Expr::Sequence(a, b) => expr_text(ctx, tab, *a) + "\n"@ + expr_text(ctx, tab, *b),
        Expr::Switch(op, Targets::If(a, b)) => tab + "if "@ + <T as Formatter<Operand>>::format_spec(&ctx, op)
            + " {\n"@ + expr_text(ctx, inner, *a) + "\n"@ + tab + "}\n"@ + tab + "else {\n"@ + expr_text(
            ctx,
            inner,
            *b,
        ) + "\n"@ + tab + "}"@,
        Expr::Switch(op, Targets::SwitchInt(_, cases, otherwise)) => tab + "switch "@ + <T as Formatter<
            Operand,
        >>::format_spec(&ctx, op) + " {\n"@ + joined(
            cases_text(ctx, tab, cases).push(
                tab + "_ => {\n"@ + expr_text(ctx, inner, *otherwise) + "\n"@ + tab + "}"@,
            ),
            ",\n"@,
        ) + "\n"@ + tab + "}"@,
        Expr::Loop(b) => tab + "loop {\n"@ + expr_text(ctx, inner, *b) + "\n"@ + tab + "}"@,
    }
}

/// The texts of the value-indexed branches of a switch.
pub open spec fn cases_text<T: StatementFormatter>(ctx: T, tab: Seq<char>, cs: Seq<(u128, Expr)>) -> Seq<Seq<char>>
    decreases cs,
{
    if cs.len() == 0 {
        Seq::empty()
    } else {
        cases_text(ctx, tab, cs.drop_last()).push(
            tab + decimal(cs.last().0 as nat) + " => {\n"@ + expr_text(ctx, tab + tab, cs.last().1) + "\n"@ + tab
                + "}"@,
        )
    }
}

/// `a` followed by `b`.
fn concat(a: &str, b: &str) -> (r: String)
    ensures
        r@ == a@ + b@,
{
    let mut r = String::from_str(a);
    r.append(b);
    r
}

impl Statement {
    /// Writes the statement as text; `ctx` writes places, operands,
    /// right-hand sides and function identifiers.
    pub fn fmt_with_ctx<T: StatementFormatter>(&self, ctx: &T) -> (r: String)
        ensures
            r@ == stmt_text(*ctx, self@),
    {
        match self {
            Statement::Assign(p, rv) => {
                let mut r = <T as Formatter<Place>>::format_object(ctx, *p);
                r.append(" := ");
                r.append(<T as Formatter<Rvalue>>::format_object(ctx, *rv).as_str());
                r
            },
            Statement::FakeRead(p) => {
                let mut r = String::from_str("@fake_read(");
                r.append(<T as Formatter<Place>>::format_object(ctx, *p).as_str());
                r.append(")");
                r
            },
            Statement::SetDiscriminant(p, v) => {
                let mut r = String::from_str("@discriminant(");
                r.append(<T as Formatter<Place>>::format_object(ctx, *p).as_str());
                r.append(") := ");
                r.append(usize_to_decimal(v.index).as_str());
                r
            },
            Statement::Drop(p) => {
                let mut r = String::from_str("drop ");
                r.append(<T as Formatter<Place>>::format_object(ctx, *p).as_str());
                r
            },
            Statement::Assert(a) => {
                let mut r = String::from_str("assert(");
                r.append(<T as Formatter<Operand>>::format_object(ctx, a.cond).as_str());
                r.append(" == ");
                r.append(if a.expected { "true" } else { "false" });
                r.append(")");
                r
            },
            Statement::Call(c) => {
                let mut r = <T as Formatter<Place>>::format_object(ctx, c.dest);
                r.append(" := ");
                r.append(fmt_callee(c, ctx).as_str());
                r.append("(");
                let mut args: Vec<String> = Vec::new();
                let mut i: usize = 0;
                while i < c.args.len()
                    invariant
                        i <= c.args@.len(),
                        args@.len() == i,
                        forall|k: int| 0 <= k < i ==> (#[trigger] args@[k])@ == <T as Formatter<Operand>>::format_spec(ctx, c.args@[k]),
                    decreases c.args@.len() - i,
                {
                    args.push(<T as Formatter<Operand>>::format_object(ctx, c.args[i]));
                    i = i + 1;
                }
                proof {
                    let av = args@.map_values(|p: String| p@);
                    let want = c.args@.map_values(|o: Operand| <T as Formatter<Operand>>::format_spec(ctx, o));
                    assert forall|k: int| 0 <= k < i implies #[trigger] av[k] == want[k] by {}
                    assert(av =~= want);
                }
                r.append(join_strings(&args, ", ").as_str());
                r.append(")");
                r
            },
            Statement::Panic => String::from_str("panic"),
            Statement::Return => String::from_str("return"),
            Statement::Break(i) => concat("break ", usize_to_decimal(*i).as_str()),
            Statement::Continue(i) => concat("continue ", usize_to_decimal(*i).as_str()),
            Statement::Nop => String::from_str("nop"),
        }
    }
}

/// The text of the callee of `c`, with its arguments in angle brackets.
fn fmt_callee<T: StatementFormatter>(c: &Call, ctx: &T) -> (r: String)
    ensures
        r@ == callee_text(*ctx, c@),
{
    let params = if c.region_params.len() == 0 {
        String::new()
    } else {
        let mut parts: Vec<String> = Vec::new();
        let mut i: usize = 0;
        while i < c.region_params.len()
            invariant
                i <= c.region_params@.len(),
                parts@.len() == i,
                forall|k: int| 0 <= k < i ==> (#[trigger] parts@[k])@ == "'_"@,
            decreases c.region_params@.len() - i,
        {
            parts.push(String::from_str("'_"));
            i = i + 1;
        }
        proof {
            let pv = parts@.map_values(|p: String| p@);
            let want = c.region_params@.map_values(|r: ErasedRegion| "'_"@);
            assert forall|k: int| 0 <= k < i implies #[trigger] pv[k] == want[k] by {}
            assert(pv =~= want);
        }
        let mut p = String::from_str("<");
        p.append(join_strings(&parts, ", ").as_str());
        p.append(">");
        p
    };
    match c.func {
        FunId::Local(id) => {
            let mut r = <T as Formatter<DefId>>::format_object(ctx, id);
            r.append(params.as_str());
            r
        },
        FunId::Assumed(AssumedFunId::BoxNew) => {
            let mut r = String::from_str("alloc::boxed::Box");
            r.append(params.as_str());
            r.append("::new");
            r
        },
        FunId::Assumed(AssumedFunId::BoxDeref) => {
            let mut r = String::from_str("core::ops::deref::Deref<Box");
            r.append(params.as_str());
            r.append(">::deref");
            r
        },
        FunId::Assumed(AssumedFunId::BoxDerefMut) => {
            let mut r = String::from_str("core::ops::deref::DerefMut<Box");
            r.append(params.as_str());
            r.append(">::deref_mut");
            r
        },
        FunId::Assumed(AssumedFunId::BoxFree) => {
            let mut r = String::from_str("alloc::alloc::box_free<");
            r.append(params.as_str());
            r.append(">");
            r
        },
    }
}

impl Expression {
    /// Writes the expression as text, each line indented by `tab`.
    pub fn fmt_with_ctx<T: StatementFormatter>(&self, tab: &str, ctx: &T) -> (r: String)
        ensures
            r@ == expr_text(*ctx, tab@, self@),
        decreases self,
    {
        match self {
            Expression::Statement(st) => {
                let mut r = String::from_str(tab);
                r.append(st.fmt_with_ctx(ctx).as_str());
                r.append(";");
                r
            },
            Expression::Sequence(a, b) => {
                let mut r = a.fmt_with_ctx(tab, ctx);
                r.append("\n");
                r.append(b.fmt_with_ctx(tab, ctx).as_str());
                r
            },
            Expression::Switch(op, SwitchTargets::If(a, b)) => {
                let inner = concat(tab, tab);
                let mut r = String::from_str(tab);
                r.append("if ");
                r.append(<T as Formatter<Operand>>::format_object(ctx, *op).as_str());
                r.append(" {\n");
                r.append(a.fmt_with_ctx(inner.as_str(), ctx).as_str());
                r.append("\n");
                r.append(tab);
                r.append("}\n");
                r.append(tab);
                r.append("else {\n");
                r.append(b.fmt_with_ctx(inner.as_str(), ctx).as_str());
                r.append("\n");
                r.append(tab);
                r.append("}");
                r
            },
            Expression::Switch(op, SwitchTargets::SwitchInt(_, cases, otherwise)) => {
                let inner = concat(tab, tab);
                let mut arms = fmt_cases(cases, tab, ctx);
                let mut last = String::from_str(tab);
                last.append("_ => {\n");
                last.append(otherwise.fmt_with_ctx(inner.as_str(), ctx).as_str());
                last.append("\n");
                last.append(tab);
                last.append("}");
                let ghost before = arms@;
                arms.push(last);
                proof {
                    let av = arms@.map_values(|p: String| p@);
                    assert(av =~= before.map_values(|p: String| p@).push(arms@.last()@));
                }
                let mut r = String::from_str(tab);
                r.append("switch ");
                r.append(<T as Formatter<Operand>>::format_object(ctx, *op).as_str());
                r.append(" {\n");
                r.append(join_strings(&arms, ",\n").as_str());
                r.append("\n");
                r.append(tab);
                r.append("}");
                r
            },
            Expression::Loop(b) => {
                let inner = concat(tab, tab);
                let mut r = String::from_str(tab);
                r.append("loop {\n");
                r.append(b.fmt_with_ctx(inner.as_str(), ctx).as_str());
                r.append("\n");
                r.append(tab);
                r.append("}");
                r
            },
        }
    }
}

/// The texts of the value-indexed branches of a switch, in order.
fn fmt_cases<T: StatementFormatter>(cases: &Vec<(u128, Expression)>, tab: &str, ctx: &T) -> (r: Vec<String>)
    ensures
        r@.map_values(|p: String| p@) =~= cases_text(*ctx, tab@, cases_view(cases@)),
    decreases cases,
{
    let inner = concat(tab, tab);
    let mut out: Vec<String> = Vec::new();
    let mut i: usize = 0;
    while i < cases.len()
        invariant
            i <= cases@.len(),
            inner@ == tab@ + tab@,
            out@.map_values(|p: String| p@) =~= cases_text(*ctx, tab@, cases_view(cases@.subrange(0, i as int))),
        decreases cases@.len() - i,
    {
        proof {
            vstd::std_specs::vec::axiom_vec_index_decreases(*cases, i as int);
            assert(decreases_to!(cases@[i as int] => cases@[i as int].1));
            let sub = cases@.subrange(0, i as int + 1);
            assert(sub.drop_last() =~= cases@.subrange(0, i as int));
        }
        let mut t = String::from_str(tab);
        t.append(u128_to_decimal(cases[i].0).as_str());
        t.append(" => {\n");
        t.append(cases[i].1.fmt_with_ctx(inner.as_str(), ctx).as_str());
        t.append("\n");
        t.append(tab);
        t.append("}");
        let ghost before = out@;
        out.push(t);
        proof {
            let sub0 = cases@.subrange(0, i as int);
            let sub1 = cases@.subrange(0, i as int + 1);
            let cv = cases_view(sub1);
            assert(sub1.drop_last() =~= sub0);
            assert(cv == cases_view(sub0).push((cases@[i as int].0, expr_view(cases@[i as int].1))));
            assert(cv.drop_last() =~= cases_view(sub0));
            assert(out@.map_values(|p: String| p@) =~= before.map_values(|p: String| p@).push(out@.last()@));
        }
        i = i + 1;
    }
    proof {
        assert(cases@.subrange(0, i as int) =~= cases@);
    }
    out
}

impl Formatter<Place> for DummyFormatter {
    open spec fn format_spec(&self, x: Place) -> Seq<char> {
        "@"@ + decimal(x.var_id as nat)
    }

    fn format_object(&self, x: Place) -> (r: String) {
        concat("@", usize_to_decimal(x.var_id).as_str())
    }
}

impl Formatter<Operand> for DummyFormatter {
    open spec fn format_spec(&self, x: Operand) -> Seq<char> {
        match x {
            Operand::Copy(p) => "copy @"@ + decimal(p.var_id as nat),
            Operand::Move(p) => "move @"@ + decimal(p.var_id as nat),
            Operand::Const(v) => "const "@ + decimal(v as nat),
        }
    }

    fn format_object(&self, x: Operand) -> (r: String) {
        match x {
            Operand::Copy(p) => concat("copy @", usize_to_decimal(p.var_id).as_str()),
            Operand::Move(p) => concat("move @", usize_to_decimal(p.var_id).as_str()),
            Operand::Const(v) => concat("const ", u128_to_decimal(v).as_str()),
        }
    }
}

impl Formatter<Rvalue> for DummyFormatter {
    open spec fn format_spec(&self, x: Rvalue) -> Seq<char> {
        match x {
            Rvalue::Use(o) => <DummyFormatter as Formatter<Operand>>::format_spec(self, o),
            Rvalue::Ref(p, RefKind::Mut) => "&mut @"@ + decimal(p.var_id as nat),
            Rvalue::Ref(p, RefKind::Shared) => "&@"@ + decimal(p.var_id as nat),
            Rvalue::Discriminant(p) => "@discriminant(@"@ + decimal(p.var_id as nat) + ")"@,
        }
    }

    fn format_object(&self, x: Rvalue) -> (r: String) {
        match x {
            Rvalue::Use(o) => <DummyFormatter as Formatter<Operand>>::format_object(self, o),
            Rvalue::Ref(p, RefKind::Mut) => concat("&mut @", usize_to_decimal(p.var_id).as_str()),
            Rvalue::Ref(p, RefKind::Shared) => concat("&@", usize_to_decimal(p.var_id).as_str()),
            Rvalue::Discriminant(p) => {
                let mut r = concat("@discriminant(@", usize_to_decimal(p.var_id).as_str());
                r.append(")");
                r
            },
        }
    }
}

impl Formatter<DefId> for DummyFormatter {
    open spec fn format_spec(&self, x: DefId) -> Seq<char> {
        "@Fun"@ + decimal(x.index as nat)
    }

    fn format_object(&self, x: DefId) -> (r: String) {
        concat("@Fun", usize_to_decimal(x.index).as_str())
    }
}

} // verus!
