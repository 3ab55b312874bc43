use charon::cfim_ast::{
    Assert, AssumedFunId, Call, DefId, Expression, FunId, Operand, Place, Rvalue, Statement,
    SwitchTargets,
};
use charon::types::{DummyFormatter, ErasedRegion, IntegerTy, RefKind, VariantId};

fn p(v: usize) -> Place {
    Place { var_id: v }
}

fn st(s: Statement) -> Expression {
    Expression::Statement(s)
}

#[test]
fn statements_print() {
    let ctx = DummyFormatter {};
    let cases = [
        (Statement::Assign(p(1), Rvalue::Use(Operand::Move(p(2)))), "@1 := move @2"),
        (Statement::Assign(p(1), Rvalue::Ref(p(3), RefKind::Mut)), "@1 := &mut @3"),
        (Statement::Assign(p(1), Rvalue::Discriminant(p(4))), "@1 := @discriminant(@4)"),
        (Statement::FakeRead(p(5)), "@fake_read(@5)"),
        (Statement::SetDiscriminant(p(6), VariantId { index: 2 }), "@discriminant(@6) := 2"),
        (Statement::Drop(p(7)), "drop @7"),
        (Statement::Assert(Assert { cond: Operand::Copy(p(8)), expected: false }), "assert(copy @8 == false)"),
        (Statement::Panic, "panic"),
        (Statement::Return, "return"),
        (Statement::Break(1), "break 1"),
        (Statement::Continue(0), "continue 0"),
        (Statement::Nop, "nop"),
    ];
    for (s, text) in cases {
        assert_eq!(s.fmt_with_ctx(&ctx), text);
    }
}

#[test]
fn calls_print() {
    let ctx = DummyFormatter {};
    let local = Statement::Call(Call {
        func: FunId::Local(DefId { index: 3 }),
        region_params: vec![],
        args: vec![Operand::Const(5), Operand::Copy(p(1))],
        dest: p(0),
    });
    assert_eq!(local.fmt_with_ctx(&ctx), "@0 := @Fun3(const 5, copy @1)");
    let boxed = Statement::Call(Call {
        func: FunId::Assumed(AssumedFunId::BoxNew),
        region_params: vec![ErasedRegion::Erased, ErasedRegion::Erased],
        args: vec![],
        dest: p(2),
    });
    assert_eq!(boxed.fmt_with_ctx(&ctx), "@2 := alloc::boxed::Box<'_, '_>::new()");
    let free = Statement::Call(Call {
        func: FunId::Assumed(AssumedFunId::BoxFree),
        region_params: vec![],
        args: vec![Operand::Move(p(4))],
        dest: p(0),
    });
    assert_eq!(free.fmt_with_ctx(&ctx), "@0 := alloc::alloc::box_free<>(move @4)");
}

#[test]
fn expressions_print_with_indentation() {
    let ctx = DummyFormatter {};
    let e = Expression::Sequence(
        Box::new(Expression::Loop(Box::new(Expression::Switch(
            Operand::Copy(p(1)),
            SwitchTargets::If(Box::new(st(Statement::Continue(0))), Box::new(st(Statement::Break(0)))),
        )))),
        Box::new(st(Statement::Return)),
    );
    assert_eq!(
        e.fmt_with_ctx(" ", &ctx),
        " loop {\n  if copy @1 {\n    continue 0;\n  }\n  else {\n    break 0;\n  }\n }\n return;"
    );
    let sw = Expression::Switch(
        Operand::Move(p(2)),
        SwitchTargets::SwitchInt(
            IntegerTy::U8,
            vec![(0, st(Statement::Nop)), (7, st(Statement::Panic))],
            Box::new(st(Statement::Return)),
        ),
    );
    assert_eq!(
        sw.fmt_with_ctx("-", &ctx),
        "-switch move @2 {\n-0 => {\n--nop;\n-},\n-7 => {\n--panic;\n-},\n-_ => {\n--return;\n-}\n-}"
    );
}
