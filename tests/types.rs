use charon::types::{
    integer_ty_to_string, region_var_id_to_pretty_string, type_def_id_to_pretty_string,
    type_var_id_to_pretty_string, AssumedTy, DummyFormatter, ErasedRegion, Formatter, IntegerTy,
    Region, RegionVarId, TypeDefId, TypeId, TypeVar, TypeVarId, TypeVarIdGenerator,
};

#[test]
fn pretty_identifiers() {
    assert_eq!(type_def_id_to_pretty_string(TypeDefId { index: 3 }), "@Adt3");
    assert_eq!(region_var_id_to_pretty_string(RegionVarId { index: 0 }), "@R0");
    assert_eq!(type_var_id_to_pretty_string(TypeVarId { index: 42 }), "@T42");
    assert_eq!(type_var_id_to_pretty_string(TypeVarId { index: 1234567 }), "@T1234567");
}

#[test]
fn integer_type_names_and_signs() {
    let all = [
        (IntegerTy::Isize, "isize", true),
        (IntegerTy::I8, "i8", true),
        (IntegerTy::I16, "i16", true),
        (IntegerTy::I32, "i32", true),
        (IntegerTy::I64, "i64", true),
        (IntegerTy::I128, "i128", true),
        (IntegerTy::Usize, "usize", false),
        (IntegerTy::U8, "u8", false),
        (IntegerTy::U16, "u16", false),
        (IntegerTy::U32, "u32", false),
        (IntegerTy::U64, "u64", false),
        (IntegerTy::U128, "u128", false),
    ];
    for (ty, name, signed) in all {
        assert_eq!(integer_ty_to_string(ty), name);
        assert_eq!(ty.is_signed(), signed);
        assert_eq!(ty.is_unsigned(), !signed);
    }
}

#[test]
fn regions_and_type_ids_format_through_the_context() {
    let ctx = DummyFormatter {};
    assert_eq!(Region::<RegionVarId>::Static.fmt_with_ctx(&ctx), "'static");
    assert_eq!(Region::Var(RegionVarId { index: 5 }).fmt_with_ctx(&ctx), "@R5");
    assert_eq!(TypeId::Tuple.fmt_with_ctx(&ctx), "");
    assert_eq!(TypeId::Adt(TypeDefId { index: 2 }).fmt_with_ctx(&ctx), "@Adt2");
    assert_eq!(TypeId::Assumed(AssumedTy::Box).fmt_with_ctx(&ctx), "std::boxed::Box");
    assert_eq!(ctx.format_object(ErasedRegion::Erased), "'_");
}

#[test]
fn fresh_type_variables_count_up() {
    let mut gen = TypeVarIdGenerator::new();
    let a = TypeVar::fresh("T".to_string(), &mut gen);
    let b = TypeVar::fresh("U".to_string(), &mut gen);
    assert_eq!(a.index, TypeVarId { index: 0 });
    assert_eq!(b.index, TypeVarId { index: 1 });
    assert_eq!(b.name, "U");
    assert_eq!(gen.counter, 2);
    let c = TypeVar::new(TypeVarId { index: 9 }, "V".to_string());
    assert_eq!(c.index.index, 9);
    assert_eq!(c.name, "V");
}
