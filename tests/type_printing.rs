use charon::types::{
    join_strings, AssumedTy, DummyFormatter, ErasedRegion, ETy, Field, IntegerTy, RTy, Region,
    RegionVar, RegionVarId, RefKind, Ty, TypeDef, TypeDefId, TypeDefKind, TypeId, TypeVar,
    TypeVarId, Variant,
};

#[test]
fn erased_types_print() {
    let t: ETy = Ty::Adt(
        TypeId::Adt(TypeDefId { index: 3 }),
        vec![ErasedRegion::Erased],
        vec![Ty::Integer(IntegerTy::U32), Ty::TypeVar(TypeVarId { index: 1 })],
    );
    assert_eq!(t.to_string(), "@Adt3<'_, u32, @T1>");
    let tuple: ETy = Ty::Adt(TypeId::Tuple, vec![], vec![Ty::Bool, Ty::Char]);
    assert_eq!(tuple.to_string(), "(bool, char)");
    let unit: ETy = Ty::mk_unit();
    assert_eq!(unit.to_string(), "()");
    let plain: ETy = Ty::Adt(TypeId::Adt(TypeDefId { index: 0 }), vec![], vec![]);
    assert_eq!(plain.to_string(), "@Adt0");
    let boxed: ETy = Ty::Adt(TypeId::Assumed(AssumedTy::Box), vec![], vec![Ty::Str]);
    assert_eq!(boxed.to_string(), "std::boxed::Box<str>");
    let arr: ETy = Ty::Array(Box::new(Ty::Never));
    assert_eq!(arr.to_string(), "[!; ?]");
    let sl: ETy = Ty::Slice(Box::new(Ty::Integer(IntegerTy::I8)));
    assert_eq!(sl.to_string(), "[i8]");
    let r: ETy = Ty::Ref(ErasedRegion::Erased, Box::new(Ty::Bool), RefKind::Mut);
    assert_eq!(r.to_string(), "&'_ mut (bool)");
    let s: ETy = Ty::Ref(ErasedRegion::Erased, Box::new(Ty::Char), RefKind::Shared);
    assert_eq!(s.to_string(), "&'_ (char)");
}

#[test]
fn types_with_regions_print() {
    let t: RTy = Ty::Ref(Region::Var(RegionVarId { index: 2 }), Box::new(Ty::Str), RefKind::Shared);
    assert_eq!(t.fmt_with_ctx(&DummyFormatter {}), "&@R2 (str)");
    let s: RTy = Ty::Ref(Region::Static, Box::new(Ty::Str), RefKind::Mut);
    assert_eq!(s.fmt_with_ctx(&DummyFormatter {}), "&'static mut (str)");
}

#[test]
fn joining_strings() {
    assert_eq!(join_strings(&vec![], ", "), "");
    assert_eq!(join_strings(&vec!["a".to_string()], ", "), "a");
    assert_eq!(join_strings(&vec!["a".to_string(), "b".to_string(), "c".to_string()], "::"), "a::b::c");
}

fn field(name: &str, ty: RTy) -> Field {
    Field { name: name.to_string(), ty }
}

#[test]
fn fields_variants_and_definitions_print() {
    let ctx = DummyFormatter {};
    let f = field("x", Ty::Integer(IntegerTy::I64));
    assert_eq!(f.fmt_with_ctx(&ctx), "x: i64");
    let v = Variant { name: "Some".to_string(), fields: vec![field("0", Ty::TypeVar(TypeVarId { index: 0 }))] };
    assert_eq!(v.fmt_with_ctx(&ctx), "Some(0: @T0)");
    let s = TypeDef {
        def_id: TypeDefId { index: 0 },
        name: vec!["m".to_string(), "Pair".to_string()],
        region_params: vec![RegionVar { index: RegionVarId { index: 0 }, name: Some("'a".to_string()) }],
        type_params: vec![TypeVar::new(TypeVarId { index: 0 }, "T".to_string())],
        kind: TypeDefKind::Struct(vec![
            field("a", Ty::TypeVar(TypeVarId { index: 0 })),
            field("b", Ty::Ref(Region::Var(RegionVarId { index: 0 }), Box::new(Ty::Bool), RefKind::Shared)),
        ]),
    };
    assert_eq!(s.fmt_with_ctx(&ctx), "struct m::Pair<'a, T> = {\n  a: @T0,\n  b: &@R0 (bool)\n}");
    let empty = TypeDef {
        def_id: TypeDefId { index: 1 },
        name: vec!["Unit".to_string()],
        region_params: vec![],
        type_params: vec![],
        kind: TypeDefKind::Struct(vec![]),
    };
    assert_eq!(empty.fmt_with_ctx(&ctx), "struct Unit = {}");
    let e = TypeDef {
        def_id: TypeDefId { index: 2 },
        name: vec!["Option".to_string()],
        region_params: vec![RegionVar { index: RegionVarId { index: 3 }, name: None }],
        type_params: vec![],
        kind: TypeDefKind::Enum(vec![
            Variant { name: "None".to_string(), fields: vec![] },
            Variant { name: "Some".to_string(), fields: vec![field("0", Ty::Bool), field("1", Ty::Char)] },
        ]),
    };
    assert_eq!(e.fmt_with_ctx(&ctx), "enum Option<@R3> =\n|  None()\n|  Some(0: bool, 1: char)");
}
