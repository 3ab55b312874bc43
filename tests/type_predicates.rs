use charon::types::{
    AssumedTy, ErasedRegion, Field, IntegerTy, RTy, Region, RefKind, RegionVar, RegionVarId, Ty,
    TypeDef, TypeDefId, TypeDefKind, TypeDefs, TypeId, TypeVarId, Variant, VariantId, ETy,
};

fn boxed(t: ETy) -> ETy {
    Ty::Adt(TypeId::Assumed(AssumedTy::Box), vec![], vec![t])
}

#[test]
fn unit_and_scalars() {
    let unit: ETy = Ty::mk_unit();
    assert!(unit.is_unit());
    let pair: ETy = Ty::Adt(TypeId::Tuple, vec![], vec![Ty::Bool, Ty::Char]);
    assert!(!pair.is_unit());
    assert!(!Ty::<ErasedRegion>::Bool.is_unit());
    let i: ETy = Ty::Integer(IntegerTy::I16);
    let u: ETy = Ty::Integer(IntegerTy::U64);
    assert!(i.is_scalar() && u.is_scalar());
    assert!(!Ty::<ErasedRegion>::Char.is_scalar());
    assert!(i.is_signed_scalar() && !i.is_unsigned_scalar());
    assert!(u.is_unsigned_scalar() && !u.is_signed_scalar());
    assert!(!Ty::<ErasedRegion>::Str.is_signed_scalar());
}

#[test]
fn leaves_and_boxes() {
    assert!(Ty::<ErasedRegion>::Never.is_leaf());
    assert!(Ty::<ErasedRegion>::TypeVar(TypeVarId { index: 0 }).is_leaf());
    assert!(!Ty::<ErasedRegion>::Slice(Box::new(Ty::Bool)).is_leaf());
    let b = boxed(Ty::Char);
    assert!(b.is_box());
    assert_eq!(b.as_box(), Some(&Ty::Char));
    let s: ETy = Ty::Slice(Box::new(Ty::Char));
    assert!(!s.is_box());
    assert_eq!(s.as_box(), None);
}

#[test]
fn variables_and_regions() {
    let tv: ETy = Ty::TypeVar(TypeVarId { index: 1 });
    assert!(tv.contains_variables());
    assert!(!tv.contains_regions());
    let nested: ETy = Ty::Adt(TypeId::Tuple, vec![], vec![Ty::Bool, Ty::Array(Box::new(Ty::TypeVar(TypeVarId { index: 0 })))]);
    assert!(nested.contains_variables());
    assert!(!nested.contains_regions());
    let plain: ETy = Ty::Adt(TypeId::Adt(TypeDefId { index: 4 }), vec![], vec![Ty::Bool, Ty::Integer(IntegerTy::U8)]);
    assert!(!plain.contains_variables());
    assert!(!plain.contains_regions());
    let r: RTy = Ty::Ref(Region::Static, Box::new(Ty::Bool), RefKind::Shared);
    assert!(r.contains_variables());
    assert!(r.contains_regions());
    let with_region: RTy = Ty::Adt(TypeId::Tuple, vec![Region::Var(RegionVarId { index: 0 })], vec![]);
    assert!(with_region.contains_regions());
    let deep: RTy = Ty::Adt(TypeId::Tuple, vec![], vec![Ty::Slice(Box::new(Ty::Ref(Region::Static, Box::new(Ty::Str), RefKind::Mut)))]);
    assert!(deep.contains_regions());
}

#[test]
fn fields_of_structs_and_variants() {
    let field = |n: &str| Field { name: n.to_string(), ty: Ty::Bool };
    let s = TypeDef {
        def_id: TypeDefId { index: 0 },
        name: vec!["S".to_string()],
        region_params: vec![],
        type_params: vec![],
        kind: TypeDefKind::Struct(vec![field("a"), field("b")]),
    };
    assert_eq!(s.get_fields(None).len(), 2);
    assert_eq!(s.get_fields(None)[1].name, "b");
    let e = TypeDef {
        def_id: TypeDefId { index: 1 },
        name: vec!["E".to_string()],
        region_params: vec![],
        type_params: vec![],
        kind: TypeDefKind::Enum(vec![
            Variant { name: "A".to_string(), fields: vec![] },
            Variant { name: "B".to_string(), fields: vec![field("x")] },
        ]),
    };
    assert_eq!(e.get_fields(Some(VariantId { index: 1 }))[0].name, "x");
    assert!(e.get_fields(Some(VariantId { index: 0 })).is_empty());
    let mut defs = TypeDefs::new();
    assert!(defs.get_type_def(TypeDefId { index: 0 }).is_none());
    defs.types.push(s);
    defs.types.push(e);
    assert_eq!(defs.get_type_def(TypeDefId { index: 1 }).unwrap().name, vec!["E".to_string()]);
    assert!(defs.get_type_def(TypeDefId { index: 2 }).is_none());
}

#[test]
fn region_variable_names() {
    let named = RegionVar { index: RegionVarId { index: 2 }, name: Some("'a".to_string()) };
    let anon = RegionVar { index: RegionVarId { index: 7 }, name: None };
    assert_eq!(named.to_pretty_string(), "'a");
    assert_eq!(anon.to_pretty_string(), "@R7");
}
