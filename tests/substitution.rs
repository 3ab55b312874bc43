use charon::types::{
    make_region_subst,
    make_type_subst, ETy, ErasedRegion, Field, FieldId, IntegerTy, RTy, Region, RegionVarId,
    RefKind, Ty, TypeDef, TypeDefId, TypeDefKind, TypeId, TypeVar, TypeVarId, Variant, VariantId,
};

fn tv(i: usize) -> TypeVarId {
    TypeVarId { index: i }
}

#[test]
fn erasing_regions_keeps_the_shape() {
    let t: RTy = Ty::Adt(
        TypeId::Adt(TypeDefId { index: 1 }),
        vec![Region::Static, Region::Var(RegionVarId { index: 0 })],
        vec![Ty::Ref(Region::Var(RegionVarId { index: 0 }), Box::new(Ty::TypeVar(tv(0))), RefKind::Mut)],
    );
    let expected: ETy = Ty::Adt(
        TypeId::Adt(TypeDefId { index: 1 }),
        vec![ErasedRegion::Erased, ErasedRegion::Erased],
        vec![Ty::Ref(ErasedRegion::Erased, Box::new(Ty::TypeVar(tv(0))), RefKind::Mut)],
    );
    assert_eq!(t.erase_regions(), expected);
}

#[test]
fn substitution_replaces_bound_variables() {
    let params = vec![TypeVar::new(tv(0), "T".to_string()), TypeVar::new(tv(1), "U".to_string())];
    let types: Vec<ETy> = vec![Ty::Bool, Ty::Slice(Box::new(Ty::Char))];
    let subst = make_type_subst(&params, &types);
    assert_eq!(subst.len(), 2);
    assert_eq!(subst[1].0, tv(1));
    let t: ETy = Ty::Adt(TypeId::Tuple, vec![], vec![Ty::TypeVar(tv(1)), Ty::Array(Box::new(Ty::TypeVar(tv(0))))]);
    let expected: ETy = Ty::Adt(TypeId::Tuple, vec![], vec![Ty::Slice(Box::new(Ty::Char)), Ty::Array(Box::new(Ty::Bool))]);
    assert_eq!(t.substitute_types(&subst), expected);
    assert_eq!(Ty::<ErasedRegion>::Str.substitute_types(&subst), Ty::Str);
}

#[test]
fn last_binding_wins() {
    let subst: Vec<(TypeVarId, ETy)> = vec![(tv(0), Ty::Bool), (tv(0), Ty::Char)];
    assert_eq!(Ty::<ErasedRegion>::TypeVar(tv(0)).substitute_types(&subst), Ty::Char);
}

#[test]
fn duplicate_is_equal() {
    let t: RTy = Ty::Ref(Region::Static, Box::new(Ty::Adt(TypeId::Tuple, vec![], vec![Ty::Never])), RefKind::Shared);
    assert_eq!(t.duplicate(), t);
}

#[test]
fn instantiated_field_types() {
    let def = TypeDef {
        def_id: TypeDefId { index: 0 },
        name: vec!["Either".to_string()],
        region_params: vec![],
        type_params: vec![TypeVar::new(tv(0), "L".to_string()), TypeVar::new(tv(1), "R".to_string())],
        kind: TypeDefKind::Enum(vec![
            Variant { name: "Left".to_string(), fields: vec![Field { name: "0".to_string(), ty: Ty::TypeVar(tv(0)) }] },
            Variant {
                name: "Right".to_string(),
                fields: vec![
                    Field { name: "0".to_string(), ty: Ty::Ref(Region::Static, Box::new(Ty::TypeVar(tv(1))), RefKind::Shared) },
                    Field { name: "1".to_string(), ty: Ty::Integer(IntegerTy::U8) },
                ],
            },
        ]),
    };
    let inst: Vec<ETy> = vec![Ty::Bool, Ty::Char];
    let right = def.get_erased_regions_instantiated_field_types(Some(VariantId { index: 1 }), &inst);
    assert_eq!(
        right,
        vec![Ty::Ref(ErasedRegion::Erased, Box::new(Ty::Char), RefKind::Shared), Ty::Integer(IntegerTy::U8)]
    );
    let left = def.get_erased_regions_instantiated_field_type(Some(VariantId { index: 0 }), &inst, FieldId { index: 0 });
    assert_eq!(left, Ty::Bool);
    let t: RTy = Ty::Ref(Region::Static, Box::new(Ty::TypeVar(tv(1))), RefKind::Mut);
    let subst = make_type_subst(&def.type_params, &inst);
    assert_eq!(t.erase_regions_substitute_types(&subst), Ty::Ref(ErasedRegion::Erased, Box::new(Ty::Char), RefKind::Mut));
}

#[test]
fn region_membership() {
    let a = RegionVarId { index: 0 };
    let b = RegionVarId { index: 1 };
    let set = vec![b];
    assert!(!Region::Static.contains_var(&set));
    assert!(!Region::Var(a).contains_var(&set));
    assert!(Region::Var(b).contains_var(&set));
    let t: RTy = Ty::Adt(TypeId::Tuple, vec![], vec![Ty::Ref(Region::Var(b), Box::new(Ty::Bool), RefKind::Shared)]);
    assert!(t.contains_region_var(&set));
    assert!(!t.contains_region_var(&vec![a]));
    let u: RTy = Ty::Adt(TypeId::Adt(TypeDefId { index: 0 }), vec![Region::Static, Region::Var(a)], vec![]);
    assert!(u.contains_region_var(&vec![a]));
    assert!(!u.contains_region_var(&set));
    let nested: RTy = Ty::Ref(Region::Static, Box::new(Ty::Ref(Region::Var(b), Box::new(Ty::Char), RefKind::Mut)), RefKind::Shared);
    assert!(nested.contains_region_var(&set));
    assert!(!Ty::<Region<RegionVarId>>::Str.contains_region_var(&set));
}

#[test]
fn region_substitution() {
    let a = RegionVarId { index: 0 };
    let b = RegionVarId { index: 1 };
    let subst = make_region_subst(&vec![a, b, a], &vec![ErasedRegion::Erased, ErasedRegion::Erased, ErasedRegion::Erased]);
    assert_eq!(subst.len(), 3);
    assert_eq!(subst[1], (b, ErasedRegion::Erased));
    let to_static: Vec<(RegionVarId, Region<RegionVarId>)> = vec![(a, Region::Var(b)), (a, Region::Static)];
    assert_eq!(a.substitute(&to_static), Region::Static);
    assert_eq!(Region::Var(a).substitute(&to_static), Region::Static);
    assert_eq!(Region::<RegionVarId>::Static.substitute(&to_static), Region::<RegionVarId>::Static);
    let rename: Vec<(RegionVarId, Region<RegionVarId>)> = vec![(b, Region::Var(a))];
    assert_eq!(Region::Var(b).substitute(&rename), Region::Var(a));
}
