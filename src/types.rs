//! Identifiers, integer types, regions and type variables, with their
//! textual forms.
use vstd::prelude::*;
use vstd::string::StringExecFns;

verus! {

/// Identifier of a type variable.
#[derive(Debug, Clone, Copy, PartialEq, Eq, Structural)]
pub struct TypeVarId {
    pub index: usize,
}

/// Identifier of a type definition.
#[derive(Debug, Clone, Copy, PartialEq, Eq, Structural)]
pub struct TypeDefId {
    pub index: usize,
}

/// Identifier of an enumeration variant.
#[derive(Debug, Clone, Copy, PartialEq, Eq, Structural)]
pub struct VariantId {
    pub index: usize,
}

/// Identifier of a field.
#[derive(Debug, Clone, Copy, PartialEq, Eq, Structural)]
pub struct FieldId {
    pub index: usize,
}

/// Identifier of a region variable.
#[derive(Debug, Clone, Copy, PartialEq, Eq, Structural)]
pub struct RegionVarId {
    pub index: usize,
}

/// Hands out fresh type-variable identifiers, in increasing order.
#[derive(Debug)]
pub struct TypeVarIdGenerator {
    pub counter: usize,
}

impl TypeVarIdGenerator {
    pub fn new() -> (r: TypeVarIdGenerator)
        ensures
            r.counter == 0,
    {
        TypeVarIdGenerator { counter: 0 }
    }

    /// Returns the next identifier and advances the counter.
    pub fn fresh_id(&mut self) -> (r: TypeVarId)
        requires
            old(self).counter < usize::MAX,
        ensures
            r.index == old(self).counter,
            final(self).counter == old(self).counter + 1,
    {
        let id = TypeVarId { index: self.counter };
        self.counter = self.counter + 1;
        id
    }
}

/// Type variable.
#[derive(Debug, Clone)]
pub struct TypeVar {
    /// Unique index identifying the variable
    pub index: TypeVarId,
    /// Variable name
    pub name: String,
}

/// Region variable.
#[derive(Debug, Clone)]
pub struct RegionVar {
    /// Unique index identifying the variable
    pub index: RegionVarId,
    /// Region name
    pub name: Option<String>,
}

/// A region: the static region or a region variable.
#[derive(Debug, Clone, Copy, PartialEq, Eq, Structural)]
pub enum Region<Rid: Copy + Eq> {
    /// Static region
    Static,
    /// Non-static region.
    Var(Rid),
}

/// The type of erased regions.
#[derive(Debug, Clone, Copy, PartialEq, Eq, Structural)]
pub enum ErasedRegion {
    Erased,
}

#[derive(Debug, Clone, Copy, PartialEq, Eq, Structural)]
pub enum IntegerTy {
    Isize,
    I8,
    I16,
    I32,
    I64,
    I128,
    Usize,
    U8,
    U16,
    U32,
    U64,
    U128,
}

#[derive(Debug, Clone, Copy, PartialEq, Eq, Structural)]
pub enum RefKind {
    Mut,
    Shared,
}

/// Assumed types: non-primitive types of the standard library that are
/// handled like primitive ones.
#[derive(Debug, Clone, Copy, PartialEq, Eq, Structural)]
pub enum AssumedTy {
    Box,
}

/// Type identifier: user-defined ADTs, tuples and assumed types.
#[derive(Debug, Clone, Copy, PartialEq, Eq, Structural)]
pub enum TypeId {
    Adt(TypeDefId),
    Tuple,
    Assumed(AssumedTy),
}

/// Turns identifiers of kind `T` into text.
pub trait Formatter<T> {
    /// The text that `format_object` gives for `x`.
    spec fn format_spec(&self, x: T) -> Seq<char>;

    fn format_object(&self, x: T) -> (r: String)
        ensures
            r@ == self.format_spec(x),
    ;
}

/// The character of a decimal digit.
pub open spec fn digit_char(d: nat) -> char {
    seq!['0', '1', '2', '3', '4', '5', '6', '7', '8', '9'][d as int]
}

/// The decimal notation of `n`, without leading zeros.
pub open spec fn decimal(n: nat) -> Seq<char>
    decreases n,
{
    if n < 10 {
        seq![digit_char(n)]
    } else {
        decimal(n / 10) + seq![digit_char(n % 10)]
    }
}

/// Relies on `usize::to_string` (through `Display`): the decimal notation.
#[verifier::external_body]
pub(crate) fn usize_to_decimal(n: usize) -> (r: String)
    ensures
        r@ == decimal(n as nat),
{
    n.to_string()
}

/// Relies on `u128::to_string` (through `Display`): the decimal notation.
#[verifier::external_body]
pub(crate) fn u128_to_decimal(n: u128) -> (r: String)
    ensures
        r@ == decimal(n as nat),
{
    n.to_string()
}

/// `prefix` followed by the decimal notation of `n`.
fn prefixed_decimal(prefix: &str, n: usize) -> (r: String)
    ensures
        r@ == prefix@ + decimal(n as nat),
{
    let mut s = String::from_str(prefix);
    let d = usize_to_decimal(n);
    s.append(d.as_str());
    s
}

pub fn type_def_id_to_pretty_string(id: TypeDefId) -> (r: String)
    ensures
        r@ == "@Adt"@ + decimal(id.index as nat),
{
    prefixed_decimal("@Adt", id.index)
}

pub fn region_var_id_to_pretty_string(id: RegionVarId) -> (r: String)
    ensures
        r@ == "@R"@ + decimal(id.index as nat),
{
    prefixed_decimal("@R", id.index)
}

pub fn type_var_id_to_pretty_string(id: TypeVarId) -> (r: String)
    ensures
        r@ == "@T"@ + decimal(id.index as nat),
{
    prefixed_decimal("@T", id.index)
}

impl TypeVar {
    pub fn new(index: TypeVarId, name: String) -> (r: TypeVar)
        ensures
            r.index == index,
            r.name == name,
    {
        TypeVar { index: index, name: name }
    }

    /// A type variable with a fresh index drawn from `gen`.
    pub fn fresh(name: String, gen: &mut TypeVarIdGenerator) -> (r: TypeVar)
        requires
            old(gen).counter < usize::MAX,
        ensures
            r.index.index == old(gen).counter,
            final(gen).counter == old(gen).counter + 1,
            r.name == name,
    {
        TypeVar { index: gen.fresh_id(), name: name }
    }
}

impl<Rid: Copy + Eq> Region<Rid> {
    pub fn fmt_with_ctx<T: Formatter<Rid>>(&self, ctx: &T) -> (r: String)
        ensures
            r@ == (match *self {
                Region::Static => "'static"@,
                Region::Var(id) => ctx.format_spec(id),
            }),
    {
        match self {
            Region::Static => String::from_str("'static"),
            Region::Var(id) => ctx.format_object(*id),
        }
    }
}

/// Whether an integer type is signed.
pub open spec fn signed_spec(ty: IntegerTy) -> bool {
    ||| ty is Isize
    ||| ty is I8
    ||| ty is I16
    ||| ty is I32
    ||| ty is I64
    ||| ty is I128
}

impl IntegerTy {
    pub fn is_signed(&self) -> (r: bool)
        ensures
            r == signed_spec(*self),
    {
        match self {
            IntegerTy::Isize | IntegerTy::I8 | IntegerTy::I16 | IntegerTy::I32 | IntegerTy::I64
            | IntegerTy::I128 => true,
            _ => false,
        }
    }

    pub fn is_unsigned(&self) -> (r: bool)
        ensures
            r == !signed_spec(*self),
    {
        !(self.is_signed())
    }
}

/// The Rust name of an integer type.
pub open spec fn integer_ty_name(ty: IntegerTy) -> Seq<char> {
    match ty {
        IntegerTy::Isize => "isize"@,
        IntegerTy::I8 => "i8"@,
        IntegerTy::I16 => "i16"@,
        IntegerTy::I32 => "i32"@,
        IntegerTy::I64 => "i64"@,
        IntegerTy::I128 => "i128"@,
        IntegerTy::Usize => "usize"@,
        IntegerTy::U8 => "u8"@,
        IntegerTy::U16 => "u16"@,
        IntegerTy::U32 => "u32"@,
        IntegerTy::U64 => "u64"@,
        IntegerTy::U128 => "u128"@,
    }
}

pub fn integer_ty_to_string(ty: IntegerTy) -> (r: String)
    ensures
        r@ == integer_ty_name(ty),
{
    match ty {
        IntegerTy::Isize => String::from_str("isize"),
        IntegerTy::I8 => String::from_str("i8"),
        IntegerTy::I16 => String::from_str("i16"),
        IntegerTy::I32 => String::from_str("i32"),
        IntegerTy::I64 => String::from_str("i64"),
        IntegerTy::I128 => String::from_str("i128"),
        IntegerTy::Usize => String::from_str("usize"),
        IntegerTy::U8 => String::from_str("u8"),
        IntegerTy::U16 => String::from_str("u16"),
        IntegerTy::U32 => String::from_str("u32"),
        IntegerTy::U64 => String::from_str("u64"),
        IntegerTy::U128 => String::from_str("u128"),
    }
}

impl TypeId {
    pub fn fmt_with_ctx<T: Formatter<TypeDefId>>(&self, ctx: &T) -> (r: String)
        ensures
            r@ == (match *self {
                TypeId::Tuple => Seq::<char>::empty(),
                TypeId::Adt(id) => ctx.format_spec(id),
                TypeId::Assumed(AssumedTy::Box) => "std::boxed::Box"@,
            }),
    {
        match self {
            TypeId::Tuple => String::new(),
            TypeId::Adt(def_id) => ctx.format_object(*def_id),
            TypeId::Assumed(AssumedTy::Box) => String::from_str("std::boxed::Box"),
        }
    }
}

/// A formatter that prints identifiers by their indices.
pub struct DummyFormatter {}

impl Formatter<TypeVarId> for DummyFormatter {
    open spec fn format_spec(&self, x: TypeVarId) -> Seq<char> {
        "@T"@ + decimal(x.index as nat)
    }

    fn format_object(&self, x: TypeVarId) -> (r: String) {
        type_var_id_to_pretty_string(x)
    }
}

impl Formatter<RegionVarId> for DummyFormatter {
    open spec fn format_spec(&self, x: RegionVarId) -> Seq<char> {
        "@R"@ + decimal(x.index as nat)
    }

    fn format_object(&self, x: RegionVarId) -> (r: String) {
        region_var_id_to_pretty_string(x)
    }
}

impl Formatter<TypeDefId> for DummyFormatter {
    open spec fn format_spec(&self, x: TypeDefId) -> Seq<char> {
        "@Adt"@ + decimal(x.index as nat)
    }

    fn format_object(&self, x: TypeDefId) -> (r: String) {
        type_def_id_to_pretty_string(x)
    }
}

impl Formatter<ErasedRegion> for DummyFormatter {
    open spec fn format_spec(&self, x: ErasedRegion) -> Seq<char> {
        "'_"@
    }

    fn format_object(&self, x: ErasedRegion) -> (r: String) {
        String::from_str("'_")
    }
}

impl RegionVar {
    /// The region's name, or its pretty identifier when it has none.
    pub fn to_pretty_string(&self) -> (r: String)
        ensures
            r@ == (match self.name {
                Some(n) => n@,
                None => "@R"@ + decimal(self.index.index as nat),
            }),
    {
        match &self.name {
            Some(name) => name.clone(),
            None => region_var_id_to_pretty_string(self.index),
        }
    }
}

/// A type, parameterized by the representation of regions.
#[derive(Debug, PartialEq, Eq)]
pub enum Ty<R> {
    /// An ADT: a user-defined type, a tuple or an assumed type, with its
    /// region and type arguments.
    Adt(TypeId, Vec<R>, Vec<Ty<R>>),
    TypeVar(TypeVarId),
    Bool,
    Char,
    /// The never type, for computations which don't return.
    Never,
    Integer(IntegerTy),
    Str,
    Array(Box<Ty<R>>),
    Slice(Box<Ty<R>>),
    /// A borrow
    Ref(R, Box<Ty<R>>, RefKind),
}

/// Type with regions, as in signatures and type definitions.
pub type RTy = Ty<Region<RegionVarId>>;

/// Type with erased regions, as in function bodies.
pub type ETy = Ty<ErasedRegion>;

/// The type mentions a type variable or a region.
pub open spec fn ty_has_variables<R>(t: Ty<R>) -> bool
    decreases t,
{
    match t {
        Ty::TypeVar(_) => true,
        Ty::Ref(_, _, _) => true,
        Ty::Array(b) => ty_has_variables(*b),
        Ty::Slice(b) => ty_has_variables(*b),
        Ty::Adt(_, regions, tys) => regions@.len() > 0 || tys_have_variables(tys@),
        _ => false,
    }
}

/// Some type of the sequence mentions a type variable or a region.
pub open spec fn tys_have_variables<R>(s: Seq<Ty<R>>) -> bool
    decreases s,
{
    s.len() > 0 && (tys_have_variables(s.drop_last()) || ty_has_variables(s.last()))
}

/// The type mentions a region.
pub open spec fn ty_has_regions<R>(t: Ty<R>) -> bool
    decreases t,
{
    match t {
        Ty::Ref(_, _, _) => true,
        Ty::Array(b) => ty_has_regions(*b),
        Ty::Slice(b) => ty_has_regions(*b),
        Ty::Adt(_, regions, tys) => regions@.len() > 0 || tys_have_regions(tys@),
        _ => false,
    }
}

/// Some type of the sequence mentions a region.
pub open spec fn tys_have_regions<R>(s: Seq<Ty<R>>) -> bool
    decreases s,
{
    s.len() > 0 && (tys_have_regions(s.drop_last()) || ty_has_regions(s.last()))
}

proof fn lemma_member_has_variables<R>(s: Seq<Ty<R>>, i: int)
    requires
        0 <= i < s.len(),
        ty_has_variables(s[i]),
    ensures
        tys_have_variables(s),
    decreases s.len(),
{
    if i < s.len() - 1 {
        lemma_member_has_variables(s.drop_last(), i);
    }
}

proof fn lemma_member_has_regions<R>(s: Seq<Ty<R>>, i: int)
    requires
        0 <= i < s.len(),
        ty_has_regions(s[i]),
    ensures
        tys_have_regions(s),
    decreases s.len(),
{
    if i < s.len() - 1 {
        lemma_member_has_regions(s.drop_last(), i);
    }
}

/// A box type has no region argument and one type argument.
pub open spec fn boxes_well_formed<R>(t: Ty<R>) -> bool {
    t matches Ty::Adt(TypeId::Assumed(AssumedTy::Box), regions, tys) ==> regions@.len() == 0 && tys@.len() == 1
}

impl<R> Ty<R> {
    /// Whether this is the unit type, the tuple of no component.
    pub fn is_unit(&self) -> (r: bool)
        requires
            self matches Ty::Adt(TypeId::Tuple, regions, _) ==> regions@.len() == 0,
        ensures
            r == (self matches Ty::Adt(TypeId::Tuple, _, tys) && tys@.len() == 0),
    {
        match self {
            Ty::Adt(TypeId::Tuple, _, tys) => tys.len() == 0,
            _ => false,
        }
    }

    /// The unit type.
    pub fn mk_unit() -> (r: Ty<R>)
        ensures
            r matches Ty::Adt(TypeId::Tuple, regions, tys) && regions@.len() == 0 && tys@.len() == 0,
    {
        Ty::Adt(TypeId::Tuple, Vec::new(), Vec::new())
    }

    /// Whether this is a scalar type: an integer.
    pub fn is_scalar(&self) -> (r: bool)
        ensures
            r == self is Integer,
    {
        match self {
            Ty::Integer(_) => true,
            _ => false,
        }
    }

    pub fn is_unsigned_scalar(&self) -> (r: bool)
        ensures
            r == (*self matches Ty::Integer(k) && !signed_spec(k)),
    {
        match self {
            Ty::Integer(kind) => kind.is_unsigned(),
            _ => false,
        }
    }

    pub fn is_signed_scalar(&self) -> (r: bool)
        ensures
            r == (*self matches Ty::Integer(k) && signed_spec(k)),
    {
        match self {
            Ty::Integer(kind) => kind.is_signed(),
            _ => false,
        }
    }

    /// Whether the type has no type inside it.
    pub fn is_leaf(&self) -> (r: bool)
        ensures
            r == !(self is Adt || self is Array || self is Slice || self is Ref),
    {
        match self {
            Ty::Adt(_, _, _) | Ty::Array(_) | Ty::Slice(_) | Ty::Ref(_, _, _) => false,
            Ty::TypeVar(_) | Ty::Bool | Ty::Char | Ty::Never | Ty::Integer(_) | Ty::Str => true,
        }
    }

    /// Whether the type is a box.
    pub fn is_box(&self) -> (r: bool)
        requires
            boxes_well_formed(*self),
        ensures
            r == (self matches Ty::Adt(TypeId::Assumed(AssumedTy::Box), _, _)),
    {
        match self {
            Ty::Adt(TypeId::Assumed(AssumedTy::Box), _, _) => true,
            _ => false,
        }
    }

    /// The boxed type, for a box.
    pub fn as_box(&self) -> (r: Option<&Ty<R>>)
        requires
            boxes_well_formed(*self),
        ensures
            match *self {
                Ty::Adt(TypeId::Assumed(AssumedTy::Box), _, tys) => r == Some(&tys@[0]),
                _ => r is None,
            },
    {
        match self {
            Ty::Adt(TypeId::Assumed(AssumedTy::Box), _, tys) => Some(&tys[0]),
            _ => None,
        }
    }

    /// Whether the type mentions a type variable or a region.
    pub fn contains_variables(&self) -> (r: bool)
        ensures
            r == ty_has_variables(*self),
        decreases self,
    {
        match self {
            Ty::TypeVar(_) => true,
            Ty::Bool | Ty::Char | Ty::Never | Ty::Integer(_) | Ty::Str => false,
            Ty::Array(ty) | Ty::Slice(ty) => ty.contains_variables(),
            Ty::Ref(_, _, _) => true,
            Ty::Adt(_, regions, tys) => regions.len() > 0 || Self::any_contains_variables(tys),
        }
    }

    /// Whether some type of `tys` mentions a type variable or a region.
    fn any_contains_variables(tys: &Vec<Ty<R>>) -> (r: bool)
        ensures
            r == tys_have_variables(tys@),
        decreases tys,
    {
        let mut i: usize = 0;
        while i < tys.len()
            invariant
                i <= tys@.len(),
                !tys_have_variables(tys@.subrange(0, i as int)),
            decreases tys@.len() - i,
        {
            proof {
                vstd::std_specs::vec::axiom_vec_index_decreases(*tys, i as int);
                assert(tys@.subrange(0, i as int + 1).drop_last() =~= tys@.subrange(0, i as int));
            }
            if tys[i].contains_variables() {
                proof {
                    lemma_member_has_variables(tys@, i as int);
                }
                return true;
            }
            i = i + 1;
        }
        proof {
            assert(tys@.subrange(0, i as int) =~= tys@);
        }
        false
    }

    /// Whether the type mentions a region.
    pub fn contains_regions(&self) -> (r: bool)
        ensures
            r == ty_has_regions(*self),
        decreases self,
    {
        match self {
            Ty::TypeVar(_) => false,
            Ty::Bool | Ty::Char | Ty::Never | Ty::Integer(_) | Ty::Str => false,
            Ty::Array(ty) | Ty::Slice(ty) => ty.contains_regions(),
            Ty::Ref(_, _, _) => true,
            Ty::Adt(_, regions, tys) => regions.len() > 0 || Self::any_contains_regions(tys),
        }
    }

    /// Whether some type of `tys` mentions a region.
    fn any_contains_regions(tys: &Vec<Ty<R>>) -> (r: bool)
        ensures
            r == tys_have_regions(tys@),
        decreases tys,
    {
        let mut i: usize = 0;
        while i < tys.len()
            invariant
                i <= tys@.len(),
                !tys_have_regions(tys@.subrange(0, i as int)),
            decreases tys@.len() - i,
        {
            proof {
                vstd::std_specs::vec::axiom_vec_index_decreases(*tys, i as int);
                assert(tys@.subrange(0, i as int + 1).drop_last() =~= tys@.subrange(0, i as int));
            }
            if tys[i].contains_regions() {
                proof {
                    lemma_member_has_regions(tys@, i as int);
                }
                return true;
            }
            i = i + 1;
        }
        proof {
            assert(tys@.subrange(0, i as int) =~= tys@);
        }
        false
    }
}

#[derive(Debug)]
pub struct Field {
    pub name: String,
    pub ty: RTy,
}

#[derive(Debug)]
pub struct Variant {
    pub name: String,
    pub fields: Vec<Field>,
}

#[derive(Debug)]
pub enum TypeDefKind {
    Struct(Vec<Field>),
    Enum(Vec<Variant>),
}

/// A type definition: a structure or an enumeration.
#[derive(Debug)]
pub struct TypeDef {
    pub def_id: TypeDefId,
    /// The path of the type, one segment per element.
    pub name: Vec<String>,
    pub region_params: Vec<RegionVar>,
    pub type_params: Vec<TypeVar>,
    pub kind: TypeDefKind,
}

/// A variant is named exactly for an enumeration, and names one of its
/// variants.
pub open spec fn variant_fits(def: TypeDef, variant_id: Option<VariantId>) -> bool {
    match def.kind {
        TypeDefKind::Enum(variants) => variant_id matches Some(v) && v.index < variants@.len(),
        TypeDefKind::Struct(_) => variant_id is None,
    }
}

impl TypeDef {
    /// The fields of the structure, or of the given variant of the
    /// enumeration.
    pub fn get_fields(&self, variant_id: Option<VariantId>) -> (r: &Vec<Field>)
        requires
            variant_fits(*self, variant_id),
        ensures
            match self.kind {
                TypeDefKind::Enum(variants) => *r == variants@[variant_id->Some_0.index as int].fields,
                TypeDefKind::Struct(fields) => *r == fields,
            },
    {
        match &self.kind {
            TypeDefKind::Enum(variants) => {
                let v = variant_id.unwrap();
                &variants[v.index].fields
            },
            TypeDefKind::Struct(fields) => fields,
        }
    }
}

/// The type definitions of a crate, indexed by their identifiers.
pub struct TypeDefs {
    pub types: Vec<TypeDef>,
}

impl TypeDefs {
    pub fn new() -> (r: TypeDefs)
        ensures
            r.types@.len() == 0,
    {
        TypeDefs { types: Vec::new() }
    }

    pub fn get_type_def(&self, type_id: TypeDefId) -> (r: Option<&TypeDef>)
        ensures
            type_id.index < self.types@.len() ==> r == Some(&self.types@[type_id.index as int]),
            type_id.index >= self.types@.len() ==> r is None,
    {
        if type_id.index < self.types.len() {
            Some(&self.types[type_id.index])
        } else {
            None
        }
    }
}

/// `parts` separated by `sep`.
pub open spec fn joined(parts: Seq<Seq<char>>, sep: Seq<char>) -> Seq<char>
    decreases parts.len(),
{
    if parts.len() == 0 {
        Seq::empty()
    } else if parts.len() == 1 {
        parts[0]
    } else {
        joined(parts.drop_last(), sep) + sep + parts.last()
    }
}

/// Joins `parts` with `sep` between consecutive ones.
pub fn join_strings(parts: &Vec<String>, sep: &str) -> (r: String)
    ensures
        r@ == joined(parts@.map_values(|p: String| p@), sep@),
{
    let ghost views = parts@.map_values(|p: String| p@);
    let mut r = String::new();
    let mut i: usize = 0;
    while i < parts.len()
        invariant
            i <= parts@.len(),
            views == parts@.map_values(|p: String| p@),
            r@ == joined(views.subrange(0, i as int), sep@),
        decreases parts@.len() - i,
    {
        proof {
            assert(views.subrange(0, i as int + 1).drop_last() =~= views.subrange(0, i as int));
        }
        if i > 0 {
            r.append(sep);
        }
        r.append(parts[i].as_str());
        proof {
            if i == 0 {
                assert(r@ =~= views.subrange(0, 1)[0]);
            }
        }
        i = i + 1;
    }
    proof {
        assert(views.subrange(0, i as int) =~= views);
    }
    r
}

/// The text of a type, identifiers and regions written by `ctx`.
pub open spec fn ty_text<R, T: Formatter<TypeVarId> + Formatter<TypeDefId> + Formatter<R>>(
    ctx: T,
    t: Ty<R>,
) -> Seq<char>
    decreases t,
{
    match t {
        Ty::Adt(id, regions, tys) => {
            let params = regions@.map_values(|r: R| <T as Formatter<R>>::format_spec(&ctx, r))
                + tys_text(ctx, tys@);
            let all = joined(params, ", "@);
            if id is Tuple {
                "("@ + all + ")"@
            } else if params.len() > 0 {
                type_id_text(ctx, id) + "<"@ + all + ">"@
            } else {
                type_id_text(ctx, id)
            }
        },
        Ty::TypeVar(id) => <T as Formatter<TypeVarId>>::format_spec(&ctx, id),
        Ty::Bool => "bool"@,
        Ty::Char => "char"@,
        Ty::Never => "!"@,
        Ty::Integer(k) => integer_ty_name(k),
        Ty::Str => "str"@,
        Ty::Array(b) => "["@ + ty_text(ctx, *b) + "; ?]"@,
        Ty::Slice(b) => "["@ + ty_text(ctx, *b) + "]"@,
        Ty::Ref(r, b, RefKind::Mut) => "&"@ + <T as Formatter<R>>::format_spec(&ctx, r) + " mut ("@
            + ty_text(ctx, *b) + ")"@,
        Ty::Ref(r, b, RefKind::Shared) => "&"@ + <T as Formatter<R>>::format_spec(&ctx, r) + " ("@
            + ty_text(ctx, *b) + ")"@,
    }
}

/// The texts of a sequence of types.
pub open spec fn tys_text<R, T: Formatter<TypeVarId> + Formatter<TypeDefId> + Formatter<R>>(
    ctx: T,
    s: Seq<Ty<R>>,
) -> Seq<Seq<char>>
    decreases s,
{
    if s.len() == 0 {
        Seq::empty()
    } else {
        tys_text(ctx, s.drop_last()).push(ty_text(ctx, s.last()))
    }
}

/// The text of a type identifier.
pub open spec fn type_id_text<T: Formatter<TypeDefId>>(ctx: T, id: TypeId) -> Seq<char> {
    match id {
        TypeId::Tuple => Seq::empty(),
        TypeId::Adt(d) => ctx.format_spec(d),
        TypeId::Assumed(AssumedTy::Box) => "std::boxed::Box"@,
    }
}

impl<R: Copy> Ty<R> {
    /// Writes the type as text; `ctx` names identifiers and regions.
    pub fn fmt_with_ctx<T: Formatter<TypeVarId> + Formatter<TypeDefId> + Formatter<R>>(&self, ctx: &T) -> (r: String)
        ensures
            r@ == ty_text(*ctx, *self),
        decreases self,
    {
        match self {
            Ty::Adt(id, regions, tys) => {
                let ident = id.fmt_with_ctx(ctx);
                let mut params: Vec<String> = Vec::new();
                let mut i: usize = 0;
                while i < regions.len()
                    invariant
                        i <= regions@.len(),
                        params@.len() == i,
                        forall|k: int| 0 <= k < i ==> (#[trigger] params@[k])@ == <T as Formatter<R>>::format_spec(ctx, regions@[k]),
                    decreases regions@.len() - i,
                {
                    let text = <T as Formatter<R>>::format_object(ctx, regions[i]);
                    params.push(text);
                    i = i + 1;
                }
                let tys_part = Self::fmt_all(tys, ctx);
                let n = regions.len();
                let mut j: usize = 0;
                while j < tys_part.len()
                    invariant
                        n == regions@.len(),
                        j <= tys_part@.len(),
                        params@.len() == n + j,
                        forall|k: int| 0 <= k < n ==> (#[trigger] params@[k])@ == <T as Formatter<R>>::format_spec(ctx, regions@[k]),
                        forall|k: int| 0 <= k < j ==> (#[trigger] params@[n + k])@ == tys_part@[k]@,
                    decreases tys_part@.len() - j,
                {
                    params.push(tys_part[j].clone());
                    j = j + 1;
                }
                proof {
                    let want = regions@.map_values(|r: R| <T as Formatter<R>>::format_spec(ctx, r)) + tys_text(*ctx, tys@);
                    let tv = tys_part@.map_values(|p: String| p@);
                    let pv = params@.map_values(|p: String| p@);
                    assert(tv.len() == tys_part@.len());
                    assert forall|k: int| 0 <= k < params@.len() implies #[trigger] pv[k] == want[k] by {
                        if k >= n {
                            assert(params@[n + (k - n)] == params@[k]);
                            assert(tv[k - n] == tys_part@[k - n]@);
                        }
                    }
                    assert(pv =~= want);
                }
                let all = join_strings(&params, ", ");
                match id {
                    TypeId::Tuple => {
                        let mut r = String::from_str("(");
                        r.append(all.as_str());
                        r.append(")");
                        r
                    },
                    _ => {
                        if params.len() > 0 {
                            let mut r = ident;
                            r.append("<");
                            r.append(all.as_str());
                            r.append(">");
                            r
                        } else {
                            ident
                        }
                    },
                }
            },
            Ty::TypeVar(id) => <T as Formatter<TypeVarId>>::format_object(ctx, *id),
            Ty::Bool => String::from_str("bool"),
            Ty::Char => String::from_str("char"),
            Ty::Never => String::from_str("!"),
            Ty::Integer(k) => integer_ty_to_string(*k),
            Ty::Str => String::from_str("str"),
            Ty::Array(b) => {
                let mut r = String::from_str("[");
                r.append(b.fmt_with_ctx(ctx).as_str());
                r.append("; ?]");
                r
            },
            Ty::Slice(b) => {
                let mut r = String::from_str("[");
                r.append(b.fmt_with_ctx(ctx).as_str());
                r.append("]");
                r
            },
            Ty::Ref(region, b, kind) => {
                let mut r = String::from_str("&");
                r.append(<T as Formatter<R>>::format_object(ctx, *region).as_str());
                match kind {
                    RefKind::Mut => r.append(" mut ("),
                    RefKind::Shared => r.append(" ("),
                }
                r.append(b.fmt_with_ctx(ctx).as_str());
                r.append(")");
                r
            },
        }
    }

    /// The texts of `tys`, in order.
    fn fmt_all<T: Formatter<TypeVarId> + Formatter<TypeDefId> + Formatter<R>>(tys: &Vec<Ty<R>>, ctx: &T) -> (r: Vec<String>)
        ensures
            r@.map_values(|p: String| p@) =~= tys_text(*ctx, tys@),
        decreases tys,
    {
        let mut out: Vec<String> = Vec::new();
        let mut i: usize = 0;
        while i < tys.len()
            invariant
                i <= tys@.len(),
                out@.map_values(|p: String| p@) =~= tys_text(*ctx, tys@.subrange(0, i as int)),
            decreases tys@.len() - i,
        {
            proof {
                vstd::std_specs::vec::axiom_vec_index_decreases(*tys, i as int);
                assert(tys@.subrange(0, i as int + 1).drop_last() =~= tys@.subrange(0, i as int));
            }
            out.push(tys[i].fmt_with_ctx(ctx));
            i = i + 1;
        }
        proof {
            assert(tys@.subrange(0, i as int) =~= tys@);
        }
        out
    }
}

impl Formatter<Region<RegionVarId>> for DummyFormatter {
    open spec fn format_spec(&self, x: Region<RegionVarId>) -> Seq<char> {
        match x {
            Region::Static => "'static"@,
            Region::Var(id) => "@R"@ + decimal(id.index as nat),
        }
    }

    fn format_object(&self, x: Region<RegionVarId>) -> (r: String) {
        x.fmt_with_ctx(self)
    }
}

impl Ty<ErasedRegion> {
    /// The text of the type, identifiers written by their indices.
    pub fn to_string(&self) -> (r: String)
        ensures
            r@ == ty_text(DummyFormatter {}, *self),
    {
        self.fmt_with_ctx(&DummyFormatter {})
    }
}

/// The text of a field: its name and type.
pub open spec fn field_text<T: Formatter<TypeVarId> + Formatter<TypeDefId> + Formatter<Region<RegionVarId>>>(
    ctx: T,
    f: Field,
) -> Seq<char> {
    f.name@ + ": "@ + ty_text(ctx, f.ty)
}

/// The text of a variant: its name and its fields in parentheses.
pub open spec fn variant_text<T: Formatter<TypeVarId> + Formatter<TypeDefId> + Formatter<Region<RegionVarId>>>(
    ctx: T,
    v: Variant,
) -> Seq<char> {
    v.name@ + "("@ + joined(v.fields@.map_values(|f: Field| field_text(ctx, f)), ", "@) + ")"@
}

impl Field {
    pub fn fmt_with_ctx<T: Formatter<TypeVarId> + Formatter<TypeDefId> + Formatter<Region<RegionVarId>>>(
        &self,
        ctx: &T,
    ) -> (r: String)
        ensures
            r@ == field_text(*ctx, *self),
    {
        let mut r = self.name.clone();
        r.append(": ");
        r.append(self.ty.fmt_with_ctx(ctx).as_str());
        r
    }
}

/// The texts of `fields`, each after `lead`.
fn fields_texts<T: Formatter<TypeVarId> + Formatter<TypeDefId> + Formatter<Region<RegionVarId>>>(
    fields: &Vec<Field>,
    lead: &str,
    ctx: &T,
) -> (r: Vec<String>)
    ensures
        r@.map_values(|p: String| p@) =~= fields@.map_values(|f: Field| lead@ + field_text(*ctx, f)),
{
    let mut out: Vec<String> = Vec::new();
    let mut i: usize = 0;
    while i < fields.len()
        invariant
            i <= fields@.len(),
            out@.len() == i,
            forall|k: int| 0 <= k < i ==> (#[trigger] out@[k])@ == lead@ + field_text(*ctx, fields@[k]),
        decreases fields@.len() - i,
    {
        let mut t = String::from_str(lead);
        t.append(fields[i].fmt_with_ctx(ctx).as_str());
        out.push(t);
        i = i + 1;
    }
    proof {
        let ov = out@.map_values(|p: String| p@);
        assert forall|k: int| 0 <= k < i implies #[trigger] ov[k] == lead@ + field_text(*ctx, fields@[k]) by {}
    }
    out
}

impl Variant {
    pub fn fmt_with_ctx<T: Formatter<TypeVarId> + Formatter<TypeDefId> + Formatter<Region<RegionVarId>>>(
        &self,
        ctx: &T,
    ) -> (r: String)
        ensures
            r@ == variant_text(*ctx, *self),
    {
        let texts = fields_texts(&self.fields, "", ctx);
        proof {
            reveal_strlit("");
            let tv = texts@.map_values(|p: String| p@);
            let want = self.fields@.map_values(|f: Field| field_text(*ctx, f));
            assert forall|k: int| 0 <= k < tv.len() implies #[trigger] tv[k] == want[k] by {
                assert(""@ + want[k] =~= want[k]);
            }
            assert(tv =~= want);
        }
        let mut r = self.name.clone();
        r.append("(");
        r.append(join_strings(&texts, ", ").as_str());
        r.append(")");
        r
    }
}

/// The texts of a type definition's parameters: regions, then types.
pub open spec fn params_text(region_params: Seq<RegionVar>, type_params: Seq<TypeVar>) -> Seq<char> {
    if region_params.len() + type_params.len() > 0 {
        "<"@ + joined(
            region_params.map_values(|r: RegionVar| region_var_text(r)) + type_params.map_values(|t: TypeVar| t.name@),
            ", "@,
        ) + ">"@
    } else {
        Seq::empty()
    }
}

/// The text of a region variable: its name, or its pretty identifier.
pub open spec fn region_var_text(r: RegionVar) -> Seq<char> {
    match r.name {
        Some(n) => n@,
        None => "@R"@ + decimal(r.index.index as nat),
    }
}

/// The text of a type definition.
pub open spec fn type_def_text<T: Formatter<TypeVarId> + Formatter<TypeDefId> + Formatter<Region<RegionVarId>>>(
    ctx: T,
    d: TypeDef,
) -> Seq<char> {
    let head = joined(d.name@.map_values(|p: String| p@), "::"@) + params_text(d.region_params@, d.type_params@);
    match d.kind {
        TypeDefKind::Struct(fields) => if fields@.len() > 0 {
            "struct "@ + head + " = {"@ + joined(
                fields@.map_values(|f: Field| "\n  "@ + field_text(ctx, f)),
                ","@,
            ) + "\n}"@
        } else {
            "struct "@ + head + " = {}"@
        },
        TypeDefKind::Enum(variants) => "enum "@ + head + " =\n"@ + joined(
            variants@.map_values(|v: Variant| "|  "@ + variant_text(ctx, v)),
            "\n"@,
        ),
    }
}

impl TypeDef {
    fn fmt_params(region_params: &Vec<RegionVar>, type_params: &Vec<TypeVar>) -> (r: String)
        requires
            region_params@.len() + type_params@.len() <= usize::MAX,
        ensures
            r@ == params_text(region_params@, type_params@),
    {
        if region_params.len() + type_params.len() > 0 {
            let mut parts: Vec<String> = Vec::new();
            let mut i: usize = 0;
            while i < region_params.len()
                invariant
                    i <= region_params@.len(),
                    parts@.len() == i,
                    forall|k: int| 0 <= k < i ==> (#[trigger] parts@[k])@ == region_var_text(region_params@[k]),
                decreases region_params@.len() - i,
            {
                parts.push(region_params[i].to_pretty_string());
                i = i + 1;
            }
            let n = region_params.len();
            let mut j: usize = 0;
            while j < type_params.len()
                invariant
                    n == region_params@.len(),
                    j <= type_params@.len(),
                    parts@.len() == n + j,
                    forall|k: int| 0 <= k < n ==> (#[trigger] parts@[k])@ == region_var_text(region_params@[k]),
                    forall|k: int| 0 <= k < j ==> (#[trigger] parts@[n + k])@ == type_params@[k].name@,
                decreases type_params@.len() - j,
            {
                parts.push(type_params[j].name.clone());
                j = j + 1;
            }
            proof {
                let want = region_params@.map_values(|r: RegionVar| region_var_text(r)) + type_params@.map_values(
                    |t: TypeVar| t.name@,
                );
                let pv = parts@.map_values(|p: String| p@);
                assert forall|k: int| 0 <= k < parts@.len() implies #[trigger] pv[k] == want[k] by {
                    if k >= n {
                        assert(parts@[n + (k - n)] == parts@[k]);
                    }
                }
                assert(pv =~= want);
            }
            let mut r = String::from_str("<");
            r.append(join_strings(&parts, ", ").as_str());
            r.append(">");
            r
        } else {
            String::new()
        }
    }

    /// Writes the definition as text; `ctx` names identifiers and regions.
    pub fn fmt_with_ctx<T: Formatter<TypeVarId> + Formatter<TypeDefId> + Formatter<Region<RegionVarId>>>(
        &self,
        ctx: &T,
    ) -> (r: String)
        requires
            self.region_params@.len() + self.type_params@.len() <= usize::MAX,
        ensures
            r@ == type_def_text(*ctx, *self),
    {
        let mut head = join_strings(&self.name, "::");
        head.append(Self::fmt_params(&self.region_params, &self.type_params).as_str());
        match &self.kind {
            TypeDefKind::Struct(fields) => {
                let mut r = String::from_str("struct ");
                r.append(head.as_str());
                if fields.len() > 0 {
                    let texts = fields_texts(fields, "\n  ", ctx);
                    r.append(" = {");
                    r.append(join_strings(&texts, ",").as_str());
                    r.append("\n}");
                } else {
                    r.append(" = {}");
                }
                r
            },
            TypeDefKind::Enum(variants) => {
                let mut texts: Vec<String> = Vec::new();
                let mut i: usize = 0;
                while i < variants.len()
                    invariant
                        i <= variants@.len(),
                        texts@.len() == i,
                        forall|k: int| 0 <= k < i ==> (#[trigger] texts@[k])@ == "|  "@ + variant_text(*ctx, variants@[k]),
                    decreases variants@.len() - i,
                {
                    let mut t = String::from_str("|  ");
                    t.append(variants[i].fmt_with_ctx(ctx).as_str());
                    texts.push(t);
                    i = i + 1;
                }
                proof {
                    let tv = texts@.map_values(|p: String| p@);
                    let want = variants@.map_values(|v: Variant| "|  "@ + variant_text(*ctx, v));
                    assert forall|k: int| 0 <= k < i implies #[trigger] tv[k] == want[k] by {}
                    assert(tv =~= want);
                }
                let mut r = String::from_str("enum ");
                r.append(head.as_str());
                r.append(" =\n");
                r.append(join_strings(&texts, "\n").as_str());
                r
            },
        }
    }
}

/// Model of a type: its type arguments as sequences.
pub enum TyModel<R> {
    Adt(TypeId, Seq<R>, Seq<TyModel<R>>),
    TypeVar(TypeVarId),
    Bool,
    Char,
    Never,
    Integer(IntegerTy),
    Str,
    Array(Box<TyModel<R>>),
    Slice(Box<TyModel<R>>),
    Ref(R, Box<TyModel<R>>, RefKind),
}

/// Model of a type.
pub open spec fn ty_view<R>(t: Ty<R>) -> TyModel<R>
    decreases t,
{
    match t {
        Ty::Adt(id, regions, tys) => TyModel::Adt(id, regions@, tys_view(tys@)),
        Ty::TypeVar(id) => TyModel::TypeVar(id),
        Ty::Bool => TyModel::Bool,
        Ty::Char => TyModel::Char,
        Ty::Never => TyModel::Never,
        Ty::Integer(k) => TyModel::Integer(k),
        Ty::Str => TyModel::Str,
        Ty::Array(b) => TyModel::Array(Box::new(ty_view(*b))),
        Ty::Slice(b) => TyModel::Slice(Box::new(ty_view(*b))),
        Ty::Ref(r, b, k) => TyModel::Ref(r, Box::new(ty_view(*b)), k),
    }
}

/// Models of a sequence of types.
pub open spec fn tys_view<R>(s: Seq<Ty<R>>) -> Seq<TyModel<R>>
    decreases s,
{
    if s.len() == 0 {
        Seq::empty()
    } else {
        tys_view(s.drop_last()).push(ty_view(s.last()))
    }
}

/// The type with every region erased.
pub open spec fn erased<R>(t: TyModel<R>) -> TyModel<ErasedRegion>
    decreases t,
{
    match t {
        TyModel::Adt(id, regions, tys) => TyModel::Adt(
            id,
            Seq::new(regions.len(), |i: int| ErasedRegion::Erased),
            erased_all(tys),
        ),
        TyModel::TypeVar(id) => TyModel::TypeVar(id),
        TyModel::Bool => TyModel::Bool,
        TyModel::Char => TyModel::Char,
        TyModel::Never => TyModel::Never,
        TyModel::Integer(k) => TyModel::Integer(k),
        TyModel::Str => TyModel::Str,
        TyModel::Array(b) => TyModel::Array(Box::new(erased(*b))),
        TyModel::Slice(b) => TyModel::Slice(Box::new(erased(*b))),
        TyModel::Ref(_, b, k) => TyModel::Ref(ErasedRegion::Erased, Box::new(erased(*b)), k),
    }
}

/// `erased` of each type of a sequence.
pub open spec fn erased_all<R>(s: Seq<TyModel<R>>) -> Seq<TyModel<ErasedRegion>>
    decreases s,
{
    if s.len() == 0 {
        Seq::empty()
    } else {
        erased_all(s.drop_last()).push(erased(s.last()))
    }
}

/// The type bound to `id` by a substitution: its last binding.
pub open spec fn bound_to<R>(subst: Seq<(TypeVarId, TyModel<R>)>, id: TypeVarId) -> Option<TyModel<R>>
    decreases subst.len(),
{
    if subst.len() == 0 {
        None
    } else if subst.last().0 == id {
        Some(subst.last().1)
    } else {
        bound_to(subst.drop_last(), id)
    }
}

/// Every type variable of `t` is bound by `subst`.
pub open spec fn vars_bound<R>(t: TyModel<R>, subst: Seq<(TypeVarId, TyModel<R>)>) -> bool
    decreases t,
{
    match t {
        TyModel::Adt(_, _, tys) => all_vars_bound(tys, subst),
        TyModel::TypeVar(id) => bound_to(subst, id) is Some,
        TyModel::Array(b) => vars_bound(*b, subst),
        TyModel::Slice(b) => vars_bound(*b, subst),
        TyModel::Ref(_, b, _) => vars_bound(*b, subst),
        _ => true,
    }
}

/// `vars_bound` for each type of a sequence.
pub open spec fn all_vars_bound<R>(s: Seq<TyModel<R>>, subst: Seq<(TypeVarId, TyModel<R>)>) -> bool
    decreases s,
{
    s.len() == 0 || (all_vars_bound(s.drop_last(), subst) && vars_bound(s.last(), subst))
}

/// The type with each type variable replaced by its binding.
pub open spec fn substituted<R>(t: TyModel<R>, subst: Seq<(TypeVarId, TyModel<R>)>) -> TyModel<R>
    decreases t,
{
    match t {
        TyModel::Adt(id, regions, tys) => TyModel::Adt(id, regions, substituted_all(tys, subst)),
        TyModel::TypeVar(id) => match bound_to(subst, id) {
            Some(b) => b,
            None => t,
        },
        TyModel::Array(b) => TyModel::Array(Box::new(substituted(*b, subst))),
        TyModel::Slice(b) => TyModel::Slice(Box::new(substituted(*b, subst))),
        TyModel::Ref(r, b, k) => TyModel::Ref(r, Box::new(substituted(*b, subst)), k),
        _ => t,
    }
}

/// `substituted` for each type of a sequence.
pub open spec fn substituted_all<R>(s: Seq<TyModel<R>>, subst: Seq<(TypeVarId, TyModel<R>)>) -> Seq<TyModel<R>>
    decreases s,
{
    if s.len() == 0 {
        Seq::empty()
    } else {
        substituted_all(s.drop_last(), subst).push(substituted(s.last(), subst))
    }
}

/// Model of a substitution.
pub open spec fn subst_view<R>(s: Seq<(TypeVarId, Ty<R>)>) -> Seq<(TypeVarId, TyModel<R>)>
    decreases s.len(),
{
    if s.len() == 0 {
        Seq::empty()
    } else {
        subst_view(s.drop_last()).push((s.last().0, ty_view(s.last().1)))
    }
}

impl<R: Copy> Ty<R> {
    /// A copy of the type.
    pub fn duplicate(&self) -> (r: Ty<R>)
        ensures
            ty_view(r) == ty_view(*self),
        decreases self,
    {
        match self {
            Ty::Adt(id, regions, tys) => {
                let mut rs: Vec<R> = Vec::new();
                let mut i: usize = 0;
                while i < regions.len()
                    invariant
                        i <= regions@.len(),
                        rs@ == regions@.subrange(0, i as int),
                    decreases regions@.len() - i,
                {
                    rs.push(regions[i]);
                    i = i + 1;
                }
                proof {
                    assert(rs@ =~= regions@);
                }
                Ty::Adt(*id, rs, Self::duplicate_all(tys))
            },
            Ty::TypeVar(id) => Ty::TypeVar(*id),
            Ty::Bool => Ty::Bool,
            Ty::Char => Ty::Char,
            Ty::Never => Ty::Never,
            Ty::Integer(k) => Ty::Integer(*k),
            Ty::Str => Ty::Str,
            Ty::Array(b) => Ty::Array(Box::new(b.duplicate())),
            Ty::Slice(b) => Ty::Slice(Box::new(b.duplicate())),
            Ty::Ref(r, b, k) => Ty::Ref(*r, Box::new(b.duplicate()), *k),
        }
    }

    fn duplicate_all(tys: &Vec<Ty<R>>) -> (r: Vec<Ty<R>>)
        ensures
            tys_view(r@) == tys_view(tys@),
        decreases tys,
    {
        let mut out: Vec<Ty<R>> = Vec::new();
        let mut i: usize = 0;
        while i < tys.len()
            invariant
                i <= tys@.len(),
                tys_view(out@) == tys_view(tys@.subrange(0, i as int)),
            decreases tys@.len() - i,
        {
            proof {
                vstd::std_specs::vec::axiom_vec_index_decreases(*tys, i as int);
                assert(tys@.subrange(0, i as int + 1).drop_last() =~= tys@.subrange(0, i as int));
            }
            let t = tys[i].duplicate();
            let ghost before = out@;
            out.push(t);
            proof {
                assert(out@.drop_last() =~= before);
            }
            i = i + 1;
        }
        proof {
            assert(tys@.subrange(0, i as int) =~= tys@);
        }
        out
    }

    /// The type with every region erased.
    pub fn erase_regions(&self) -> (r: Ty<ErasedRegion>)
        ensures
            ty_view(r) == erased(ty_view(*self)),
        decreases self,
    {
        match self {
            Ty::Adt(id, regions, tys) => {
                let mut rs: Vec<ErasedRegion> = Vec::new();
                let mut i: usize = 0;
                while i < regions.len()
                    invariant
                        i <= regions@.len(),
                        rs@ =~= Seq::new(i as nat, |k: int| ErasedRegion::Erased),
                    decreases regions@.len() - i,
                {
                    rs.push(ErasedRegion::Erased);
                    i = i + 1;
                }
                Ty::Adt(*id, rs, Self::erase_all(tys))
            },
            Ty::TypeVar(id) => Ty::TypeVar(*id),
            Ty::Bool => Ty::Bool,
            Ty::Char => Ty::Char,
            Ty::Never => Ty::Never,
            Ty::Integer(k) => Ty::Integer(*k),
            Ty::Str => Ty::Str,
            Ty::Array(b) => Ty::Array(Box::new(b.erase_regions())),
            Ty::Slice(b) => Ty::Slice(Box::new(b.erase_regions())),
            Ty::Ref(_, b, k) => Ty::Ref(ErasedRegion::Erased, Box::new(b.erase_regions()), *k),
        }
    }

    fn erase_all(tys: &Vec<Ty<R>>) -> (r: Vec<Ty<ErasedRegion>>)
        ensures
            tys_view(r@) == erased_all(tys_view(tys@)),
        decreases tys,
    {
        let mut out: Vec<Ty<ErasedRegion>> = Vec::new();
        let mut i: usize = 0;
        while i < tys.len()
            invariant
                i <= tys@.len(),
                tys_view(out@) == erased_all(tys_view(tys@.subrange(0, i as int))),
            decreases tys@.len() - i,
        {
            proof {
                vstd::std_specs::vec::axiom_vec_index_decreases(*tys, i as int);
                let sub1 = tys@.subrange(0, i as int + 1);
                assert(sub1.drop_last() =~= tys@.subrange(0, i as int));
                assert(tys_view(sub1).drop_last() =~= tys_view(tys@.subrange(0, i as int)));
            }
            let t = tys[i].erase_regions();
            let ghost before = out@;
            out.push(t);
            proof {
                assert(out@.drop_last() =~= before);
            }
            i = i + 1;
        }
        proof {
            assert(tys@.subrange(0, i as int) =~= tys@);
        }
        out
    }
}

proof fn lemma_subst_view_index<R>(s: Seq<(TypeVarId, Ty<R>)>)
    ensures
        subst_view(s).len() == s.len(),
        forall|i: int| 0 <= i < s.len() ==> #[trigger] subst_view(s)[i] == (s[i].0, ty_view(s[i].1)),
    decreases s.len(),
{
    if s.len() > 0 {
        lemma_subst_view_index(s.drop_last());
    }
}

/// The substitution that binds each parameter to the type at its position.
pub open spec fn type_subst<R>(params: Seq<TypeVar>, types: Seq<Ty<R>>) -> Seq<(TypeVarId, TyModel<R>)> {
    Seq::new(params.len(), |i: int| (params[i].index, ty_view(types[i])))
}

/// The binding of `id` in `subst`: its last one.
fn lookup_binding<R>(subst: &Vec<(TypeVarId, Ty<R>)>, id: TypeVarId) -> (r: Option<&Ty<R>>)
    ensures
        match bound_to(subst_view(subst@), id) {
            Some(b) => r matches Some(t) && ty_view(*t) == b,
            None => r is None,
        },
{
    let mut i: usize = subst.len();
    proof {
        assert(subst@.subrange(0, i as int) =~= subst@);
    }
    while i > 0
        invariant
            i <= subst@.len(),
            bound_to(subst_view(subst@), id) == bound_to(subst_view(subst@.subrange(0, i as int)), id),
        decreases i,
    {
        proof {
            let sub = subst@.subrange(0, i as int);
            assert(sub.drop_last() =~= subst@.subrange(0, i as int - 1));
            let sv = subst_view(sub);
            assert(sv == subst_view(sub.drop_last()).push((sub.last().0, ty_view(sub.last().1))));
            assert(sv.drop_last() =~= subst_view(sub.drop_last()));
        }
        if subst[i - 1].0 == id {
            return Some(&subst[i - 1].1);
        }
        i = i - 1;
    }
    None
}

/// Binds each of `params` to the type at its position in `types`.
pub fn make_type_subst<R: Copy>(params: &Vec<TypeVar>, types: &Vec<Ty<R>>) -> (r: Vec<(TypeVarId, Ty<R>)>)
    requires
        params@.len() == types@.len(),
    ensures
        subst_view(r@) == type_subst(params@, types@),
{
    let mut out: Vec<(TypeVarId, Ty<R>)> = Vec::new();
    let mut i: usize = 0;
    while i < params.len()
        invariant
            params@.len() == types@.len(),
            i <= params@.len(),
            out@.len() == i,
            forall|k: int| 0 <= k < i ==> (#[trigger] out@[k]).0 == params@[k].index && ty_view(out@[k].1) == ty_view(types@[k]),
        decreases params@.len() - i,
    {
        out.push((params[i].index, types[i].duplicate()));
        i = i + 1;
    }
    proof {
        lemma_subst_view_index(out@);
        assert(subst_view(out@) =~= type_subst(params@, types@));
    }
    out
}

impl<R: Copy> Ty<R> {
    /// The type with each type variable replaced by its binding in `subst`.
    pub fn substitute_types(&self, subst: &Vec<(TypeVarId, Ty<R>)>) -> (r: Ty<R>)
        requires
            vars_bound(ty_view(*self), subst_view(subst@)),
        ensures
            ty_view(r) == substituted(ty_view(*self), subst_view(subst@)),
        decreases self,
    {
        match self {
            Ty::Adt(id, regions, tys) => {
                let mut rs: Vec<R> = Vec::new();
                let mut i: usize = 0;
                while i < regions.len()
                    invariant
                        i <= regions@.len(),
                        rs@ == regions@.subrange(0, i as int),
                    decreases regions@.len() - i,
                {
                    rs.push(regions[i]);
                    i = i + 1;
                }
                proof {
                    assert(rs@ =~= regions@);
                }
                Ty::Adt(*id, rs, Self::substitute_all(tys, subst))
            },
            Ty::TypeVar(id) => {
                let b = lookup_binding(subst, *id);
                b.unwrap().duplicate()
            },
            Ty::Bool => Ty::Bool,
            Ty::Char => Ty::Char,
            Ty::Never => Ty::Never,
            Ty::Integer(k) => Ty::Integer(*k),
            Ty::Str => Ty::Str,
            Ty::Array(b) => Ty::Array(Box::new(b.substitute_types(subst))),
            Ty::Slice(b) => Ty::Slice(Box::new(b.substitute_types(subst))),
            Ty::Ref(r, b, k) => Ty::Ref(*r, Box::new(b.substitute_types(subst)), *k),
        }
    }

    fn substitute_all(tys: &Vec<Ty<R>>, subst: &Vec<(TypeVarId, Ty<R>)>) -> (r: Vec<Ty<R>>)
        requires
            all_vars_bound(tys_view(tys@), subst_view(subst@)),
        ensures
            tys_view(r@) == substituted_all(tys_view(tys@), subst_view(subst@)),
        decreases tys,
    {
        let ghost sv = subst_view(subst@);
        let mut out: Vec<Ty<R>> = Vec::new();
        proof {
            lemma_tys_view_len(tys@);
            lemma_all_vars_bound_prefixes(tys_view(tys@), sv);
        }
        let mut j: usize = 0;
        while j < tys.len()
            invariant
                j <= tys@.len(),
                sv == subst_view(subst@),
                tys_view(tys@).len() == tys@.len(),
                forall|k: int| 0 <= k <= tys@.len() ==> #[trigger] all_vars_bound(tys_view(tys@).subrange(0, k), sv),
                tys_view(out@) == substituted_all(tys_view(tys@.subrange(0, j as int)), sv),
            decreases tys@.len() - j,
        {
            proof {
                vstd::std_specs::vec::axiom_vec_index_decreases(*tys, j as int);
                let sub1 = tys@.subrange(0, j as int + 1);
                assert(sub1.drop_last() =~= tys@.subrange(0, j as int));
                lemma_tys_view_prefix(tys@, j as int + 1);
                assert(all_vars_bound(tys_view(tys@).subrange(0, j as int + 1), sv));
                assert(tys_view(sub1).drop_last() =~= tys_view(tys@.subrange(0, j as int)));
            }
            let t = tys[j].substitute_types(subst);
            let ghost before = out@;
            out.push(t);
            proof {
                assert(out@.drop_last() =~= before);
            }
            j = j + 1;
        }
        proof {
            assert(tys@.subrange(0, j as int) =~= tys@);
        }
        out
    }
}

proof fn lemma_tys_view_prefix<R>(s: Seq<Ty<R>>, k: int)
    requires
        0 <= k <= s.len(),
    ensures
        tys_view(s.subrange(0, k)) == tys_view(s).subrange(0, k),
    decreases s.len(),
{
    if k < s.len() {
        assert(s.drop_last().subrange(0, k) =~= s.subrange(0, k));
        lemma_tys_view_prefix(s.drop_last(), k);
        lemma_tys_view_len(s.drop_last());
        let v = tys_view(s);
        assert(v == tys_view(s.drop_last()).push(ty_view(s.last())));
        assert(v.subrange(0, k) =~= tys_view(s.drop_last()).subrange(0, k));
    } else {
        assert(s.subrange(0, k) =~= s);
        lemma_tys_view_len(s);
        assert(tys_view(s).subrange(0, k) =~= tys_view(s));
    }
}

proof fn lemma_tys_view_len<R>(s: Seq<Ty<R>>)
    ensures
        tys_view(s).len() == s.len(),
    decreases s.len(),
{
    if s.len() > 0 {
        lemma_tys_view_len(s.drop_last());
    }
}

proof fn lemma_all_vars_bound_prefixes<R>(s: Seq<TyModel<R>>, subst: Seq<(TypeVarId, TyModel<R>)>)
    requires
        all_vars_bound(s, subst),
    ensures
        forall|k: int| 0 <= k <= s.len() ==> #[trigger] all_vars_bound(s.subrange(0, k), subst),
    decreases s.len(),
{
    if s.len() > 0 {
        lemma_all_vars_bound_prefixes(s.drop_last(), subst);
        assert forall|k: int| 0 <= k <= s.len() implies #[trigger] all_vars_bound(s.subrange(0, k), subst) by {
            if k < s.len() {
                assert(s.drop_last().subrange(0, k) =~= s.subrange(0, k));
            } else {
                assert(s.subrange(0, k) =~= s);
            }
        }
    } else {
        assert forall|k: int| 0 <= k <= s.len() implies #[trigger] all_vars_bound(s.subrange(0, k), subst) by {
            assert(s.subrange(0, k) =~= s);
        }
    }
}

impl<R: Copy> Ty<R> {
    /// The type with its regions erased and its type variables replaced by
    /// their bindings in `subst`.
    pub fn erase_regions_substitute_types(&self, subst: &Vec<(TypeVarId, ETy)>) -> (r: ETy)
        requires
            vars_bound(erased(ty_view(*self)), subst_view(subst@)),
        ensures
            ty_view(r) == substituted(erased(ty_view(*self)), subst_view(subst@)),
    {
        self.erase_regions().substitute_types(subst)
    }
}

/// The fields of the structure, or of the given variant of the enumeration.
pub open spec fn fields_of(def: TypeDef, variant_id: Option<VariantId>) -> Seq<Field> {
    match def.kind {
        TypeDefKind::Enum(variants) => variants@[variant_id->Some_0.index as int].fields@,
        TypeDefKind::Struct(fields) => fields@,
    }
}

/// The type of a field once its regions are erased and the definition's
/// parameters are bound to `inst`.
pub open spec fn instantiated_field(def: TypeDef, f: Field, inst: Seq<ETy>) -> TyModel<ErasedRegion> {
    substituted(erased(ty_view(f.ty)), type_subst(def.type_params@, inst))
}

/// Every type variable of the field's type is a parameter of the definition.
pub open spec fn field_instantiable(def: TypeDef, f: Field, inst: Seq<ETy>) -> bool {
    vars_bound(erased(ty_view(f.ty)), type_subst(def.type_params@, inst))
}

impl TypeDef {
    /// The types of the fields of the structure, or of the given variant of
    /// the enumeration, with regions erased and the parameters bound to
    /// `inst_types`.
    pub fn get_erased_regions_instantiated_field_types(
        &self,
        variant_id: Option<VariantId>,
        inst_types: &Vec<ETy>,
    ) -> (r: Vec<ETy>)
        requires
            variant_fits(*self, variant_id),
            self.type_params@.len() == inst_types@.len(),
            forall|i: int|
                0 <= i < fields_of(*self, variant_id).len() ==> field_instantiable(
                    *self,
                    #[trigger] fields_of(*self, variant_id)[i],
                    inst_types@,
                ),
        ensures
            r@.len() == fields_of(*self, variant_id).len(),
            forall|i: int|
                0 <= i < r@.len() ==> ty_view(#[trigger] r@[i]) == instantiated_field(
                    *self,
                    fields_of(*self, variant_id)[i],
                    inst_types@,
                ),
    {
        let subst = make_type_subst(&self.type_params, inst_types);
        let fields = self.get_fields(variant_id);
        let ghost fs = fields_of(*self, variant_id);
        assert(fields@ == fs);
        let mut out: Vec<ETy> = Vec::new();
        let mut i: usize = 0;
        while i < fields.len()
            invariant
                fields@ == fs,
                subst_view(subst@) == type_subst(self.type_params@, inst_types@),
                forall|k: int| 0 <= k < fs.len() ==> field_instantiable(*self, #[trigger] fs[k], inst_types@),
                i <= fs.len(),
                out@.len() == i,
                forall|k: int| 0 <= k < i ==> ty_view(#[trigger] out@[k]) == instantiated_field(*self, fs[k], inst_types@),
            decreases fs.len() - i,
        {
            assert(field_instantiable(*self, fs[i as int], inst_types@));
            out.push(fields[i].ty.erase_regions_substitute_types(&subst));
            i = i + 1;
        }
        out
    }

    /// The type of one field, with regions erased and the parameters bound
    /// to `inst_types`.
    pub fn get_erased_regions_instantiated_field_type(
        &self,
        variant_id: Option<VariantId>,
        inst_types: &Vec<ETy>,
        field_id: FieldId,
    ) -> (r: ETy)
        requires
            variant_fits(*self, variant_id),
            self.type_params@.len() == inst_types@.len(),
            field_id.index < fields_of(*self, variant_id).len(),
            field_instantiable(*self, fields_of(*self, variant_id)[field_id.index as int], inst_types@),
        ensures
            ty_view(r) == instantiated_field(*self, fields_of(*self, variant_id)[field_id.index as int], inst_types@),
    {
        let subst = make_type_subst(&self.type_params, inst_types);
        let fields = self.get_fields(variant_id);
        fields[field_id.index].ty.erase_regions_substitute_types(&subst)
    }
}

/// Whether `rset` holds `id`.
fn holds_region_var(rset: &Vec<RegionVarId>, id: RegionVarId) -> (r: bool)
    ensures
        r == rset@.contains(id),
{
    let mut i: usize = 0;
    while i < rset.len()
        invariant
            i <= rset@.len(),
            forall|k: int| 0 <= k < i ==> rset@[k] != id,
        decreases rset@.len() - i,
    {
        if rset[i] == id {
            assert(rset@[i as int] == id);
            return true;
        }
        i = i + 1;
    }
    false
}

impl Region<RegionVarId> {
    /// Whether this is one of the region variables of `rset`.
    pub fn contains_var(&self, rset: &Vec<RegionVarId>) -> (r: bool)
        ensures
            r == region_in(*self, rset@),
    {
        match self {
            Region::Static => false,
            Region::Var(id) => holds_region_var(rset, *id),
        }
    }
}

/// Whether one of `regions` is a region variable of `rset`.
fn some_region_in(regions: &Vec<Region<RegionVarId>>, rset: &Vec<RegionVarId>) -> (r: bool)
    ensures
        r == some_region(regions@, rset@),
{
    let mut i: usize = 0;
    while i < regions.len()
        invariant
            i <= regions@.len(),
            forall|k: int| 0 <= k < i ==> !#[trigger] region_in(regions@[k], rset@),
        decreases regions@.len() - i,
    {
        if regions[i].contains_var(rset) {
            return true;
        }
        i = i + 1;
    }
    false
}

/// The region is one of the region variables of `rset`.
pub open spec fn region_in(r: Region<RegionVarId>, rset: Seq<RegionVarId>) -> bool {
    r matches Region::Var(id) && rset.contains(id)
}

/// One of `regions` is a region variable of `rset`.
pub open spec fn some_region(regions: Seq<Region<RegionVarId>>, rset: Seq<RegionVarId>) -> bool {
    exists|i: int| 0 <= i < regions.len() && #[trigger] region_in(regions[i], rset)
}

/// The type mentions one of the region variables of `rset`.
pub open spec fn mentions_region(t: TyModel<Region<RegionVarId>>, rset: Seq<RegionVarId>) -> bool
    decreases t,
{
    match t {
        TyModel::Adt(_, regions, tys) => some_region(regions, rset) || any_mentions_region(tys, rset),
        TyModel::Array(b) => mentions_region(*b, rset),
        TyModel::Slice(b) => mentions_region(*b, rset),
        TyModel::Ref(r, b, _) => region_in(r, rset) || mentions_region(*b, rset),
        _ => false,
    }
}

/// Some type of the sequence mentions one of the region variables of `rset`.
pub open spec fn any_mentions_region(s: Seq<TyModel<Region<RegionVarId>>>, rset: Seq<RegionVarId>) -> bool
    decreases s,
{
    s.len() > 0 && (any_mentions_region(s.drop_last(), rset) || mentions_region(s.last(), rset))
}

proof fn lemma_member_mentions_region(s: Seq<TyModel<Region<RegionVarId>>>, rset: Seq<RegionVarId>, i: int)
    requires
        0 <= i < s.len(),
        mentions_region(s[i], rset),
    ensures
        any_mentions_region(s, rset),
    decreases s.len(),
{
    if i < s.len() - 1 {
        lemma_member_mentions_region(s.drop_last(), rset, i);
    }
}

impl Ty<Region<RegionVarId>> {
    /// Whether the type mentions one of the region variables of `rset`.
    pub fn contains_region_var(&self, rset: &Vec<RegionVarId>) -> (r: bool)
        ensures
            r == mentions_region(ty_view(*self), rset@),
        decreases self,
    {
        match self {
            Ty::TypeVar(_) => false,
            Ty::Bool | Ty::Char | Ty::Never | Ty::Integer(_) | Ty::Str => false,
            Ty::Array(ty) | Ty::Slice(ty) => ty.contains_region_var(rset),
            Ty::Ref(r, ty, _) => r.contains_var(rset) || ty.contains_region_var(rset),
            Ty::Adt(_, regions, tys) => some_region_in(regions, rset) || Self::any_contains_region_var(tys, rset),
        }
    }

    fn any_contains_region_var(tys: &Vec<Ty<Region<RegionVarId>>>, rset: &Vec<RegionVarId>) -> (r: bool)
        ensures
            r == any_mentions_region(tys_view(tys@), rset@),
        decreases tys,
    {
        proof {
            lemma_tys_view_len(tys@);
        }
        let mut i: usize = 0;
        while i < tys.len()
            invariant
                i <= tys@.len(),
                tys_view(tys@).len() == tys@.len(),
                !any_mentions_region(tys_view(tys@.subrange(0, i as int)), rset@),
            decreases tys@.len() - i,
        {
            proof {
                vstd::std_specs::vec::axiom_vec_index_decreases(*tys, i as int);
                let sub1 = tys@.subrange(0, i as int + 1);
                assert(sub1.drop_last() =~= tys@.subrange(0, i as int));
                assert(tys_view(sub1).drop_last() =~= tys_view(tys@.subrange(0, i as int)));
            }
            if tys[i].contains_region_var(rset) {
                proof {
                    lemma_tys_view_prefix(tys@, tys@.len() as int);
                    assert(tys@.subrange(0, tys@.len() as int) =~= tys@);
                    lemma_tys_view_prefix(tys@, i as int + 1);
                    assert(tys_view(tys@)[i as int] == tys_view(tys@.subrange(0, i as int + 1)).last());
                    lemma_member_mentions_region(tys_view(tys@), rset@, i as int);
                }
                return true;
            }
            i = i + 1;
        }
        proof {
            assert(tys@.subrange(0, i as int) =~= tys@);
        }
        false
    }
}

/// The value bound to region variable `id` by a substitution: its last
/// binding.
pub open spec fn region_bound_to<V>(subst: Seq<(RegionVarId, V)>, id: RegionVarId) -> Option<V>
    decreases subst.len(),
{
    if subst.len() == 0 {
        None
    } else if subst.last().0 == id {
        Some(subst.last().1)
    } else {
        region_bound_to(subst.drop_last(), id)
    }
}

/// Binds each of `keys` to the value at its position in `values`.
pub fn make_region_subst<V: Copy>(keys: &Vec<RegionVarId>, values: &Vec<V>) -> (r: Vec<(RegionVarId, V)>)
    requires
        keys@.len() == values@.len(),
    ensures
        r@.len() == keys@.len(),
        forall|i: int| 0 <= i < r@.len() ==> #[trigger] r@[i] == (keys@[i], values@[i]),
{
    let mut out: Vec<(RegionVarId, V)> = Vec::new();
    let mut i: usize = 0;
    while i < keys.len()
        invariant
            keys@.len() == values@.len(),
            i <= keys@.len(),
            out@.len() == i,
            forall|k: int| 0 <= k < i ==> #[trigger] out@[k] == (keys@[k], values@[k]),
        decreases keys@.len() - i,
    {
        out.push((keys[i], values[i]));
        i = i + 1;
    }
    out
}

impl RegionVarId {
    /// The value that `rsubst` binds this region variable to.
    pub fn substitute<V: Copy>(&self, rsubst: &Vec<(RegionVarId, V)>) -> (r: V)
        requires
            region_bound_to(rsubst@, *self) is Some,
        ensures
            region_bound_to(rsubst@, *self) == Some(r),
    {
        let mut i: usize = rsubst.len();
        proof {
            assert(rsubst@.subrange(0, i as int) =~= rsubst@);
        }
        loop
            invariant
                i <= rsubst@.len(),
                region_bound_to(rsubst@, *self) == region_bound_to(rsubst@.subrange(0, i as int), *self),
                region_bound_to(rsubst@.subrange(0, i as int), *self) is Some,
            decreases i,
        {
            proof {
                assert(rsubst@.subrange(0, i as int).drop_last() =~= rsubst@.subrange(0, i as int - 1));
            }
            if rsubst[i - 1].0 == *self {
                return rsubst[i - 1].1;
            }
            i = i - 1;
        }
    }
}

impl Region<RegionVarId> {
    /// The region with its variable replaced by its binding in `rsubst`.
    pub fn substitute<Rid2: Copy + Eq>(&self, rsubst: &Vec<(RegionVarId, Region<Rid2>)>) -> (r: Region<Rid2>)
        requires
            *self matches Region::Var(id) ==> region_bound_to(rsubst@, id) is Some,
        ensures
            match *self {
                Region::Static => r == Region::<Rid2>::Static,
                Region::Var(id) => region_bound_to(rsubst@, id) == Some(r),
            },
    {
        match self {
            Region::Static => Region::Static,
            Region::Var(id) => id.substitute(rsubst),
        }
    }
}

} // verus!
