//! Type definitions and the shape transformer.
//!
//! A [`Defs`] table describes every participating type: records with ordered
//! fields, and tagged unions with ordered variants.  Each field is either
//! opaque (carried uninterpreted) or marked evolvable, in which case it names
//! another type of the table.  [`derive_shape`] checks the table for
//! definition errors and produces the tolerant mirror shapes: the same table
//! with a synthetic catch-all arm appended to every union that does not
//! already have a declared untagged arm.

use vstd::prelude::*;

verus! {

/// What a field's declared type resolves to.
#[derive(Debug, PartialEq, Eq, Clone, Copy)]
pub enum FieldTy {
    /// Not a type this table describes: the content is carried uninterpreted.
    Opaque,
    /// The type at this index of the definition table.
    Named(usize),
}

/// The fallback representation selected for a union's catch-all arm.
#[derive(Debug, PartialEq, Eq, Clone, Copy)]
pub enum FallbackTy {
    /// A self-describing value: absorbs any payload.
    Any,
    /// A rigid fixed-arity tuple: absorbs only a list of exactly this many
    /// items, and otherwise surfaces an ordinary decode error.
    Arity(usize),
}

/// One field of a record, or of a tuple or record variant.
#[derive(Debug, PartialEq, Eq, Clone)]
pub struct FieldDef {
    /// The field name; positional fields have none.
    pub name: Option<String>,
    /// Declared visibility, carried through the derivation unchanged.
    pub public: bool,
    /// Whether the field participates in evolution: its type then has a
    /// tolerant mirror and the conversions recurse into it.
    pub evolvable: bool,
    pub ty: FieldTy,
}

/// Mathematical form of [`FieldDef`].
pub struct FieldDefV {
    pub name: Option<Seq<char>>,
    pub public: bool,
    pub evolvable: bool,
    pub ty: FieldTy,
}

impl DeepView for FieldDef {
    type V = FieldDefV;

    open spec fn deep_view(&self) -> FieldDefV {
        FieldDefV {
            name: self.name.deep_view(),
            public: self.public,
            evolvable: self.evolvable,
            ty: self.ty,
        }
    }
}

/// The payload shape of one union variant.
#[derive(Debug, PartialEq, Eq, Clone)]
pub enum VariantFields {
    Unit,
    Tuple(Vec<FieldDef>),
    Record(Vec<FieldDef>),
}

/// Mathematical form of [`VariantFields`].
pub enum VariantFieldsV {
    Unit,
    Tuple(Seq<FieldDefV>),
    Record(Seq<FieldDefV>),
}

impl DeepView for VariantFields {
    type V = VariantFieldsV;

    open spec fn deep_view(&self) -> VariantFieldsV {
        match self {
            VariantFields::Unit => VariantFieldsV::Unit,
            VariantFields::Tuple(fs) => VariantFieldsV::Tuple(fs.deep_view()),
            VariantFields::Record(fs) => VariantFieldsV::Record(fs.deep_view()),
        }
    }
}

/// One variant of a tagged union.
#[derive(Debug, PartialEq, Eq, Clone)]
pub struct VariantDef {
    pub name: String,
    /// A declared catch-all arm: the wire format tries it only after every
    /// declared tag has failed to match.
    pub untagged: bool,
    pub fields: VariantFields,
}

/// Mathematical form of [`VariantDef`].
pub struct VariantDefV {
    pub name: Seq<char>,
    pub untagged: bool,
    pub fields: VariantFieldsV,
}

impl DeepView for VariantDef {
    type V = VariantDefV;

    open spec fn deep_view(&self) -> VariantDefV {
        VariantDefV {
            name: self.name@,
            untagged: self.untagged,
            fields: self.fields.deep_view(),
        }
    }
}

/// One type of the definition table.
#[derive(Debug, PartialEq, Eq, Clone)]
pub enum TypeDef {
    Record { name: String, fields: Vec<FieldDef> },
    Union {
        name: String,
        variants: Vec<VariantDef>,
        /// A caller-declared fallback type override for the catch-all arm.
        fallback: Option<FallbackTy>,
    },
}

/// Mathematical form of [`TypeDef`].
pub enum TypeDefV {
    Record { name: Seq<char>, fields: Seq<FieldDefV> },
    Union { name: Seq<char>, variants: Seq<VariantDefV>, fallback: Option<FallbackTy> },
}

impl DeepView for TypeDef {
    type V = TypeDefV;

    open spec fn deep_view(&self) -> TypeDefV {
        match self {
            TypeDef::Record { name, fields } => TypeDefV::Record {
                name: name@,
                fields: fields.deep_view(),
            },
            TypeDef::Union { name, variants, fallback } => TypeDefV::Union {
                name: name@,
                variants: variants.deep_view(),
                fallback: *fallback,
            },
        }
    }
}

/// The table of type definitions a derivation works on.  Evolvable fields
/// name other entries of the same table by index.
#[derive(Debug, PartialEq, Eq, Clone)]
pub struct Defs {
    pub types: Vec<TypeDef>,
}

impl View for Defs {
    type V = Seq<TypeDefV>;

    open spec fn view(&self) -> Seq<TypeDefV> {
        self.types.deep_view()
    }
}

/// One type of the tolerant mirror table.  It is structurally isomorphic to
/// the source [`TypeDef`]: the fields and variants carry over, and evolvable
/// fields now name the tolerant mirror at the same index.  A union gains the
/// synthetic catch-all arm — recorded here as `catch_all` — unless the
/// source union already had a declared untagged arm.
#[derive(Debug, PartialEq, Eq, Clone)]
pub enum TolTypeDef {
    Record { name: String, fields: Vec<FieldDef> },
    Union {
        name: String,
        variants: Vec<VariantDef>,
        /// The fallback representation of the synthetic catch-all arm, which
        /// is always last in tag-evaluation order; `None` when the source
        /// union was already untagged and no synthetic arm was added.
        catch_all: Option<FallbackTy>,
    },
}

/// Mathematical form of [`TolTypeDef`].
pub enum TolTypeDefV {
    Record { name: Seq<char>, fields: Seq<FieldDefV> },
    Union { name: Seq<char>, variants: Seq<VariantDefV>, catch_all: Option<FallbackTy> },
}

impl DeepView for TolTypeDef {
    type V = TolTypeDefV;

    open spec fn deep_view(&self) -> TolTypeDefV {
        match self {
            TolTypeDef::Record { name, fields } => TolTypeDefV::Record {
                name: name@,
                fields: fields.deep_view(),
            },
            TolTypeDef::Union { name, variants, catch_all } => TolTypeDefV::Union {
                name: name@,
                variants: variants.deep_view(),
                catch_all: *catch_all,
            },
        }
    }
}

/// The tolerant mirror table produced by [`derive_shape`].
#[derive(Debug, PartialEq, Eq, Clone)]
pub struct TolDefs {
    pub types: Vec<TolTypeDef>,
}

impl View for TolDefs {
    type V = Seq<TolTypeDefV>;

    open spec fn view(&self) -> Seq<TolTypeDefV> {
        self.types.deep_view()
    }
}

/// The name of a source type.
pub open spec fn name_of(t: TypeDefV) -> Seq<char> {
    match t {
        TypeDefV::Record { name, .. } => name,
        TypeDefV::Union { name, .. } => name,
    }
}

/// The name of a tolerant mirror type.
pub open spec fn tol_name_of(t: TolTypeDefV) -> Seq<char> {
    match t {
        TolTypeDefV::Record { name, .. } => name,
        TolTypeDefV::Union { name, .. } => name,
    }
}

/// The payload fields of a variant, in declaration order.
pub open spec fn fields_of_variant(v: VariantFieldsV) -> Seq<FieldDefV> {
    match v {
        VariantFieldsV::Unit => Seq::empty(),
        VariantFieldsV::Tuple(fs) => fs,
        VariantFieldsV::Record(fs) => fs,
    }
}

/// The type index an evolvable field names, if any.
pub open spec fn dep_of(f: FieldDefV) -> Option<int> {
    if f.evolvable {
        match f.ty {
            FieldTy::Named(j) => Some(j as int),
            FieldTy::Opaque => None,
        }
    } else {
        None
    }
}

/// An evolvable field resolves when it names a type of the table.  A field
/// marked evolvable whose declared type is not in the table is a definition
/// error.
pub open spec fn field_resolves(f: FieldDefV, n: int) -> bool {
    f.evolvable ==> (f.ty matches FieldTy::Named(j) && 0 <= j < n)
}

pub open spec fn fields_resolve(fs: Seq<FieldDefV>, n: int) -> bool {
    forall|k: int| 0 <= k < fs.len() ==> field_resolves(#[trigger] fs[k], n)
}

/// Every evolvable field of the type names a type of the table.
pub open spec fn type_refs_ok(t: TypeDefV, n: int) -> bool {
    match t {
        TypeDefV::Record { fields, .. } => fields_resolve(fields, n),
        TypeDefV::Union { variants, .. } => forall|v: int|
            0 <= v < variants.len() ==> fields_resolve(
                fields_of_variant(#[trigger] variants[v].fields),
                n,
            ),
    }
}

/// Every evolvable field of the whole table resolves.
pub open spec fn refs_ok(defs: Seq<TypeDefV>) -> bool {
    forall|i: int| 0 <= i < defs.len() ==> type_refs_ok(#[trigger] defs[i], defs.len() as int)
}

/// Whether some field of `fs` is an evolvable reference to type `j`.
pub open spec fn seq_depends(fs: Seq<FieldDefV>, j: int) -> bool {
    exists|k: int| 0 <= k < fs.len() && dep_of(#[trigger] fs[k]) == Some(j)
}

/// Whether type `t` has an evolvable reference to type `j`.
pub open spec fn type_depends(t: TypeDefV, j: int) -> bool {
    match t {
        TypeDefV::Record { fields, .. } => seq_depends(fields, j),
        TypeDefV::Union { variants, .. } => exists|v: int|
            0 <= v < variants.len() && seq_depends(
                fields_of_variant(#[trigger] variants[v].fields),
                j,
            ),
    }
}

/// Every chain of evolvable references out of type `i` ends within `fuel`
/// steps.
pub open spec fn resolvable(defs: Seq<TypeDefV>, i: int, fuel: nat) -> bool
    decreases fuel,
{
    fuel > 0 && forall|j: int|
        0 <= j < defs.len() && #[trigger] type_depends(defs[i], j) ==> resolvable(
            defs,
            j,
            (fuel - 1) as nat,
        )
}

/// The evolvable-reference graph is free of cycles: every chain of evolvable
/// references ends within as many steps as the table has types, which for a
/// finite table is exactly acyclicity.
pub open spec fn acyclic(defs: Seq<TypeDefV>) -> bool {
    forall|i: int| 0 <= i < defs.len() ==> #[trigger] resolvable(defs, i, defs.len() + 1)
}

/// Whether the union has a declared untagged arm, and is therefore already
/// total: it absorbs unmatched tags itself and no synthetic arm is added.
pub open spec fn has_untagged(variants: Seq<VariantDefV>) -> bool {
    exists|v: int| 0 <= v < variants.len() && (#[trigger] variants[v]).untagged
}

/// The fallback representation a union's synthetic arm will use: the
/// caller-declared override if one was supplied, else the ambient default.
pub open spec fn selected_fallback(
    fallback: Option<FallbackTy>,
    dflt: Option<FallbackTy>,
) -> Option<FallbackTy> {
    if fallback is Some {
        fallback
    } else {
        dflt
    }
}

/// A union that is about to gain a synthetic catch-all arm must have a
/// fallback representation available, from its override or from the ambient
/// default; records and already-untagged unions need none.
pub open spec fn type_fallback_ok(t: TypeDefV, dflt: Option<FallbackTy>) -> bool {
    match t {
        TypeDefV::Record { .. } => true,
        TypeDefV::Union { variants, fallback, .. } => has_untagged(variants)
            || selected_fallback(fallback, dflt) is Some,
    }
}

pub open spec fn fallback_ok(defs: Seq<TypeDefV>, dflt: Option<FallbackTy>) -> bool {
    forall|i: int| 0 <= i < defs.len() ==> type_fallback_ok(#[trigger] defs[i], dflt)
}

/// All three definition-time checks: every evolvable field resolves, every
/// union that gains a catch-all arm has a fallback representation, and the
/// evolvable-reference graph is acyclic.
pub open spec fn derivable(defs: Seq<TypeDefV>, dflt: Option<FallbackTy>) -> bool {
    refs_ok(defs) && fallback_ok(defs, dflt) && acyclic(defs)
}

/// Whether any field of `fs` carries the evolvable marker.
pub open spec fn seq_has_marker(fs: Seq<FieldDefV>) -> bool {
    exists|k: int| 0 <= k < fs.len() && (#[trigger] fs[k]).evolvable
}

/// The advisory diagnostic a type deserves, if any: the derivation changes
/// nothing about a record with no evolvable fields, and a union with neither
/// evolvable markers nor a declared untagged arm gains a catch-all arm its
/// caller may never need.
pub open spec fn warn_kind_of(t: TypeDefV) -> Option<WarningKind> {
    match t {
        TypeDefV::Record { fields, .. } => if !seq_has_marker(fields) {
            Some(WarningKind::InertRecord)
        } else {
            None
        },
        TypeDefV::Union { variants, .. } => if !has_untagged(variants) && (forall|v: int|
            0 <= v < variants.len() ==> !seq_has_marker(
                fields_of_variant(#[trigger] variants[v].fields),
            )) {
            Some(WarningKind::InertUnion)
        } else {
            None
        },
    }
}

/// The tolerant mirror of one source type: records carry over unchanged;
/// unions carry their variants over and gain the synthetic catch-all arm —
/// with the selected fallback representation — unless already untagged.
pub open spec fn mirrors(t: TypeDefV, tt: TolTypeDefV, dflt: Option<FallbackTy>) -> bool {
    match t {
        TypeDefV::Record { name, fields } => tt == (TolTypeDefV::Record { name, fields }),
        TypeDefV::Union { name, variants, fallback } => tt == (TolTypeDefV::Union {
            name,
            variants,
            catch_all: if has_untagged(variants) {
                None
            } else {
                selected_fallback(fallback, dflt)
            },
        }),
    }
}

/// The whole tolerant table mirrors the whole source table.
pub open spec fn mirrors_all(
    defs: Seq<TypeDefV>,
    tol: Seq<TolTypeDefV>,
    dflt: Option<FallbackTy>,
) -> bool {
    tol.len() == defs.len() && forall|i: int|
        0 <= i < defs.len() ==> mirrors(defs[i], #[trigger] tol[i], dflt)
}

/// The kind of an advisory diagnostic.
#[derive(Debug, PartialEq, Eq, Clone, Copy)]
pub enum WarningKind {
    /// A record with no evolvable field: deriving a shape for it changes
    /// nothing.
    InertRecord,
    /// A union with no evolvable marker and no declared untagged arm: it
    /// gains a catch-all arm, but the caller gains nothing if the type never
    /// changes.
    InertUnion,
}

/// An advisory diagnostic attached to one type of the table.
#[derive(Debug, PartialEq, Eq, Clone)]
pub struct Warning {
    pub ty_index: usize,
    pub ty: String,
    pub kind: WarningKind,
}

/// A definition error: the table violates a structural precondition and no
/// shape or conversion pair is produced.
#[derive(Debug, PartialEq, Eq, Clone)]
pub enum DefError {
    /// A field is marked evolvable but its declared type is not a type of
    /// the table, so no tolerant mirror exists for it.
    UnresolvableEvolvable { ty: String },
    /// A union must gain a catch-all arm but neither a fallback override nor
    /// an ambient default was supplied.
    MissingFallback { ty: String },
    /// The evolvable-reference graph has a cycle, so the recursive
    /// derivation would not terminate.
    CyclicDefinitions { ty: String },
}

/// The result of a successful derivation: the tolerant mirror table and the
/// advisory diagnostics, in table order.
#[derive(Debug)]
pub struct Derivation {
    pub shape: TolDefs,
    pub warnings: Vec<Warning>,
}

/// The diagnostics list is sound (each names a type that deserves its kind),
/// complete (every type deserving one is named), and in table order.
pub open spec fn warnings_ok(defs: Seq<TypeDefV>, ws: Seq<Warning>) -> bool {
    &&& forall|k: int| 0 <= k < ws.len() ==> {
        &&& 0 <= (#[trigger] ws[k]).ty_index < defs.len()
        &&& warn_kind_of(defs[ws[k].ty_index as int]) == Some(ws[k].kind)
        &&& ws[k].ty@ == name_of(defs[ws[k].ty_index as int])
    }
    &&& forall|k1: int, k2: int|
        0 <= k1 < k2 < ws.len() ==> (#[trigger] ws[k1]).ty_index < (#[trigger] ws[k2]).ty_index
    &&& forall|i: int|
        0 <= i < defs.len() && (#[trigger] warn_kind_of(defs[i])) is Some ==> exists|k: int|
            0 <= k < ws.len() && (#[trigger] ws[k]).ty_index == i
}

/// The name of a source type, by reference.
pub fn def_name<'a>(t: &'a TypeDef) -> (r: &'a String)
    ensures
        r@ == name_of(t.deep_view()),
{
    match t {
        TypeDef::Record { name, .. } => name,
        TypeDef::Union { name, .. } => name,
    }
}

/// The name of a tolerant mirror type, by reference.
pub fn tol_def_name<'a>(t: &'a TolTypeDef) -> (r: &'a String)
    ensures
        r@ == tol_name_of(t.deep_view()),
{
    match t {
        TolTypeDef::Record { name, .. } => name,
        TolTypeDef::Union { name, .. } => name,
    }
}

fn copy_field(f: &FieldDef) -> (r: FieldDef)
    ensures
        r.deep_view() == f.deep_view(),
{
    FieldDef {
        name: match &f.name {
            Some(s) => Some(s.clone()),
            None => None,
        },
        public: f.public,
        evolvable: f.evolvable,
        ty: f.ty,
    }
}

fn copy_fields(fs: &Vec<FieldDef>) -> (r: Vec<FieldDef>)
    ensures
        r.deep_view() == fs.deep_view(),
{
    let mut r: Vec<FieldDef> = Vec::new();
    let mut i: usize = 0;
    while i < fs.len()
        invariant
            0 <= i <= fs@.len(),
            r.deep_view() =~= fs.deep_view().subrange(0, i as int),
        decreases fs@.len() - i,
    {
        let ghost prev = r.deep_view();
        r.push(copy_field(&fs[i]));
        proof {
            assert(r.deep_view() =~= prev.push(fs.deep_view()[i as int]));
            assert(prev.push(fs.deep_view()[i as int]) =~= fs.deep_view().subrange(
                0,
                i as int + 1,
            ));
        }
        i = i + 1;
    }
    proof {
        assert(fs.deep_view().subrange(0, fs.deep_view().len() as int) =~= fs.deep_view());
        assert(r.deep_view() =~= fs.deep_view());
    }
    r
}

fn copy_variant(v: &VariantDef) -> (r: VariantDef)
    ensures
        r.deep_view() == v.deep_view(),
{
    VariantDef {
        name: v.name.clone(),
        untagged: v.untagged,
        fields: match &v.fields {
            VariantFields::Unit => VariantFields::Unit,
            VariantFields::Tuple(fs) => VariantFields::Tuple(copy_fields(fs)),
            VariantFields::Record(fs) => VariantFields::Record(copy_fields(fs)),
        },
    }
}

fn copy_variants(vs: &Vec<VariantDef>) -> (r: Vec<VariantDef>)
    ensures
        r.deep_view() == vs.deep_view(),
{
    let mut r: Vec<VariantDef> = Vec::new();
    let mut i: usize = 0;
    while i < vs.len()
        invariant
            0 <= i <= vs@.len(),
            r.deep_view() =~= vs.deep_view().subrange(0, i as int),
        decreases vs@.len() - i,
    {
        let ghost prev = r.deep_view();
        r.push(copy_variant(&vs[i]));
        proof {
            assert(r.deep_view() =~= prev.push(vs.deep_view()[i as int]));
            assert(prev.push(vs.deep_view()[i as int]) =~= vs.deep_view().subrange(
                0,
                i as int + 1,
            ));
        }
        i = i + 1;
    }
    proof {
        assert(vs.deep_view().subrange(0, vs.deep_view().len() as int) =~= vs.deep_view());
        assert(r.deep_view() =~= vs.deep_view());
    }
    r
}

fn fields_resolve_exec(fs: &Vec<FieldDef>, n: usize) -> (r: bool)
    ensures
        r == fields_resolve(fs.deep_view(), n as int),
{
    let mut i: usize = 0;
    while i < fs.len()
        invariant
            0 <= i <= fs@.len(),
            forall|k: int| 0 <= k < i ==> field_resolves(#[trigger] fs.deep_view()[k], n as int),
        decreases fs@.len() - i,
    {
        if fs[i].evolvable {
            match fs[i].ty {
                FieldTy::Named(j) => {
                    if j >= n {
                        proof {
                            assert(!field_resolves(fs.deep_view()[i as int], n as int));
                        }
                        return false;
                    }
                },
                FieldTy::Opaque => {
                    proof {
                        assert(!field_resolves(fs.deep_view()[i as int], n as int));
                    }
                    return false;
                },
            }
        }
        i = i + 1;
    }
    true
}

fn variant_fields_resolve(v: &VariantDef, n: usize) -> (r: bool)
    ensures
        r == fields_resolve(fields_of_variant(v.deep_view().fields), n as int),
{
    match &v.fields {
        VariantFields::Unit => true,
        VariantFields::Tuple(fs) => fields_resolve_exec(fs, n),
        VariantFields::Record(fs) => fields_resolve_exec(fs, n),
    }
}

fn type_refs_ok_exec(t: &TypeDef, n: usize) -> (r: bool)
    ensures
        r == type_refs_ok(t.deep_view(), n as int),
{
    match t {
        TypeDef::Record { fields, .. } => fields_resolve_exec(fields, n),
        TypeDef::Union { variants, .. } => {
            let mut i: usize = 0;
            while i < variants.len()
                invariant
                    0 <= i <= variants@.len(),
                    t.deep_view() matches TypeDefV::Union { variants: vdv, .. } && vdv
                        == variants.deep_view(),
                    forall|v: int|
                        0 <= v < i ==> fields_resolve(
                            fields_of_variant((#[trigger] variants.deep_view()[v]).fields),
                            n as int,
                        ),
                decreases variants@.len() - i,
            {
                if !variant_fields_resolve(&variants[i], n) {
                    proof {
                        assert(!fields_resolve(
                            fields_of_variant((variants.deep_view()[i as int]).fields),
                            n as int,
                        ));
                    }
                    return false;
                }
                proof {
                    assert(fields_resolve(
                        fields_of_variant((variants.deep_view()[i as int]).fields),
                        n as int,
                    ));
                }
                i = i + 1;
            }
            true
        },
    }
}

fn fields_have_marker(fs: &Vec<FieldDef>) -> (r: bool)
    ensures
        r == seq_has_marker(fs.deep_view()),
{
    let mut i: usize = 0;
    while i < fs.len()
        invariant
            0 <= i <= fs@.len(),
            forall|k: int| 0 <= k < i ==> !(#[trigger] fs.deep_view()[k]).evolvable,
        decreases fs@.len() - i,
    {
        if fs[i].evolvable {
            proof {
                assert(fs.deep_view()[i as int].evolvable);
            }
            return true;
        }
        i = i + 1;
    }
    false
}

fn variant_has_marker(v: &VariantDef) -> (r: bool)
    ensures
        r == seq_has_marker(fields_of_variant(v.deep_view().fields)),
{
    match &v.fields {
        VariantFields::Unit => {
            proof {
                assert(!seq_has_marker(Seq::<FieldDefV>::empty()));
            }
            false
        },
        VariantFields::Tuple(fs) => fields_have_marker(fs),
        VariantFields::Record(fs) => fields_have_marker(fs),
    }
}

fn variants_have_untagged(vs: &Vec<VariantDef>) -> (r: bool)
    ensures
        r == has_untagged(vs.deep_view()),
{
    let mut i: usize = 0;
    while i < vs.len()
        invariant
            0 <= i <= vs@.len(),
            forall|v: int| 0 <= v < i ==> !(#[trigger] vs.deep_view()[v]).untagged,
        decreases vs@.len() - i,
    {
        if vs[i].untagged {
            proof {
                assert(vs.deep_view()[i as int].untagged);
            }
            return true;
        }
        i = i + 1;
    }
    false
}

fn warn_kind_exec(t: &TypeDef) -> (r: Option<WarningKind>)
    ensures
        r == warn_kind_of(t.deep_view()),
{
    match t {
        TypeDef::Record { fields, .. } => {
            if fields_have_marker(fields) {
                None
            } else {
                Some(WarningKind::InertRecord)
            }
        },
        TypeDef::Union { variants, .. } => {
            if variants_have_untagged(variants) {
                return None;
            }
            let mut i: usize = 0;
            while i < variants.len()
                invariant
                    0 <= i <= variants@.len(),
                    t.deep_view() matches TypeDefV::Union { variants: vdv, .. } && vdv
                        == variants.deep_view(),
                    !has_untagged(variants.deep_view()),
                    forall|v: int|
                        0 <= v < i ==> !seq_has_marker(
                            fields_of_variant((#[trigger] variants.deep_view()[v]).fields),
                        ),
                decreases variants@.len() - i,
            {
                if variant_has_marker(&variants[i]) {
                    proof {
                        assert(seq_has_marker(
                            fields_of_variant((variants.deep_view()[i as int]).fields),
                        ));
                    }
                    return None;
                }
                proof {
                    assert(!seq_has_marker(
                        fields_of_variant((variants.deep_view()[i as int]).fields),
                    ));
                }
                i = i + 1;
            }
            Some(WarningKind::InertUnion)
        },
    }
}

fn type_fallback_ok_exec(t: &TypeDef, dflt: Option<FallbackTy>) -> (r: bool)
    ensures
        r == type_fallback_ok(t.deep_view(), dflt),
{
    match t {
        TypeDef::Record { .. } => true,
        TypeDef::Union { variants, fallback, .. } => {
            if variants_have_untagged(variants) {
                true
            } else {
                fallback.is_some() || dflt.is_some()
            }
        },
    }
}

/// Whether the one evolvable reference of this field, if any, is already
/// marked resolved.
pub open spec fn dep_done(f: FieldDefV, done: Seq<bool>) -> bool {
    match dep_of(f) {
        Some(j) => 0 <= j < done.len() && done[j],
        None => true,
    }
}

/// Whether every evolvable reference out of `fs` is already marked resolved.
pub open spec fn deps_done_fs(fs: Seq<FieldDefV>, done: Seq<bool>) -> bool {
    forall|k: int| 0 <= k < fs.len() ==> dep_done(#[trigger] fs[k], done)
}

fn fields_deps_done(fs: &Vec<FieldDef>, done: &Vec<bool>) -> (r: bool)
    requires
        fields_resolve(fs.deep_view(), done@.len() as int),
    ensures
        r == deps_done_fs(fs.deep_view(), done@),
{
    let mut i: usize = 0;
    while i < fs.len()
        invariant
            0 <= i <= fs@.len(),
            fields_resolve(fs.deep_view(), done@.len() as int),
            forall|k: int| 0 <= k < i ==> dep_done(#[trigger] fs.deep_view()[k], done@),
        decreases fs@.len() - i,
    {
        if fs[i].evolvable {
            match fs[i].ty {
                FieldTy::Named(j) => {
                    proof {
                        assert(field_resolves(fs.deep_view()[i as int], done@.len() as int));
                    }
                    if !done[j] {
                        proof {
                            assert(!dep_done(fs.deep_view()[i as int], done@));
                        }
                        return false;
                    }
                    proof {
                        assert(dep_done(fs.deep_view()[i as int], done@));
                    }
                },
                FieldTy::Opaque => {
                    proof {
                        assert(false);
                    }
                },
            }
        }
        i = i + 1;
    }
    true
}

/// Whether every evolvable reference out of type `t` is already marked
/// resolved: exactly the step relation of the resolvability rounds.
pub open spec fn type_deps_done(t: TypeDefV, done: Seq<bool>) -> bool {
    match t {
        TypeDefV::Record { fields, .. } => deps_done_fs(fields, done),
        TypeDefV::Union { variants, .. } => forall|v: int|
            0 <= v < variants.len() ==> deps_done_fs(
                fields_of_variant((#[trigger] variants[v]).fields),
                done,
            ),
    }
}

fn type_deps_done_exec(t: &TypeDef, done: &Vec<bool>) -> (r: bool)
    requires
        type_refs_ok(t.deep_view(), done@.len() as int),
    ensures
        r == type_deps_done(t.deep_view(), done@),
{
    match t {
        TypeDef::Record { fields, .. } => fields_deps_done(fields, done),
        TypeDef::Union { variants, .. } => {
            let mut i: usize = 0;
            while i < variants.len()
                invariant
                    0 <= i <= variants@.len(),
                    type_refs_ok(t.deep_view(), done@.len() as int),
                    t.deep_view() matches TypeDefV::Union { variants: vdv, .. } && vdv
                        == variants.deep_view(),
                    forall|v: int|
                        0 <= v < i ==> deps_done_fs(
                            fields_of_variant((#[trigger] variants.deep_view()[v]).fields),
                            done@,
                        ),
                decreases variants@.len() - i,
            {
                proof {
                    assert(fields_resolve(
                        fields_of_variant((variants.deep_view()[i as int]).fields),
                        done@.len() as int,
                    ));
                }
                let ok = match &variants[i].fields {
                    VariantFields::Unit => true,
                    VariantFields::Tuple(fs) => fields_deps_done(fs, done),
                    VariantFields::Record(fs) => fields_deps_done(fs, done),
                };
                if !ok {
                    proof {
                        assert(!deps_done_fs(
                            fields_of_variant((variants.deep_view()[i as int]).fields),
                            done@,
                        ));
                    }
                    return false;
                }
                proof {
                    assert(deps_done_fs(
                        fields_of_variant((variants.deep_view()[i as int]).fields),
                        done@,
                    ));
                }
                i = i + 1;
            }
            true
        },
    }
}

/// The bridge between the per-field step relation and the dependency
/// relation the resolvability measure quantifies over.
proof fn lemma_deps_done_fs(fs: Seq<FieldDefV>, done: Seq<bool>)
    requires
        fields_resolve(fs, done.len() as int),
    ensures
        deps_done_fs(fs, done) <==> (forall|j: int|
            0 <= j < done.len() && #[trigger] seq_depends(fs, j) ==> done[j]),
{
    if deps_done_fs(fs, done) {
        assert forall|j: int| 0 <= j < done.len() && #[trigger] seq_depends(fs, j) implies done[j] by {
            let k = choose|k: int| 0 <= k < fs.len() && dep_of(#[trigger] fs[k]) == Some(j);
            assert(dep_done(fs[k], done));
        }
    }
    if (forall|j: int| 0 <= j < done.len() && #[trigger] seq_depends(fs, j) ==> done[j]) {
        assert forall|k: int| 0 <= k < fs.len() implies dep_done(#[trigger] fs[k], done) by {
            match dep_of(fs[k]) {
                Some(j) => {
                    assert(field_resolves(fs[k], done.len() as int));
                    assert(seq_depends(fs, j));
                },
                None => {},
            }
        }
    }
}

/// The step relation computes exactly one more unit of resolvability fuel.
proof fn lemma_step_resolvable(defs: Seq<TypeDefV>, i: int, done: Seq<bool>, fuel: nat)
    requires
        refs_ok(defs),
        0 <= i < defs.len(),
        done.len() == defs.len(),
        forall|j: int| 0 <= j < defs.len() ==> done[j] == #[trigger] resolvable(defs, j, fuel),
    ensures
        type_deps_done(defs[i], done) == resolvable(defs, i, (fuel + 1) as nat),
{
    let t = defs[i];
    assert(type_refs_ok(t, defs.len() as int));
    match t {
        TypeDefV::Record { fields, .. } => {
            lemma_deps_done_fs(fields, done);
            assert forall|j: int|
                0 <= j < defs.len() && #[trigger] type_depends(defs[i], j) implies seq_depends(
                fields,
                j,
            ) by {}
            if type_deps_done(defs[i], done) {
                assert forall|j: int|
                    0 <= j < defs.len() && #[trigger] type_depends(defs[i], j) implies resolvable(
                    defs,
                    j,
                    fuel,
                ) by {
                    assert(resolvable(defs, j, fuel) == done[j]);
                }
            }
            if resolvable(defs, i, (fuel + 1) as nat) {
                assert forall|j: int|
                    0 <= j < done.len() && #[trigger] seq_depends(fields, j) implies done[j] by {
                    assert(type_depends(defs[i], j));
                    assert(resolvable(defs, j, fuel) == done[j]);
                }
            }
        },
        TypeDefV::Union { variants, .. } => {
            assert forall|v: int| 0 <= v < variants.len() implies fields_resolve(
                fields_of_variant((#[trigger] variants[v]).fields),
                done.len() as int,
            ) by {}
            if type_deps_done(defs[i], done) {
                assert forall|j: int|
                    0 <= j < defs.len() && #[trigger] type_depends(defs[i], j) implies resolvable(
                    defs,
                    j,
                    fuel,
                ) by {
                    let v = choose|v: int|
                        0 <= v < variants.len() && seq_depends(
                            fields_of_variant((#[trigger] variants[v]).fields),
                            j,
                        );
                    lemma_deps_done_fs(fields_of_variant(variants[v].fields), done);
                    assert(done[j]);
                    assert(resolvable(defs, j, fuel) == done[j]);
                }
            }
            if resolvable(defs, i, (fuel + 1) as nat) {
                assert forall|v: int| 0 <= v < variants.len() implies deps_done_fs(
                    fields_of_variant((#[trigger] variants[v]).fields),
                    done,
                ) by {
                    lemma_deps_done_fs(fields_of_variant(variants[v].fields), done);
                    assert forall|j: int|
                        0 <= j < done.len() && #[trigger] seq_depends(
                            fields_of_variant(variants[v].fields),
                            j,
                        ) implies done[j] by {
                        assert(type_depends(defs[i], j));
                        assert(resolvable(defs, j, fuel) == done[j]);
                    }
                }
            }
        },
    }
}

/// The shape transformer.  It checks the table for definition errors —
/// an evolvable field whose type is not in the table, a union that needs a
/// catch-all arm with no fallback representation available, and a cycle in
/// the evolvable-reference graph — and, when the table is clean, produces
/// the tolerant mirror of every type together with the advisory
/// diagnostics, in table order.
pub fn derive_shape(defs: &Defs, default_fallback: Option<FallbackTy>) -> (r: Result<
    Derivation,
    DefError,
>)
    requires
        defs.types@.len() < usize::MAX,
    ensures
        r is Ok <==> derivable(defs@, default_fallback),
        r matches Ok(d) ==> mirrors_all(defs@, d.shape@, default_fallback) && warnings_ok(
            defs@,
            d.warnings@,
        ),
        r matches Err(e) ==> match e {
            DefError::UnresolvableEvolvable { ty } => !refs_ok(defs@) && exists|i: int|
                0 <= i < defs@.len() && !type_refs_ok(#[trigger] defs@[i], defs@.len() as int)
                    && name_of(defs@[i]) == ty@,
            DefError::MissingFallback { ty } => refs_ok(defs@) && !fallback_ok(
                defs@,
                default_fallback,
            ) && exists|i: int|
                0 <= i < defs@.len() && !type_fallback_ok(#[trigger] defs@[i], default_fallback)
                    && name_of(defs@[i]) == ty@,
            DefError::CyclicDefinitions { ty } => refs_ok(defs@) && fallback_ok(
                defs@,
                default_fallback,
            ) && !acyclic(defs@) && exists|i: int|
                0 <= i < defs@.len() && !(#[trigger] resolvable(defs@, i, defs@.len() + 1))
                    && name_of(defs@[i]) == ty@,
        },
{
    let ghost dv = defs@;
    let n = defs.types.len();

    let mut i: usize = 0;
    while i < n
        invariant
            0 <= i <= n,
            n == defs.types@.len(),
            dv == defs@,
            dv.len() == n,
            forall|k: int| 0 <= k < i ==> type_refs_ok(#[trigger] dv[k], n as int),
        decreases n - i,
    {
        if !type_refs_ok_exec(&defs.types[i], n) {
            proof {
                assert(dv[i as int] == defs.types@[i as int].deep_view());
                assert(!type_refs_ok(dv[i as int], dv.len() as int));
                assert(!refs_ok(dv));
            }
            return Err(DefError::UnresolvableEvolvable { ty: def_name(&defs.types[i]).clone() });
        }
        i = i + 1;
    }
    proof {
        assert(refs_ok(dv));
    }

    let mut i: usize = 0;
    while i < n
        invariant
            0 <= i <= n,
            n == defs.types@.len(),
            dv == defs@,
            dv.len() == n,
            refs_ok(dv),
            forall|k: int| 0 <= k < i ==> type_fallback_ok(#[trigger] dv[k], default_fallback),
        decreases n - i,
    {
        if !type_fallback_ok_exec(&defs.types[i], default_fallback) {
            proof {
                assert(dv[i as int] == defs.types@[i as int].deep_view());
                assert(!type_fallback_ok(dv[i as int], default_fallback));
                assert(!fallback_ok(dv, default_fallback));
            }
            return Err(DefError::MissingFallback { ty: def_name(&defs.types[i]).clone() });
        }
        i = i + 1;
    }
    proof {
        assert(fallback_ok(dv, default_fallback));
    }

    let mut done: Vec<bool> = Vec::new();
    let mut i: usize = 0;
    while i < n
        invariant
            0 <= i <= n,
            done@.len() == i,
            forall|j: int| 0 <= j < i ==> !(#[trigger] done@[j]),
        decreases n - i,
    {
        done.push(false);
        i = i + 1;
    }
    proof {
        assert(forall|j: int| 0 <= j < n ==> done@[j] == #[trigger] resolvable(dv, j, 0nat));
    }

    let mut round: usize = 0;
    let ghost mut fuel: nat = 0nat;
    while round <= n
        invariant
            0 <= round <= n + 1,
            fuel == round as nat,
            n == defs.types@.len(),
            n < usize::MAX,
            dv == defs@,
            dv.len() == n,
            refs_ok(dv),
            fallback_ok(dv, default_fallback),
            done@.len() == n,
            forall|j: int| 0 <= j < n ==> done@[j] == #[trigger] resolvable(dv, j, fuel),
        decreases n + 1 - round,
    {
        let ghost fuel0 = fuel;
        proof {
            fuel = (fuel + 1) as nat;
        }
        let mut next: Vec<bool> = Vec::new();
        let mut i: usize = 0;
        while i < n
            invariant
                0 <= i <= n,
                n == defs.types@.len(),
                dv == defs@,
                dv.len() == n,
                refs_ok(dv),
                fuel == (fuel0 + 1) as nat,
                done@.len() == n,
                forall|j: int| 0 <= j < n ==> done@[j] == #[trigger] resolvable(dv, j, fuel0),
                next@.len() == i,
                forall|j: int| 0 <= j < i ==> next@[j] == #[trigger] resolvable(dv, j, fuel),
            decreases n - i,
        {
            proof {
                assert(type_refs_ok(dv[i as int], dv.len() as int));
            }
            let b = type_deps_done_exec(&defs.types[i], &done);
            proof {
                lemma_step_resolvable(dv, i as int, done@, fuel0);
                assert(resolvable(dv, i as int, fuel) == resolvable(
                    dv,
                    i as int,
                    (fuel0 + 1) as nat,
                ));
            }
            next.push(b);
            i = i + 1;
        }
        done = next;
        round = round + 1;
    }
    proof {
        assert(forall|j: int| 0 <= j < n ==> done@[j] == #[trigger] resolvable(
            dv,
            j,
            dv.len() + 1,
        ));
    }

    let mut i: usize = 0;
    while i < n
        invariant
            0 <= i <= n,
            n == defs.types@.len(),
            dv == defs@,
            dv.len() == n,
            refs_ok(dv),
            fallback_ok(dv, default_fallback),
            done@.len() == n,
            forall|j: int| 0 <= j < n ==> done@[j] == #[trigger] resolvable(dv, j, dv.len() + 1),
            forall|j: int| 0 <= j < i ==> #[trigger] resolvable(dv, j, dv.len() + 1),
        decreases n - i,
    {
        if !done[i] {
            proof {
                assert(!resolvable(dv, i as int, dv.len() + 1));
            }
            return Err(DefError::CyclicDefinitions { ty: def_name(&defs.types[i]).clone() });
        }
        i = i + 1;
    }
    proof {
        assert(acyclic(dv));
    }

    let (tol, warnings) = build_tolerant(defs, default_fallback);
    Ok(Derivation { shape: TolDefs { types: tol }, warnings })
}

/// Builds the tolerant mirror of every type, with the advisory diagnostics,
/// in table order.
#[verifier::rlimit(50)]
fn build_tolerant(defs: &Defs, default_fallback: Option<FallbackTy>) -> (r: (
    Vec<TolTypeDef>,
    Vec<Warning>,
))
    ensures
        mirrors_all(defs@, r.0.deep_view(), default_fallback),
        warnings_ok(defs@, r.1@),
{
    let ghost dv = defs@;
    let n = defs.types.len();
    let mut tol: Vec<TolTypeDef> = Vec::new();
    let mut warnings: Vec<Warning> = Vec::new();
    let mut i: usize = 0;
    while i < n
        invariant
            0 <= i <= n,
            n == defs.types@.len(),
            dv == defs@,
            dv.len() == n,
            tol.deep_view().len() == i,
            forall|k: int|
                0 <= k < i ==> mirrors(dv[k], #[trigger] tol.deep_view()[k], default_fallback),
            forall|k: int| 0 <= k < warnings@.len() ==> {
                &&& 0 <= (#[trigger] warnings@[k]).ty_index < i
                &&& warn_kind_of(dv[warnings@[k].ty_index as int]) == Some(warnings@[k].kind)
                &&& warnings@[k].ty@ == name_of(dv[warnings@[k].ty_index as int])
            },
            forall|k1: int, k2: int|
                0 <= k1 < k2 < warnings@.len() ==> (#[trigger] warnings@[k1]).ty_index < (
                #[trigger] warnings@[k2]).ty_index,
            forall|ii: int|
                0 <= ii < i && (#[trigger] warn_kind_of(dv[ii])) is Some ==> exists|k: int|
                    0 <= k < warnings@.len() && (#[trigger] warnings@[k]).ty_index == ii,
        decreases n - i,
    {
        let ghost prev = tol.deep_view();
        let t = &defs.types[i];
        match t {
            TypeDef::Record { name, fields } => {
                tol.push(TolTypeDef::Record { name: name.clone(), fields: copy_fields(fields) });
            },
            TypeDef::Union { name, variants, fallback } => {
                let catch_all = if variants_have_untagged(variants) {
                    None
                } else {
                    match fallback {
                        Some(f) => Some(*f),
                        None => default_fallback,
                    }
                };
                tol.push(
                    TolTypeDef::Union {
                        name: name.clone(),
                        variants: copy_variants(variants),
                        catch_all,
                    },
                );
            },
        }
        proof {
            assert(dv[i as int] == defs.types@[i as int].deep_view());
            assert(tol.deep_view() =~= prev.push(tol@[i as int].deep_view()));
            assert(mirrors(dv[i as int], tol.deep_view()[i as int], default_fallback));
        }
        match warn_kind_exec(&defs.types[i]) {
            Some(k) => {
                let ghost wprev = warnings@;
                warnings.push(
                    Warning { ty_index: i, ty: def_name(&defs.types[i]).clone(), kind: k },
                );
                proof {
                    assert(warnings@[warnings@.len() - 1].ty_index == i);
                    assert forall|ii: int|
                        0 <= ii < i + 1 && (#[trigger] warn_kind_of(dv[ii])) is Some implies exists|
                        k2: int,
                    | 0 <= k2 < warnings@.len() && (#[trigger] warnings@[k2]).ty_index == ii by {
                        if ii < i {
                            let k2 = choose|k2: int|
                                0 <= k2 < wprev.len() && (#[trigger] wprev[k2]).ty_index == ii;
                            assert(warnings@[k2].ty_index == ii);
                        } else {
                            assert(warnings@[warnings@.len() - 1].ty_index == ii);
                        }
                    }
                }
            },
            None => {},
        }
        i = i + 1;
    }
    (tol, warnings)
}

} // verus!
