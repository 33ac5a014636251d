//! The conversion pair: the total downgrade from original values to their
//! tolerant form, and the fallible upgrade back, with path-tracking errors.

use vstd::prelude::*;
use crate::error::Error;
use crate::error::ErrorV;
use crate::schema::FieldDef;
use crate::schema::FieldDefV;
use crate::schema::FieldTy;
use crate::schema::VariantFields;
use crate::schema::FallbackTy;
use crate::schema::TolDefs;
use crate::schema::TolTypeDef;
use crate::schema::TolTypeDefV;
use crate::schema::TypeDefV;
use crate::schema::VariantDefV;
use crate::schema::fields_of_variant;
use crate::schema::mirrors;
use crate::schema::mirrors_all;
use crate::schema::tol_name_of;
use crate::value::Dyn;
use crate::value::DynV;
use crate::value::TolValue;
use crate::value::TolValueV;
use crate::value::Value;
use crate::value::ValueV;
use crate::value::view_tol;
use crate::value::view_tol_seq;
use crate::value::view_value;
use crate::value::view_value_seq;
use crate::value::lemma_view_tol_seq;
use crate::value::lemma_view_value_seq;

verus! {

/// Whether a fallback value is representable in the selected fallback type:
/// the self-describing default absorbs anything, a rigid fixed-arity tuple
/// absorbs only a list of exactly its arity.
pub open spec fn fits(fb: FallbackTy, d: DynV) -> bool {
    match fb {
        FallbackTy::Any => true,
        FallbackTy::Arity(n) => d matches DynV::List(items) && items.len() == n,
    }
}

/// The record fields of a source type; empty for unions.
pub open spec fn rec_fields_of(t: TypeDefV) -> Seq<FieldDefV> {
    match t {
        TypeDefV::Record { fields, .. } => fields,
        TypeDefV::Union { .. } => Seq::empty(),
    }
}

/// The variants of a source type; empty for records.
pub open spec fn variants_of(t: TypeDefV) -> Seq<VariantDefV> {
    match t {
        TypeDefV::Record { .. } => Seq::empty(),
        TypeDefV::Union { variants, .. } => variants,
    }
}

/// The record fields of a tolerant type; empty for unions.
pub open spec fn tol_rec_fields_of(t: TolTypeDefV) -> Seq<FieldDefV> {
    match t {
        TolTypeDefV::Record { fields, .. } => fields,
        TolTypeDefV::Union { .. } => Seq::empty(),
    }
}

/// The variants of a tolerant type; empty for records.
pub open spec fn tol_variants_of(t: TolTypeDefV) -> Seq<VariantDefV> {
    match t {
        TolTypeDefV::Record { .. } => Seq::empty(),
        TolTypeDefV::Union { variants, .. } => variants,
    }
}

/// The catch-all arm of a tolerant type, if it has one.
pub open spec fn tol_catch_all_of(t: TolTypeDefV) -> Option<FallbackTy> {
    match t {
        TolTypeDefV::Record { .. } => None,
        TolTypeDefV::Union { catch_all, .. } => catch_all,
    }
}

/// Whether one value slot is well formed for its field: an evolvable field
/// holds a well-formed value of the type it names, any other field holds
/// uninterpreted content.
pub open spec fn wf_field(defs: Seq<TypeDefV>, f: FieldDefV, v: ValueV) -> bool {
    if f.evolvable {
        f.ty matches FieldTy::Named(j) && wf_value(defs, j as int, v)
    } else {
        v is Opaque
    }
}

/// Whether a value is well formed at type `t` of the source table.
pub open spec fn wf_value(defs: Seq<TypeDefV>, t: int, v: ValueV) -> bool
    decreases v,
{
    0 <= t < defs.len() && match defs[t] {
        TypeDefV::Record { fields, .. } => v matches ValueV::Rec { fields: vs } && wf_fields(
            defs,
            fields,
            vs,
        ),
        TypeDefV::Union { variants, .. } => v matches ValueV::Un { tag, fields: vs } && 0 <= tag
            < variants.len() && wf_fields(defs, fields_of_variant(variants[tag].fields), vs),
    }
}

pub open spec fn wf_fields(defs: Seq<TypeDefV>, fds: Seq<FieldDefV>, vs: Seq<ValueV>) -> bool
    decreases vs,
{
    vs.len() == fds.len() && (vs.len() == 0 || {
        &&& (if fds[0].evolvable {
            fds[0].ty matches FieldTy::Named(j) && wf_value(defs, j as int, vs[0])
        } else {
            vs[0] is Opaque
        })
        &&& wf_fields(
            defs,
            fds.subrange(1, fds.len() as int),
            vs.subrange(1, vs.len() as int),
        )
    })
}

pub proof fn lemma_wf_fields_index(defs: Seq<TypeDefV>, fds: Seq<FieldDefV>, vs: Seq<ValueV>)
    ensures
        wf_fields(defs, fds, vs) <==> (vs.len() == fds.len() && forall|k: int|
            0 <= k < vs.len() ==> wf_field(defs, #[trigger] fds[k], vs[k])),
    decreases vs,
{
    if vs.len() == fds.len() && vs.len() > 0 {
        let fds1 = fds.subrange(1, fds.len() as int);
        let vs1 = vs.subrange(1, vs.len() as int);
        lemma_wf_fields_index(defs, fds1, vs1);
        if wf_fields(defs, fds, vs) {
            assert forall|k: int| 0 <= k < vs.len() implies wf_field(
                defs,
                #[trigger] fds[k],
                vs[k],
            ) by {
                if k > 0 {
                    assert(wf_field(defs, fds1[k - 1], vs1[k - 1]));
                }
            }
        }
        if (vs.len() == fds.len() && forall|k: int|
            0 <= k < vs.len() ==> wf_field(defs, #[trigger] fds[k], vs[k])) {
            assert forall|k: int| 0 <= k < vs1.len() implies wf_field(
                defs,
                #[trigger] fds1[k],
                vs1[k],
            ) by {
                assert(wf_field(defs, fds[k + 1], vs[k + 1]));
            }
            assert(wf_field(defs, fds[0], vs[0]));
        }
    }
}

/// Whether one tolerant value slot is well formed for its field.
pub open spec fn tol_wf_field(tdefs: Seq<TolTypeDefV>, f: FieldDefV, v: TolValueV) -> bool {
    if f.evolvable {
        f.ty matches FieldTy::Named(j) && tol_wf(tdefs, j as int, v)
    } else {
        v is Opaque
    }
}

/// Whether a tolerant value is well formed at type `t` of the tolerant
/// table.  The synthetic catch-all arm is a valid form only for a union that
/// has one, and only when the captured fallback value is representable in
/// the selected fallback type.
pub open spec fn tol_wf(tdefs: Seq<TolTypeDefV>, t: int, v: TolValueV) -> bool
    decreases v,
{
    0 <= t < tdefs.len() && match tdefs[t] {
        TolTypeDefV::Record { fields, .. } => v matches TolValueV::Rec { fields: vs }
            && tol_wf_fields(tdefs, fields, vs),
        TolTypeDefV::Union { variants, catch_all, .. } => match v {
            TolValueV::Un { tag, fields: vs } => 0 <= tag < variants.len() && tol_wf_fields(
                tdefs,
                fields_of_variant(variants[tag as int].fields),
                vs,
            ),
            TolValueV::Unknown(d) => catch_all matches Some(fb) && fits(fb, d),
            _ => false,
        },
    }
}

pub open spec fn tol_wf_fields(
    tdefs: Seq<TolTypeDefV>,
    fds: Seq<FieldDefV>,
    vs: Seq<TolValueV>,
) -> bool
    decreases vs,
{
    vs.len() == fds.len() && (vs.len() == 0 || {
        &&& (if fds[0].evolvable {
            fds[0].ty matches FieldTy::Named(j) && tol_wf(tdefs, j as int, vs[0])
        } else {
            vs[0] is Opaque
        })
        &&& tol_wf_fields(
            tdefs,
            fds.subrange(1, fds.len() as int),
            vs.subrange(1, vs.len() as int),
        )
    })
}

pub proof fn lemma_tol_wf_fields_index(
    tdefs: Seq<TolTypeDefV>,
    fds: Seq<FieldDefV>,
    vs: Seq<TolValueV>,
)
    ensures
        tol_wf_fields(tdefs, fds, vs) <==> (vs.len() == fds.len() && forall|k: int|
            0 <= k < vs.len() ==> tol_wf_field(tdefs, #[trigger] fds[k], vs[k])),
    decreases vs,
{
    if vs.len() == fds.len() && vs.len() > 0 {
        let fds1 = fds.subrange(1, fds.len() as int);
        let vs1 = vs.subrange(1, vs.len() as int);
        lemma_tol_wf_fields_index(tdefs, fds1, vs1);
        if tol_wf_fields(tdefs, fds, vs) {
            assert forall|k: int| 0 <= k < vs.len() implies tol_wf_field(
                tdefs,
                #[trigger] fds[k],
                vs[k],
            ) by {
                if k > 0 {
                    assert(tol_wf_field(tdefs, fds1[k - 1], vs1[k - 1]));
                }
            }
        }
        if (vs.len() == fds.len() && forall|k: int|
            0 <= k < vs.len() ==> tol_wf_field(tdefs, #[trigger] fds[k], vs[k])) {
            assert forall|k: int| 0 <= k < vs1.len() implies tol_wf_field(
                tdefs,
                #[trigger] fds1[k],
                vs1[k],
            ) by {
                assert(tol_wf_field(tdefs, fds[k + 1], vs[k + 1]));
            }
            assert(tol_wf_field(tdefs, fds[0], vs[0]));
        }
    }
}

/// Whether a tolerant value holds no unrecognized content anywhere: exactly
/// the values on which an upgrade succeeds.
pub open spec fn clean(v: TolValueV) -> bool
    decreases v,
{
    match v {
        TolValueV::Rec { fields } => clean_seq(fields),
        TolValueV::Un { fields, .. } => clean_seq(fields),
        TolValueV::Unknown(_) => false,
        TolValueV::Opaque(_) => true,
    }
}

pub open spec fn clean_seq(vs: Seq<TolValueV>) -> bool
    decreases vs,
{
    vs.len() == 0 || (clean(vs[0]) && clean_seq(vs.subrange(1, vs.len() as int)))
}

/// The total downgrade: structure preserving, tag preserving, uninterpreted
/// content carried bit-identically.  It never produces the catch-all arm.
pub open spec fn spec_downgrade(v: ValueV) -> TolValueV
    decreases v,
{
    match v {
        ValueV::Rec { fields } => TolValueV::Rec { fields: spec_downgrade_seq(fields) },
        ValueV::Un { tag, fields } => TolValueV::Un { tag, fields: spec_downgrade_seq(fields) },
        ValueV::Opaque(d) => TolValueV::Opaque(d),
    }
}

pub open spec fn spec_downgrade_seq(vs: Seq<ValueV>) -> Seq<TolValueV>
    decreases vs,
{
    if vs.len() == 0 {
        Seq::empty()
    } else {
        spec_downgrade_seq(vs.subrange(0, vs.len() as int - 1)).push(
            spec_downgrade(vs[vs.len() as int - 1]),
        )
    }
}

pub proof fn lemma_spec_downgrade_seq(vs: Seq<ValueV>)
    ensures
        spec_downgrade_seq(vs).len() == vs.len(),
        forall|k: int| 0 <= k < vs.len() ==> spec_downgrade_seq(vs)[k] == spec_downgrade(vs[k]),
    decreases vs,
{
    if vs.len() > 0 {
        lemma_spec_downgrade_seq(vs.subrange(0, vs.len() as int - 1));
    }
}

/// The fallible upgrade of one field slot.
pub open spec fn up_field(tdefs: Seq<TolTypeDefV>, f: FieldDefV, v: TolValueV) -> Result<
    ValueV,
    ErrorV,
> {
    if f.evolvable {
        match f.ty {
            FieldTy::Named(j) => spec_upgrade(tdefs, j as int, v),
            FieldTy::Opaque => Ok(ValueV::Opaque(DynV::Null)),
        }
    } else {
        match v {
            TolValueV::Opaque(d) => Ok(ValueV::Opaque(d)),
            _ => Ok(ValueV::Opaque(DynV::Null)),
        }
    }
}

/// The fallible upgrade: all or nothing.  The catch-all arm fails at once
/// with the name of the union that held it; a union wraps a nested failure
/// by prepending its own type name to the path; a record propagates the
/// first failing field unchanged, in declaration order.
pub open spec fn spec_upgrade(tdefs: Seq<TolTypeDefV>, t: int, v: TolValueV) -> Result<
    ValueV,
    ErrorV,
>
    decreases v,
{
    match v {
        TolValueV::Unknown(_) => Err(
            ErrorV { ty: tol_name_of(tdefs[t]), path: Seq::empty() },
        ),
        TolValueV::Rec { fields } => match spec_upgrade_fields(
            tdefs,
            tol_rec_fields_of(tdefs[t]),
            fields,
        ) {
            Ok(ws) => Ok(ValueV::Rec { fields: ws }),
            Err(e) => Err(e),
        },
        TolValueV::Un { tag, fields } => match spec_upgrade_fields(
            tdefs,
            fields_of_variant(tol_variants_of(tdefs[t])[tag].fields),
            fields,
        ) {
            Ok(ws) => Ok(ValueV::Un { tag, fields: ws }),
            Err(e) => Err(ErrorV { ty: e.ty, path: seq![tol_name_of(tdefs[t])] + e.path }),
        },
        TolValueV::Opaque(d) => Ok(ValueV::Opaque(d)),
    }
}

pub open spec fn spec_upgrade_fields(
    tdefs: Seq<TolTypeDefV>,
    fds: Seq<FieldDefV>,
    vs: Seq<TolValueV>,
) -> Result<Seq<ValueV>, ErrorV>
    decreases vs,
{
    if vs.len() == 0 || fds.len() == 0 {
        Ok(Seq::empty())
    } else {
        let head = if fds[0].evolvable {
            match fds[0].ty {
                FieldTy::Named(j) => spec_upgrade(tdefs, j as int, vs[0]),
                FieldTy::Opaque => Ok(ValueV::Opaque(DynV::Null)),
            }
        } else {
            match vs[0] {
                TolValueV::Opaque(d) => Ok(ValueV::Opaque(d)),
                _ => Ok(ValueV::Opaque(DynV::Null)),
            }
        };
        match head {
            Err(e) => Err(e),
            Ok(w) => match spec_upgrade_fields(
                tdefs,
                fds.subrange(1, fds.len() as int),
                vs.subrange(1, vs.len() as int),
            ) {
                Err(e) => Err(e),
                Ok(ws) => Ok(seq![w] + ws),
            },
        }
    }
}

/// Downgrade: the tolerant form of a value.  Total, structure preserving,
/// and independent of the table: the value's own shape directs the walk.
pub fn downgrade(v: &Value) -> (r: TolValue)
    ensures
        r@ == spec_downgrade(v@),
    decreases v,
{
    match v {
        Value::Rec { fields } => TolValue::Rec { fields: downgrade_fields(fields) },
        Value::Un { tag, fields } => TolValue::Un { tag: *tag, fields: downgrade_fields(fields) },
        Value::Opaque(d) => TolValue::Opaque(d.duplicate()),
    }
}

fn downgrade_fields(vs: &Vec<Value>) -> (r: Vec<TolValue>)
    ensures
        view_tol_seq(r@) == spec_downgrade_seq(view_value_seq(vs@)),
    decreases vs,
{
    let mut r: Vec<TolValue> = Vec::new();
    let mut i: usize = 0;
    while i < vs.len()
        invariant
            0 <= i <= vs@.len(),
            r@.len() == i,
            forall|k: int| 0 <= k < i ==> view_tol(#[trigger] r@[k]) == spec_downgrade(
                view_value(vs@[k]),
            ),
        decreases vs@.len() - i,
    {
        let d = downgrade(&vs[i]);
        r.push(d);
        i = i + 1;
    }
    proof {
        lemma_view_tol_seq(r@);
        lemma_view_value_seq(vs@);
        lemma_spec_downgrade_seq(view_value_seq(vs@));
        assert(view_tol_seq(r@) =~= spec_downgrade_seq(view_value_seq(vs@)));
    }
    r
}

/// Upgrade: reinterpret a tolerant value of tolerant type `t` as the
/// original form.  All or nothing: either the fully constructed value comes
/// back, or the error naming the innermost union that held unrecognized
/// content, with the containing unions' names as the path, outermost first.
/// The tolerant value itself is read, not consumed, so it stays valid and
/// usable after a failed attempt.
pub fn upgrade(tdefs: &TolDefs, t: usize, v: &TolValue) -> (r: Result<Value, Error>)
    requires
        tol_wf(tdefs@, t as int, v@),
    ensures
        match r {
            Ok(w) => spec_upgrade(tdefs@, t as int, v@) == Ok::<ValueV, ErrorV>(w@),
            Err(e) => spec_upgrade(tdefs@, t as int, v@) == Err::<ValueV, ErrorV>(e@),
        },
    decreases v,
{
    match v {
        TolValue::Unknown(_) => {
            Err(Error::unknown_variant(crate::schema::tol_def_name(&tdefs.types[t]).clone()))
        },
        TolValue::Opaque(d) => Ok(Value::Opaque(d.duplicate())),
        TolValue::Rec { fields } => {
            let fds = match &tdefs.types[t] {
                TolTypeDef::Record { fields: fds, .. } => fds,
                TolTypeDef::Union { variants, .. } => {
                    proof {
                        assert(false);
                    }
                    return Err(Error::unknown_variant(String::new()));
                },
            };
            proof {
                assert(tol_rec_fields_of(tdefs@[t as int]) == fds.deep_view());
            }
            match upgrade_fields(tdefs, fds, fields) {
                Ok(ws) => Ok(Value::Rec { fields: ws }),
                Err(e) => Err(e),
            }
        },
        TolValue::Un { tag, fields } => {
            let vars = match &tdefs.types[t] {
                TolTypeDef::Union { variants, .. } => variants,
                TolTypeDef::Record { .. } => {
                    proof {
                        assert(false);
                    }
                    return Err(Error::unknown_variant(String::new()));
                },
            };
            proof {
                assert(tol_variants_of(tdefs@[t as int]) == vars.deep_view());
                assert(vars.deep_view()[*tag as int] == vars@[*tag as int].deep_view());
            }
            let empty_fields: Vec<FieldDef> = Vec::new();
            let fds = match &vars[*tag].fields {
                VariantFields::Unit => &empty_fields,
                VariantFields::Tuple(fds) => fds,
                VariantFields::Record(fds) => fds,
            };
            proof {
                assert(fields_of_variant(tol_variants_of(tdefs@[t as int])[*tag as int].fields)
                    =~= fds.deep_view());
            }
            match upgrade_fields(tdefs, fds, fields) {
                Ok(ws) => Ok(Value::Un { tag: *tag, fields: ws }),
                Err(e) => Err(e.extend(crate::schema::tol_def_name(&tdefs.types[t]).clone())),
            }
        },
    }
}

/// Upgrades the field slots of one record or variant, in declaration order,
/// stopping at the first failure.
fn upgrade_fields(tdefs: &TolDefs, fds: &Vec<FieldDef>, vs: &Vec<TolValue>) -> (r: Result<
    Vec<Value>,
    Error,
>)
    requires
        tol_wf_fields(tdefs@, fds.deep_view(), view_tol_seq(vs@)),
    ensures
        match r {
            Ok(ws) => spec_upgrade_fields(tdefs@, fds.deep_view(), view_tol_seq(vs@))
                == Ok::<Seq<ValueV>, ErrorV>(view_value_seq(ws@)),
            Err(e) => spec_upgrade_fields(tdefs@, fds.deep_view(), view_tol_seq(vs@))
                == Err::<Seq<ValueV>, ErrorV>(e@),
        },
    decreases vs,
{
    let ghost fdsv = fds.deep_view();
    let ghost vsv = view_tol_seq(vs@);
    let n = vs.len();
    proof {
        lemma_view_tol_seq(vs@);
        lemma_tol_wf_fields_index(tdefs@, fdsv, vsv);
        assert(vsv.subrange(0, vsv.len() as int) =~= vsv);
        assert(fdsv.subrange(0, fdsv.len() as int) =~= fdsv);
    }
    let mut ws: Vec<Value> = Vec::new();
    let mut k: usize = 0;
    while k < n
        invariant
            0 <= k <= n,
            n == vs@.len(),
            fdsv == fds.deep_view(),
            vsv == view_tol_seq(vs@),
            vsv.len() == n,
            fdsv.len() == n,
            forall|k2: int| 0 <= k2 < n ==> tol_wf_field(tdefs@, #[trigger] fdsv[k2], vsv[k2]),
            ws@.len() == k,
            spec_upgrade_fields(tdefs@, fdsv, vsv) == (match spec_upgrade_fields(
                tdefs@,
                fdsv.subrange(k as int, n as int),
                vsv.subrange(k as int, n as int),
            ) {
                Ok(rest) => Ok::<Seq<ValueV>, ErrorV>(view_value_seq(ws@) + rest),
                Err(e) => Err::<Seq<ValueV>, ErrorV>(e),
            }),
        decreases n - k,
    {
        let ghost fsuf = fdsv.subrange(k as int, n as int);
        let ghost vsuf = vsv.subrange(k as int, n as int);
        proof {
            lemma_view_tol_seq(vs@);
            assert(fsuf[0] == fdsv[k as int]);
            assert(vsuf[0] == vsv[k as int]);
            assert(fsuf.subrange(1, fsuf.len() as int) =~= fdsv.subrange(
                k as int + 1,
                n as int,
            ));
            assert(vsuf.subrange(1, vsuf.len() as int) =~= vsv.subrange(k as int + 1, n as int));
            assert(vsv[k as int] == view_tol(vs@[k as int]));
            assert(tol_wf_field(tdefs@, fdsv[k as int], vsv[k as int]));
        }
        let fd = &fds[k];
        proof {
            assert(fd.deep_view() == fdsv[k as int]);
        }
        let head: Value = if fd.evolvable {
            match fd.ty {
                FieldTy::Named(j) => {
                    match upgrade(tdefs, j, &vs[k]) {
                        Ok(w) => w,
                        Err(e) => {
                            proof {
                                assert(up_field(tdefs@, fdsv[k as int], vsv[k as int])
                                    == Err::<ValueV, ErrorV>(e@));
                                assert(spec_upgrade_fields(tdefs@, fsuf, vsuf)
                                    == Err::<Seq<ValueV>, ErrorV>(e@));
                            }
                            return Err(e);
                        },
                    }
                },
                FieldTy::Opaque => {
                    proof {
                        assert(false);
                    }
                    Value::Opaque(Dyn::Null)
                },
            }
        } else {
            match &vs[k] {
                TolValue::Opaque(d) => Value::Opaque(d.duplicate()),
                _ => {
                    proof {
                        assert(false);
                    }
                    Value::Opaque(Dyn::Null)
                },
            }
        };
        proof {
            assert(up_field(tdefs@, fdsv[k as int], vsv[k as int]) == Ok::<ValueV, ErrorV>(
                head@,
            ));
        }
        let ghost ws_prev = ws@;
        ws.push(head);
        proof {
            lemma_view_value_seq(ws@);
            lemma_view_value_seq(ws_prev);
            assert(ws@ =~= ws_prev.push(head));
            assert(view_value_seq(ws@) =~= view_value_seq(ws_prev).push(head@));
            let suf1 = spec_upgrade_fields(
                tdefs@,
                fdsv.subrange(k as int + 1, n as int),
                vsv.subrange(k as int + 1, n as int),
            );
            if suf1 is Ok {
                let rest = suf1->Ok_0;
                assert(view_value_seq(ws_prev) + (seq![head@] + rest) =~= view_value_seq(ws@)
                    + rest);
            }
        }
        k = k + 1;
    }
    proof {
        assert(fdsv.subrange(n as int, n as int) =~= Seq::<FieldDefV>::empty());
        assert(vsv.subrange(n as int, n as int) =~= Seq::<TolValueV>::empty());
        assert(spec_upgrade_fields(tdefs@, fdsv, vsv) == Ok::<Seq<ValueV>, ErrorV>(
            view_value_seq(ws@) + Seq::<ValueV>::empty(),
        ));
        assert(view_value_seq(ws@) + Seq::<ValueV>::empty() =~= view_value_seq(ws@));
    }
    Ok(ws)
}

// The statements below are the library's laws: they are proved once here and
// hold for every table and every well-formed value.

/// The shape fields governing a value: the record's fields, or the matched
/// variant's fields.
pub open spec fn value_shape_fields(defs: Seq<TypeDefV>, t: int, v: ValueV) -> Seq<FieldDefV> {
    match v {
        ValueV::Rec { .. } => rec_fields_of(defs[t]),
        ValueV::Un { tag, .. } => fields_of_variant(variants_of(defs[t])[tag].fields),
        ValueV::Opaque(_) => Seq::empty(),
    }
}

/// The shape fields governing a tolerant value.
pub open spec fn tol_shape_fields(tdefs: Seq<TolTypeDefV>, t: int, v: TolValueV) -> Seq<
    FieldDefV,
> {
    match v {
        TolValueV::Rec { .. } => tol_rec_fields_of(tdefs[t]),
        TolValueV::Un { tag, .. } => fields_of_variant(tol_variants_of(tdefs[t])[tag].fields),
        _ => Seq::empty(),
    }
}

/// The field values of a value.
pub open spec fn fields_of_value(v: ValueV) -> Seq<ValueV> {
    match v {
        ValueV::Rec { fields } => fields,
        ValueV::Un { fields, .. } => fields,
        ValueV::Opaque(_) => Seq::empty(),
    }
}

/// The field values of a tolerant value.
pub open spec fn fields_of_tol(v: TolValueV) -> Seq<TolValueV> {
    match v {
        TolValueV::Rec { fields } => fields,
        TolValueV::Un { fields, .. } => fields,
        _ => Seq::empty(),
    }
}

/// Round-trip idempotence: for any well-formed value of a base type with no
/// unrecognized content — every base value, since the downgrade never
/// produces the catch-all arm — upgrading its downgrade gives the value
/// back, unchanged.
pub proof fn lemma_upgrade_downgrade(
    defs: Seq<TypeDefV>,
    tdefs: Seq<TolTypeDefV>,
    dflt: Option<FallbackTy>,
    t: int,
    v: ValueV,
)
    requires
        mirrors_all(defs, tdefs, dflt),
        wf_value(defs, t, v),
    ensures
        spec_upgrade(tdefs, t, spec_downgrade(v)) == Ok::<ValueV, ErrorV>(v),
    decreases v,
{
    assert(mirrors(defs[t], tdefs[t], dflt));
    match v {
        ValueV::Rec { fields } => {
            let fds = rec_fields_of(defs[t]);
            assert(tol_rec_fields_of(tdefs[t]) == fds);
            lemma_upgrade_downgrade_fields(defs, tdefs, dflt, fds, fields);
        },
        ValueV::Un { tag, fields } => {
            let variants = variants_of(defs[t]);
            assert(tol_variants_of(tdefs[t]) == variants);
            let fds = fields_of_variant(variants[tag].fields);
            lemma_upgrade_downgrade_fields(defs, tdefs, dflt, fds, fields);
        },
        ValueV::Opaque(_) => {
            assert(false);
        },
    }
}

pub proof fn lemma_upgrade_downgrade_fields(
    defs: Seq<TypeDefV>,
    tdefs: Seq<TolTypeDefV>,
    dflt: Option<FallbackTy>,
    fds: Seq<FieldDefV>,
    vs: Seq<ValueV>,
)
    requires
        mirrors_all(defs, tdefs, dflt),
        wf_fields(defs, fds, vs),
    ensures
        spec_upgrade_fields(tdefs, fds, spec_downgrade_seq(vs)) == Ok::<Seq<ValueV>, ErrorV>(vs),
    decreases vs,
{
    lemma_spec_downgrade_seq(vs);
    let dgs = spec_downgrade_seq(vs);
    if vs.len() == 0 {
        assert(dgs =~= Seq::<TolValueV>::empty());
        assert(vs =~= Seq::<ValueV>::empty());
    } else {
        let fds1 = fds.subrange(1, fds.len() as int);
        let vs1 = vs.subrange(1, vs.len() as int);
        lemma_spec_downgrade_seq(vs1);
        assert(dgs.subrange(1, dgs.len() as int) =~= spec_downgrade_seq(vs1));
        if fds[0].evolvable {
            lemma_upgrade_downgrade(defs, tdefs, dflt, fds[0].ty->Named_0 as int, vs[0]);
        }
        lemma_upgrade_downgrade_fields(defs, tdefs, dflt, fds1, vs1);
        assert(seq![vs[0]] + vs1 =~= vs);
    }
}

/// Non-evolvable fields pass through the downgrade bit-identically: the slot
/// holds the same uninterpreted content before and after.
pub proof fn lemma_downgrade_passthrough(defs: Seq<TypeDefV>, t: int, v: ValueV, k: int)
    requires
        wf_value(defs, t, v),
        0 <= k < value_shape_fields(defs, t, v).len(),
        !value_shape_fields(defs, t, v)[k].evolvable,
    ensures
        fields_of_value(v)[k] is Opaque,
        fields_of_tol(spec_downgrade(v))[k] == TolValueV::Opaque(
            fields_of_value(v)[k]->Opaque_0,
        ),
{
    let fds = value_shape_fields(defs, t, v);
    let vs = fields_of_value(v);
    lemma_wf_fields_index(defs, fds, vs);
    assert(wf_field(defs, fds[k], vs[k]));
    lemma_spec_downgrade_seq(vs);
}

/// The upgrade of one record's or variant's slots, slot by slot: when the
/// whole list succeeds, each slot is exactly its own upgrade.
pub proof fn lemma_upgrade_fields_ok_index(
    tdefs: Seq<TolTypeDefV>,
    fds: Seq<FieldDefV>,
    vs: Seq<TolValueV>,
)
    requires
        vs.len() == fds.len(),
        spec_upgrade_fields(tdefs, fds, vs) is Ok,
    ensures
        spec_upgrade_fields(tdefs, fds, vs)->Ok_0.len() == vs.len(),
        forall|k: int| 0 <= k < vs.len() ==> up_field(tdefs, #[trigger] fds[k], vs[k])
            == Ok::<ValueV, ErrorV>(spec_upgrade_fields(tdefs, fds, vs)->Ok_0[k]),
    decreases vs,
{
    if vs.len() > 0 {
        let fds1 = fds.subrange(1, fds.len() as int);
        let vs1 = vs.subrange(1, vs.len() as int);
        lemma_upgrade_fields_ok_index(tdefs, fds1, vs1);
        let ws = spec_upgrade_fields(tdefs, fds, vs)->Ok_0;
        let ws1 = spec_upgrade_fields(tdefs, fds1, vs1)->Ok_0;
        assert(ws =~= seq![ws[0]] + ws1);
        assert forall|k: int| 0 <= k < vs.len() implies up_field(tdefs, #[trigger] fds[k], vs[k])
            == Ok::<ValueV, ErrorV>(ws[k]) by {
            if k > 0 {
                assert(up_field(tdefs, fds1[k - 1], vs1[k - 1]) == Ok::<ValueV, ErrorV>(
                    ws1[k - 1],
                ));
            }
        }
    }
}

/// Non-evolvable fields pass through a successful upgrade bit-identically.
pub proof fn lemma_upgrade_passthrough(
    tdefs: Seq<TolTypeDefV>,
    t: int,
    tv: TolValueV,
    w: ValueV,
    k: int,
)
    requires
        tol_wf(tdefs, t, tv),
        spec_upgrade(tdefs, t, tv) == Ok::<ValueV, ErrorV>(w),
        0 <= k < tol_shape_fields(tdefs, t, tv).len(),
        !tol_shape_fields(tdefs, t, tv)[k].evolvable,
    ensures
        fields_of_tol(tv)[k] is Opaque,
        fields_of_value(w)[k] == ValueV::Opaque(fields_of_tol(tv)[k]->Opaque_0),
{
    let fds = tol_shape_fields(tdefs, t, tv);
    let vs = fields_of_tol(tv);
    lemma_tol_wf_fields_index(tdefs, fds, vs);
    assert(tol_wf_field(tdefs, fds[k], vs[k]));
    match tv {
        TolValueV::Rec { fields } => {
            lemma_upgrade_fields_ok_index(tdefs, fds, fields);
        },
        TolValueV::Un { tag, fields } => {
            lemma_upgrade_fields_ok_index(tdefs, fds, fields);
        },
        _ => {
            assert(false);
        },
    }
}

/// Nested path correctness: three nested tagged unions, where only the
/// innermost holds unrecognized content, fail to upgrade with the innermost
/// type as the visible leaf and the containing unions on the path, outermost
/// first.
pub proof fn lemma_nested_error_path(
    tdefs: Seq<TolTypeDefV>,
    a: int,
    b: int,
    c: int,
    va: TolValueV,
    vb: TolValueV,
    vc: TolValueV,
    ta: int,
    tb: int,
)
    requires
        tol_wf(tdefs, a, va),
        va == (TolValueV::Un { tag: ta, fields: seq![vb] }),
        vb == (TolValueV::Un { tag: tb, fields: seq![vc] }),
        vc matches TolValueV::Unknown(_),
        fields_of_variant(tol_variants_of(tdefs[a])[ta].fields).len() == 1,
        fields_of_variant(tol_variants_of(tdefs[a])[ta].fields)[0].evolvable,
        fields_of_variant(tol_variants_of(tdefs[a])[ta].fields)[0].ty matches FieldTy::Named(j)
            && j as int == b,
        fields_of_variant(tol_variants_of(tdefs[b])[tb].fields).len() == 1,
        fields_of_variant(tol_variants_of(tdefs[b])[tb].fields)[0].evolvable,
        fields_of_variant(tol_variants_of(tdefs[b])[tb].fields)[0].ty matches FieldTy::Named(j2)
            && j2 as int == c,
    ensures
        spec_upgrade(tdefs, a, va) == Err::<ValueV, ErrorV>(
            ErrorV {
                ty: tol_name_of(tdefs[c]),
                path: seq![tol_name_of(tdefs[a]), tol_name_of(tdefs[b])],
            },
        ),
{
    let fa = fields_of_variant(tol_variants_of(tdefs[a])[ta].fields);
    let fb = fields_of_variant(tol_variants_of(tdefs[b])[tb].fields);
    assert(spec_upgrade(tdefs, c, vc) == Err::<ValueV, ErrorV>(
        ErrorV { ty: tol_name_of(tdefs[c]), path: Seq::empty() },
    ));
    assert(spec_upgrade_fields(tdefs, fb, seq![vc]) == Err::<Seq<ValueV>, ErrorV>(
        ErrorV { ty: tol_name_of(tdefs[c]), path: Seq::empty() },
    ));
    assert(spec_upgrade(tdefs, b, vb) == Err::<ValueV, ErrorV>(
        ErrorV {
            ty: tol_name_of(tdefs[c]),
            path: seq![tol_name_of(tdefs[b])] + Seq::<Seq<char>>::empty(),
        },
    ));
    assert(spec_upgrade_fields(tdefs, fa, seq![vb]) == Err::<Seq<ValueV>, ErrorV>(
        ErrorV {
            ty: tol_name_of(tdefs[c]),
            path: seq![tol_name_of(tdefs[b])] + Seq::<Seq<char>>::empty(),
        },
    ));
    assert(seq![tol_name_of(tdefs[a])] + (seq![tol_name_of(tdefs[b])]
        + Seq::<Seq<char>>::empty()) =~= seq![tol_name_of(tdefs[a]), tol_name_of(tdefs[b])]);
}

/// When the upgrade is owed success: exactly on the tolerant values that
/// hold no unrecognized content anywhere.
pub proof fn lemma_upgrade_ok_iff_clean(tdefs: Seq<TolTypeDefV>, t: int, tv: TolValueV)
    requires
        tol_wf(tdefs, t, tv),
    ensures
        spec_upgrade(tdefs, t, tv) is Ok <==> clean(tv),
    decreases tv,
{
    match tv {
        TolValueV::Rec { fields } => {
            lemma_upgrade_ok_iff_clean_fields(tdefs, tol_rec_fields_of(tdefs[t]), fields);
        },
        TolValueV::Un { tag, fields } => {
            lemma_upgrade_ok_iff_clean_fields(
                tdefs,
                fields_of_variant(tol_variants_of(tdefs[t])[tag].fields),
                fields,
            );
        },
        _ => {},
    }
}

pub proof fn lemma_upgrade_ok_iff_clean_fields(
    tdefs: Seq<TolTypeDefV>,
    fds: Seq<FieldDefV>,
    vs: Seq<TolValueV>,
)
    requires
        tol_wf_fields(tdefs, fds, vs),
    ensures
        spec_upgrade_fields(tdefs, fds, vs) is Ok <==> clean_seq(vs),
    decreases vs,
{
    if vs.len() > 0 {
        let fds1 = fds.subrange(1, fds.len() as int);
        let vs1 = vs.subrange(1, vs.len() as int);
        if fds[0].evolvable {
            lemma_upgrade_ok_iff_clean(tdefs, fds[0].ty->Named_0 as int, vs[0]);
        }
        lemma_upgrade_ok_iff_clean_fields(tdefs, fds1, vs1);
        assert(spec_upgrade_fields(tdefs, fds1, vs1) is Ok <==> clean_seq(vs1));
        assert(clean_seq(vs) <==> (clean(vs[0]) && clean_seq(vs1)));
        if fds[0].evolvable {
            assert(spec_upgrade(tdefs, fds[0].ty->Named_0 as int, vs[0]) is Ok <==> clean(
                vs[0],
            ));
        } else {
            assert(clean(vs[0]));
        }
        assert(spec_upgrade_fields(tdefs, fds, vs) is Ok <==> (clean(vs[0]) && clean_seq(vs1)));
    }
}

} // verus!
