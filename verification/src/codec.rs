//! The reference wire form: a canonical self-describing encoding of values
//! into [`Dyn`] trees, and the decoder for tolerant shapes.
//!
//! A record encodes as the list of its field encodings.  A declared variant
//! encodes as its tag — the variant name — alone for a unit variant, or at
//! the head of the payload list.  A declared untagged arm and the synthetic
//! catch-all arm re-emit their captured payload verbatim, which is what
//! makes the round trip of unrecognized data lossless.  The decoder tries
//! the declared tags first, in order, and falls back to the untagged arm or
//! the catch-all arm only when no declared tag matches.

use vstd::prelude::*;
use crate::schema::FieldDefV;
use crate::schema::FieldTy;
use crate::schema::FallbackTy;
use crate::schema::TolTypeDefV;
use crate::schema::TypeDefV;
use crate::schema::VariantDefV;
use crate::schema::VariantFieldsV;
use crate::schema::fields_of_variant;
use crate::schema::has_untagged;
use crate::schema::Defs;
use crate::schema::FieldDef;
use crate::schema::TolDefs;
use crate::schema::TolTypeDef;
use crate::schema::TypeDef;
use crate::schema::VariantDef;
use crate::schema::VariantFields;
use crate::value::Dyn;
use crate::value::DynV;
use crate::value::TolValue;
use crate::value::Value;
use crate::value::TolValueV;
use crate::value::ValueV;
use crate::schema::mirrors;
use crate::schema::mirrors_all;
use crate::schema::name_of;
use crate::schema::tol_name_of;
use crate::convert::fits;
use crate::convert::lemma_spec_downgrade_seq;
use crate::convert::lemma_tol_wf_fields_index;
use crate::convert::lemma_wf_fields_index;
use crate::convert::spec_downgrade;
use crate::convert::spec_downgrade_seq;
use crate::convert::tol_wf;
use crate::convert::tol_wf_fields;
use crate::convert::wf_fields;
use crate::convert::wf_value;
use crate::convert::rec_fields_of;
use crate::convert::tol_catch_all_of;
use crate::convert::tol_rec_fields_of;
use crate::convert::tol_variants_of;
use crate::convert::variants_of;

verus! {

/// Whether wire data carries the tag of this declared variant: the bare name
/// for a unit variant, the name at the head of a list otherwise.  An
/// untagged arm has no tag on the wire, so nothing matches it here.
pub open spec fn tag_match(v: VariantDefV, d: DynV) -> bool {
    !v.untagged && match v.fields {
        VariantFieldsV::Unit => d == DynV::Text(v.name),
        VariantFieldsV::Tuple(_) => d matches DynV::List(items) && items.len() >= 1 && items[0]
            == DynV::Text(v.name),
        VariantFieldsV::Record(_) => d matches DynV::List(items) && items.len() >= 1 && items[0]
            == DynV::Text(v.name),
    }
}

/// The first declared variant whose tag the wire data carries, in
/// declaration order: the decoder commits to it.
pub open spec fn first_tag_match(variants: Seq<VariantDefV>, d: DynV) -> Option<int>
    decreases variants.len(),
{
    if variants.len() == 0 {
        None
    } else if tag_match(variants[0], d) {
        Some(0int)
    } else {
        match first_tag_match(variants.subrange(1, variants.len() as int), d) {
            Some(i) => Some(i + 1),
            None => None,
        }
    }
}

pub open spec fn any_tag_match(variants: Seq<VariantDefV>, d: DynV) -> bool {
    exists|k: int| 0 <= k < variants.len() && tag_match(#[trigger] variants[k], d)
}

pub proof fn lemma_first_tag_match(variants: Seq<VariantDefV>, d: DynV)
    ensures
        first_tag_match(variants, d) matches Some(i) ==> 0 <= i < variants.len() && tag_match(
            variants[i],
            d,
        ) && (forall|k: int| 0 <= k < i ==> !tag_match(#[trigger] variants[k], d)),
        first_tag_match(variants, d) is None <==> !any_tag_match(variants, d),
    decreases variants.len(),
{
    if variants.len() > 0 {
        let rest = variants.subrange(1, variants.len() as int);
        lemma_first_tag_match(rest, d);
        if !tag_match(variants[0], d) {
            match first_tag_match(rest, d) {
                Some(i) => {
                    assert(rest[i] == variants[i + 1]);
                    assert forall|k: int| 0 <= k < i + 1 implies !tag_match(
                        #[trigger] variants[k],
                        d,
                    ) by {
                        if k > 0 {
                            assert(!tag_match(rest[k - 1], d));
                        }
                    }
                },
                None => {
                    if any_tag_match(variants, d) {
                        let k = choose|k: int|
                            0 <= k < variants.len() && tag_match(#[trigger] variants[k], d);
                        assert(k > 0);
                        assert(tag_match(rest[k - 1], d));
                    }
                },
            }
        }
    }
}

/// The first declared untagged arm, if any.
pub open spec fn first_untagged(variants: Seq<VariantDefV>) -> Option<int>
    decreases variants.len(),
{
    if variants.len() == 0 {
        None
    } else if variants[0].untagged {
        Some(0int)
    } else {
        match first_untagged(variants.subrange(1, variants.len() as int)) {
            Some(i) => Some(i + 1),
            None => None,
        }
    }
}

pub proof fn lemma_first_untagged(variants: Seq<VariantDefV>)
    ensures
        first_untagged(variants) matches Some(i) ==> 0 <= i < variants.len()
            && variants[i].untagged,
        first_untagged(variants) is Some <==> has_untagged(variants),
    decreases variants.len(),
{
    if variants.len() > 0 {
        let rest = variants.subrange(1, variants.len() as int);
        lemma_first_untagged(rest);
        if !variants[0].untagged {
            match first_untagged(rest) {
                Some(i) => {
                    assert(rest[i] == variants[i + 1]);
                },
                None => {
                    if has_untagged(variants) {
                        let k = choose|k: int|
                            0 <= k < variants.len() && (#[trigger] variants[k]).untagged;
                        assert(k > 0);
                        assert(rest[k - 1].untagged);
                    }
                },
            }
        }
    }
}

/// The wire form of a value of source type `t`.
pub open spec fn enc_value(defs: Seq<TypeDefV>, t: int, v: ValueV) -> DynV
    decreases v,
{
    match v {
        ValueV::Opaque(d) => d,
        ValueV::Rec { fields } => DynV::List(enc_fields(defs, rec_fields_of(defs[t]), fields)),
        ValueV::Un { tag, fields } => {
            let variant = variants_of(defs[t])[tag];
            if variant.untagged {
                if fields.len() == 1 && fields[0] is Opaque {
                    fields[0]->Opaque_0
                } else {
                    DynV::Null
                }
            } else {
                match variant.fields {
                    VariantFieldsV::Unit => DynV::Text(variant.name),
                    _ => DynV::List(
                        seq![DynV::Text(variant.name)] + enc_fields(
                            defs,
                            fields_of_variant(variant.fields),
                            fields,
                        ),
                    ),
                }
            }
        },
    }
}

pub open spec fn enc_fields(defs: Seq<TypeDefV>, fds: Seq<FieldDefV>, vs: Seq<ValueV>) -> Seq<
    DynV,
>
    decreases vs,
{
    if vs.len() == 0 {
        Seq::empty()
    } else {
        let head = if 0 < fds.len() && fds[0].evolvable && fds[0].ty is Named {
            enc_value(defs, fds[0].ty->Named_0 as int, vs[0])
        } else {
            match vs[0] {
                ValueV::Opaque(d) => d,
                _ => DynV::Null,
            }
        };
        seq![head] + enc_fields(
            defs,
            fds.subrange(if fds.len() > 0 { 1int } else { 0int }, fds.len() as int),
            vs.subrange(1, vs.len() as int),
        )
    }
}

pub proof fn lemma_enc_fields_len(defs: Seq<TypeDefV>, fds: Seq<FieldDefV>, vs: Seq<ValueV>)
    ensures
        enc_fields(defs, fds, vs).len() == vs.len(),
    decreases vs,
{
    if vs.len() > 0 {
        lemma_enc_fields_len(
            defs,
            fds.subrange(if fds.len() > 0 { 1int } else { 0int }, fds.len() as int),
            vs.subrange(1, vs.len() as int),
        );
    }
}

/// The wire form of a tolerant value of tolerant type `t`.  The catch-all
/// arm re-emits the captured fallback value verbatim.
pub open spec fn enc_tol(tdefs: Seq<TolTypeDefV>, t: int, v: TolValueV) -> DynV
    decreases v,
{
    match v {
        TolValueV::Opaque(d) => d,
        TolValueV::Unknown(d) => d,
        TolValueV::Rec { fields } => DynV::List(
            enc_tol_fields(tdefs, tol_rec_fields_of(tdefs[t]), fields),
        ),
        TolValueV::Un { tag, fields } => {
            let variant = tol_variants_of(tdefs[t])[tag];
            if variant.untagged {
                if fields.len() == 1 && fields[0] is Opaque {
                    fields[0]->Opaque_0
                } else {
                    DynV::Null
                }
            } else {
                match variant.fields {
                    VariantFieldsV::Unit => DynV::Text(variant.name),
                    _ => DynV::List(
                        seq![DynV::Text(variant.name)] + enc_tol_fields(
                            tdefs,
                            fields_of_variant(variant.fields),
                            fields,
                        ),
                    ),
                }
            }
        },
    }
}

pub open spec fn enc_tol_fields(
    tdefs: Seq<TolTypeDefV>,
    fds: Seq<FieldDefV>,
    vs: Seq<TolValueV>,
) -> Seq<DynV>
    decreases vs,
{
    if vs.len() == 0 {
        Seq::empty()
    } else {
        let head = if 0 < fds.len() && fds[0].evolvable && fds[0].ty is Named {
            enc_tol(tdefs, fds[0].ty->Named_0 as int, vs[0])
        } else {
            match vs[0] {
                TolValueV::Opaque(d) => d,
                _ => DynV::Null,
            }
        };
        seq![head] + enc_tol_fields(
            tdefs,
            fds.subrange(if fds.len() > 0 { 1int } else { 0int }, fds.len() as int),
            vs.subrange(1, vs.len() as int),
        )
    }
}

pub proof fn lemma_enc_tol_fields_len(
    tdefs: Seq<TolTypeDefV>,
    fds: Seq<FieldDefV>,
    vs: Seq<TolValueV>,
)
    ensures
        enc_tol_fields(tdefs, fds, vs).len() == vs.len(),
    decreases vs,
{
    if vs.len() > 0 {
        lemma_enc_tol_fields_len(
            tdefs,
            fds.subrange(if fds.len() > 0 { 1int } else { 0int }, fds.len() as int),
            vs.subrange(1, vs.len() as int),
        );
    }
}

/// The decoder for a tolerant type: try the declared tags in order and
/// commit to the first match; with no match, capture the whole payload in
/// the declared untagged arm if there is one, else in the synthetic
/// catch-all arm if its fallback type can represent the payload; else the
/// data cannot be decoded at this type.
pub open spec fn dec_tol(tdefs: Seq<TolTypeDefV>, t: int, d: DynV) -> Option<TolValueV>
    decreases d,
    via dec_tol_decreases
{
    match tdefs[t] {
        TolTypeDefV::Record { fields: fds, .. } => match d {
            DynV::List(items) => if items.len() == fds.len() {
                match dec_fields(tdefs, fds, items) {
                    Some(vs) => Some(TolValueV::Rec { fields: vs }),
                    None => None,
                }
            } else {
                None
            },
            _ => None,
        },
        TolTypeDefV::Union { variants, catch_all, .. } => match first_tag_match(variants, d) {
            Some(i) => {
                let variant = variants[i];
                match variant.fields {
                    VariantFieldsV::Unit => Some(
                        TolValueV::Un { tag: i, fields: Seq::empty() },
                    ),
                    _ => {
                        let items = d->List_0;
                        let fds = fields_of_variant(variant.fields);
                        if items.len() == fds.len() + 1 {
                            match dec_fields(
                                tdefs,
                                fds,
                                items.subrange(1, items.len() as int),
                            ) {
                                Some(vs) => Some(TolValueV::Un { tag: i, fields: vs }),
                                None => None,
                            }
                        } else {
                            None
                        }
                    },
                }
            },
            None => match first_untagged(variants) {
                Some(u) => Some(
                    TolValueV::Un { tag: u, fields: seq![TolValueV::Opaque(d)] },
                ),
                None => match catch_all {
                    Some(fb) => if fits(fb, d) {
                        Some(TolValueV::Unknown(d))
                    } else {
                        None
                    },
                    None => None,
                },
            },
        },
    }
}

#[via_fn]
proof fn dec_tol_decreases(tdefs: Seq<TolTypeDefV>, t: int, d: DynV) {
    match tdefs[t] {
        TolTypeDefV::Union { variants, .. } => {
            lemma_first_tag_match(variants, d);
            match first_tag_match(variants, d) {
                Some(i) => {
                    if !(variants[i].fields is Unit) {
                        assert(tag_match(variants[i], d));
                        assert(d is List);
                        let items = d->List_0;
                        assert(decreases_to!(d => items));
                        if items.len() >= 1 {
                            assert(decreases_to!(items => items.subrange(
                                1,
                                items.len() as int,
                            )));
                            assert(decreases_to!(d => items.subrange(1, items.len() as int)));
                        }
                    }
                },
                None => {},
            }
        },
        _ => {},
    }
}

pub open spec fn dec_fields(tdefs: Seq<TolTypeDefV>, fds: Seq<FieldDefV>, items: Seq<DynV>) -> Option<
    Seq<TolValueV>,
>
    decreases items,
{
    if items.len() != fds.len() {
        None
    } else if items.len() == 0 {
        Some(Seq::empty())
    } else {
        let head = if fds[0].evolvable && fds[0].ty is Named {
            dec_tol(tdefs, fds[0].ty->Named_0 as int, items[0])
        } else {
            Some(TolValueV::Opaque(items[0]))
        };
        match head {
            None => None,
            Some(v) => match dec_fields(
                tdefs,
                fds.subrange(1, fds.len() as int),
                items.subrange(1, items.len() as int),
            ) {
                None => None,
                Some(vs) => Some(seq![v] + vs),
            },
        }
    }
}

/// The structural conditions the wire form needs from a union: distinct
/// variant names, at most one declared untagged arm (which captures one
/// uninterpreted payload), and no untagged arm beside a catch-all arm.
pub open spec fn variants_codec_ok(variants: Seq<VariantDefV>) -> bool {
    &&& forall|k1: int, k2: int|
        0 <= k1 < k2 < variants.len() ==> (#[trigger] variants[k1]).name != (
        #[trigger] variants[k2]).name
    &&& forall|k1: int, k2: int|
        0 <= k1 < variants.len() && 0 <= k2 < variants.len() && (#[trigger] variants[k1]).untagged
            && (#[trigger] variants[k2]).untagged ==> k1 == k2
    &&& forall|k: int| 0 <= k < variants.len() && (#[trigger] variants[k]).untagged ==> {
        &&& fields_of_variant(variants[k].fields).len() == 1
        &&& !fields_of_variant(variants[k].fields)[0].evolvable
        &&& !(variants[k].fields is Unit)
    }
}

pub open spec fn type_codec_ok(t: TolTypeDefV) -> bool {
    match t {
        TolTypeDefV::Record { .. } => true,
        TolTypeDefV::Union { variants, catch_all, .. } => variants_codec_ok(variants) && (
        catch_all is Some ==> !has_untagged(variants)),
    }
}

pub open spec fn codec_ok(tdefs: Seq<TolTypeDefV>) -> bool {
    forall|t: int| 0 <= t < tdefs.len() ==> type_codec_ok(#[trigger] tdefs[t])
}

/// The value-side condition for a lossless re-emission: a payload captured
/// verbatim — by the catch-all arm or by a declared untagged arm — must not
/// carry any declared tag of its union, or re-decoding it would commit to
/// that tag instead.
pub open spec fn enc_ok(tdefs: Seq<TolTypeDefV>, t: int, v: TolValueV) -> bool
    decreases v,
{
    match v {
        TolValueV::Rec { fields } => enc_ok_fields(tdefs, tol_rec_fields_of(tdefs[t]), fields),
        TolValueV::Un { tag, fields } => {
            let variants = tol_variants_of(tdefs[t]);
            &&& (variants[tag].untagged && fields.len() == 1 && fields[0] is Opaque
                ==> !any_tag_match(variants, fields[0]->Opaque_0))
            &&& enc_ok_fields(tdefs, fields_of_variant(variants[tag].fields), fields)
        },
        TolValueV::Unknown(d) => !any_tag_match(tol_variants_of(tdefs[t]), d),
        TolValueV::Opaque(_) => true,
    }
}

pub open spec fn enc_ok_fields(
    tdefs: Seq<TolTypeDefV>,
    fds: Seq<FieldDefV>,
    vs: Seq<TolValueV>,
) -> bool
    decreases vs,
{
    vs.len() == 0 || {
        &&& (fds.len() > 0 && fds[0].evolvable && fds[0].ty is Named ==> enc_ok(
            tdefs,
            fds[0].ty->Named_0 as int,
            vs[0],
        ))
        &&& enc_ok_fields(
            tdefs,
            fds.subrange(if fds.len() > 0 { 1int } else { 0int }, fds.len() as int),
            vs.subrange(1, vs.len() as int),
        )
    }
}

/// The matching value-side condition on source values.
pub open spec fn base_enc_ok(defs: Seq<TypeDefV>, t: int, v: ValueV) -> bool
    decreases v,
{
    match v {
        ValueV::Rec { fields } => base_enc_ok_fields(defs, rec_fields_of(defs[t]), fields),
        ValueV::Un { tag, fields } => {
            let variants = variants_of(defs[t]);
            &&& (variants[tag].untagged && fields.len() == 1 && fields[0] is Opaque
                ==> !any_tag_match(variants, fields[0]->Opaque_0))
            &&& base_enc_ok_fields(defs, fields_of_variant(variants[tag].fields), fields)
        },
        ValueV::Opaque(_) => true,
    }
}

pub open spec fn base_enc_ok_fields(
    defs: Seq<TypeDefV>,
    fds: Seq<FieldDefV>,
    vs: Seq<ValueV>,
) -> bool
    decreases vs,
{
    vs.len() == 0 || {
        &&& (fds.len() > 0 && fds[0].evolvable && fds[0].ty is Named ==> base_enc_ok(
            defs,
            fds[0].ty->Named_0 as int,
            vs[0],
        ))
        &&& base_enc_ok_fields(
            defs,
            fds.subrange(if fds.len() > 0 { 1int } else { 0int }, fds.len() as int),
            vs.subrange(1, vs.len() as int),
        )
    }
}

/// Byte stability: a base value and its downgrade put the same bytes on the
/// wire, so switching a writer to the tolerant shape changes nothing that a
/// reader can see.
pub proof fn lemma_encode_stable(
    defs: Seq<TypeDefV>,
    tdefs: Seq<TolTypeDefV>,
    dflt: Option<FallbackTy>,
    t: int,
    v: ValueV,
)
    requires
        mirrors_all(defs, tdefs, dflt),
        wf_value(defs, t, v),
    ensures
        enc_tol(tdefs, t, spec_downgrade(v)) == enc_value(defs, t, v),
    decreases v,
{
    assert(mirrors(defs[t], tdefs[t], dflt));
    match v {
        ValueV::Rec { fields } => {
            lemma_encode_stable_fields(defs, tdefs, dflt, rec_fields_of(defs[t]), fields);
        },
        ValueV::Un { tag, fields } => {
            let variants = variants_of(defs[t]);
            assert(tol_variants_of(tdefs[t]) == variants);
            let fds = fields_of_variant(variants[tag].fields);
            lemma_encode_stable_fields(defs, tdefs, dflt, fds, fields);
            lemma_spec_downgrade_seq(fields);
            if variants[tag].untagged {
                lemma_wf_fields_index(defs, fds, fields);
            }
        },
        ValueV::Opaque(_) => {
            assert(false);
        },
    }
}

pub proof fn lemma_encode_stable_fields(
    defs: Seq<TypeDefV>,
    tdefs: Seq<TolTypeDefV>,
    dflt: Option<FallbackTy>,
    fds: Seq<FieldDefV>,
    vs: Seq<ValueV>,
)
    requires
        mirrors_all(defs, tdefs, dflt),
        wf_fields(defs, fds, vs),
    ensures
        enc_tol_fields(tdefs, fds, spec_downgrade_seq(vs)) == enc_fields(defs, fds, vs),
    decreases vs,
{
    lemma_spec_downgrade_seq(vs);
    let dgs = spec_downgrade_seq(vs);
    if vs.len() > 0 {
        let fds1 = fds.subrange(1, fds.len() as int);
        let vs1 = vs.subrange(1, vs.len() as int);
        lemma_spec_downgrade_seq(vs1);
        assert(dgs.subrange(1, dgs.len() as int) =~= spec_downgrade_seq(vs1));
        if fds[0].evolvable {
            lemma_encode_stable(defs, tdefs, dflt, fds[0].ty->Named_0 as int, vs[0]);
        }
        lemma_encode_stable_fields(defs, tdefs, dflt, fds1, vs1);
    } else {
        assert(dgs =~= Seq::<TolValueV>::empty());
    }
}

/// Converse direction of the tag scan: the tag that matches first is found.
pub proof fn lemma_first_tag_match_at(variants: Seq<VariantDefV>, d: DynV, i: int)
    requires
        0 <= i < variants.len(),
        tag_match(variants[i], d),
        forall|k: int| 0 <= k < i ==> !tag_match(#[trigger] variants[k], d),
    ensures
        first_tag_match(variants, d) == Some(i),
    decreases variants.len(),
{
    if i > 0 {
        let rest = variants.subrange(1, variants.len() as int);
        assert(rest[i - 1] == variants[i]);
        assert forall|k: int| 0 <= k < i - 1 implies !tag_match(#[trigger] rest[k], d) by {
            assert(!tag_match(variants[k + 1], d));
        }
        lemma_first_tag_match_at(rest, d, i - 1);
    }
}

pub proof fn lemma_first_untagged_at(variants: Seq<VariantDefV>, i: int)
    requires
        0 <= i < variants.len(),
        variants[i].untagged,
        forall|k1: int, k2: int|
            0 <= k1 < variants.len() && 0 <= k2 < variants.len() && (
            #[trigger] variants[k1]).untagged && (#[trigger] variants[k2]).untagged ==> k1 == k2,
    ensures
        first_untagged(variants) == Some(i),
    decreases variants.len(),
{
    if i > 0 {
        let rest = variants.subrange(1, variants.len() as int);
        assert(rest[i - 1] == variants[i]);
        assert forall|k1: int, k2: int|
            0 <= k1 < rest.len() && 0 <= k2 < rest.len() && (#[trigger] rest[k1]).untagged && (
            #[trigger] rest[k2]).untagged implies k1 == k2 by {
            assert(variants[k1 + 1].untagged && variants[k2 + 1].untagged);
        }
        lemma_first_untagged_at(rest, i - 1);
    }
}

/// Decoding what was encoded gives the same tolerant value back: the wire
/// form is lossless, in particular for captured unknown payloads, which are
/// re-emitted and re-captured verbatim.
pub proof fn lemma_decode_encode(tdefs: Seq<TolTypeDefV>, t: int, tv: TolValueV)
    requires
        codec_ok(tdefs),
        tol_wf(tdefs, t, tv),
        enc_ok(tdefs, t, tv),
    ensures
        dec_tol(tdefs, t, enc_tol(tdefs, t, tv)) == Some(tv),
    decreases tv,
{
    assert(type_codec_ok(tdefs[t]));
    match tv {
        TolValueV::Rec { fields } => {
            let fds = tol_rec_fields_of(tdefs[t]);
            lemma_enc_tol_fields_len(tdefs, fds, fields);
            lemma_decode_encode_fields(tdefs, fds, fields);
        },
        TolValueV::Un { tag, fields } => {
            let variants = tol_variants_of(tdefs[t]);
            let variant = variants[tag];
            let fds = fields_of_variant(variant.fields);
            let e = enc_tol(tdefs, t, tv);
            if variant.untagged {
                lemma_tol_wf_fields_index(tdefs, fds, fields);
                assert(fields[0] is Opaque);
                let d0 = fields[0]->Opaque_0;
                assert(e == d0);
                lemma_first_tag_match(variants, e);
                assert(first_tag_match(variants, e) is None);
                lemma_first_untagged_at(variants, tag);
                assert(seq![TolValueV::Opaque(d0)] =~= fields);
            } else {
                match variant.fields {
                    VariantFieldsV::Unit => {
                        assert(tag_match(variant, e));
                        assert forall|k: int| 0 <= k < tag implies !tag_match(
                            #[trigger] variants[k],
                            e,
                        ) by {
                            assert(variants[k].name != variant.name);
                        }
                        lemma_first_tag_match_at(variants, e, tag);
                        assert(fields =~= Seq::<TolValueV>::empty());
                    },
                    _ => {
                        lemma_enc_tol_fields_len(tdefs, fds, fields);
                        let payload = enc_tol_fields(tdefs, fds, fields);
                        assert(e == DynV::List(seq![DynV::Text(variant.name)] + payload));
                        assert((seq![DynV::Text(variant.name)] + payload)[0] == DynV::Text(
                            variant.name,
                        ));
                        assert(tag_match(variant, e));
                        assert forall|k: int| 0 <= k < tag implies !tag_match(
                            #[trigger] variants[k],
                            e,
                        ) by {
                            assert(variants[k].name != variant.name);
                        }
                        lemma_first_tag_match_at(variants, e, tag);
                        assert((seq![DynV::Text(variant.name)] + payload).subrange(
                            1,
                            (seq![DynV::Text(variant.name)] + payload).len() as int,
                        ) =~= payload);
                        lemma_decode_encode_fields(tdefs, fds, fields);
                    },
                }
            }
        },
        TolValueV::Unknown(d) => {
            let variants = tol_variants_of(tdefs[t]);
            lemma_first_tag_match(variants, d);
            lemma_first_untagged(variants);
            assert(!has_untagged(variants));
        },
        TolValueV::Opaque(_) => {
            assert(false);
        },
    }
}

pub proof fn lemma_decode_encode_fields(
    tdefs: Seq<TolTypeDefV>,
    fds: Seq<FieldDefV>,
    vs: Seq<TolValueV>,
)
    requires
        codec_ok(tdefs),
        tol_wf_fields(tdefs, fds, vs),
        enc_ok_fields(tdefs, fds, vs),
    ensures
        dec_fields(tdefs, fds, enc_tol_fields(tdefs, fds, vs)) == Some(vs),
    decreases vs,
{
    lemma_enc_tol_fields_len(tdefs, fds, vs);
    let es = enc_tol_fields(tdefs, fds, vs);
    if vs.len() == 0 {
        assert(vs =~= Seq::<TolValueV>::empty());
    } else {
        let fds1 = fds.subrange(1, fds.len() as int);
        let vs1 = vs.subrange(1, vs.len() as int);
        let es1 = enc_tol_fields(tdefs, fds1, vs1);
        assert(es.subrange(1, es.len() as int) =~= es1);
        if fds[0].evolvable {
            lemma_decode_encode(tdefs, fds[0].ty->Named_0 as int, vs[0]);
        }
        lemma_decode_encode_fields(tdefs, fds1, vs1);
        assert(seq![vs[0]] + vs1 =~= vs);
    }
}

/// The downgrade of a well-formed value is well formed at the mirror type.
pub proof fn lemma_downgrade_tol_wf(
    defs: Seq<TypeDefV>,
    tdefs: Seq<TolTypeDefV>,
    dflt: Option<FallbackTy>,
    t: int,
    v: ValueV,
)
    requires
        mirrors_all(defs, tdefs, dflt),
        wf_value(defs, t, v),
    ensures
        tol_wf(tdefs, t, spec_downgrade(v)),
    decreases v,
{
    assert(mirrors(defs[t], tdefs[t], dflt));
    match v {
        ValueV::Rec { fields } => {
            lemma_downgrade_tol_wf_fields(defs, tdefs, dflt, rec_fields_of(defs[t]), fields);
        },
        ValueV::Un { tag, fields } => {
            let fds = fields_of_variant(variants_of(defs[t])[tag].fields);
            lemma_downgrade_tol_wf_fields(defs, tdefs, dflt, fds, fields);
        },
        ValueV::Opaque(_) => {
            assert(false);
        },
    }
}

pub proof fn lemma_downgrade_tol_wf_fields(
    defs: Seq<TypeDefV>,
    tdefs: Seq<TolTypeDefV>,
    dflt: Option<FallbackTy>,
    fds: Seq<FieldDefV>,
    vs: Seq<ValueV>,
)
    requires
        mirrors_all(defs, tdefs, dflt),
        wf_fields(defs, fds, vs),
    ensures
        tol_wf_fields(tdefs, fds, spec_downgrade_seq(vs)),
    decreases vs,
{
    lemma_spec_downgrade_seq(vs);
    let dgs = spec_downgrade_seq(vs);
    if vs.len() == 0 {
        assert(dgs =~= Seq::<TolValueV>::empty());
    } else {
        let fds1 = fds.subrange(1, fds.len() as int);
        let vs1 = vs.subrange(1, vs.len() as int);
        lemma_spec_downgrade_seq(vs1);
        assert(dgs.subrange(1, dgs.len() as int) =~= spec_downgrade_seq(vs1));
        if fds[0].evolvable {
            lemma_downgrade_tol_wf(defs, tdefs, dflt, fds[0].ty->Named_0 as int, vs[0]);
        }
        lemma_downgrade_tol_wf_fields(defs, tdefs, dflt, fds1, vs1);
    }
}

/// The downgrade of a re-encodable value is re-encodable at the mirror type.
pub proof fn lemma_downgrade_enc_ok(
    defs: Seq<TypeDefV>,
    tdefs: Seq<TolTypeDefV>,
    dflt: Option<FallbackTy>,
    t: int,
    v: ValueV,
)
    requires
        mirrors_all(defs, tdefs, dflt),
        wf_value(defs, t, v),
        base_enc_ok(defs, t, v),
    ensures
        enc_ok(tdefs, t, spec_downgrade(v)),
    decreases v,
{
    assert(mirrors(defs[t], tdefs[t], dflt));
    match v {
        ValueV::Rec { fields } => {
            lemma_downgrade_enc_ok_fields(defs, tdefs, dflt, rec_fields_of(defs[t]), fields);
        },
        ValueV::Un { tag, fields } => {
            let fds = fields_of_variant(variants_of(defs[t])[tag].fields);
            lemma_downgrade_enc_ok_fields(defs, tdefs, dflt, fds, fields);
            lemma_spec_downgrade_seq(fields);
            assert(tol_variants_of(tdefs[t]) == variants_of(defs[t]));
        },
        ValueV::Opaque(_) => {
            assert(false);
        },
    }
}

pub proof fn lemma_downgrade_enc_ok_fields(
    defs: Seq<TypeDefV>,
    tdefs: Seq<TolTypeDefV>,
    dflt: Option<FallbackTy>,
    fds: Seq<FieldDefV>,
    vs: Seq<ValueV>,
)
    requires
        mirrors_all(defs, tdefs, dflt),
        wf_fields(defs, fds, vs),
        base_enc_ok_fields(defs, fds, vs),
    ensures
        enc_ok_fields(tdefs, fds, spec_downgrade_seq(vs)),
    decreases vs,
{
    lemma_spec_downgrade_seq(vs);
    let dgs = spec_downgrade_seq(vs);
    if vs.len() == 0 {
        assert(dgs =~= Seq::<TolValueV>::empty());
    } else {
        let fds1 = fds.subrange(1, fds.len() as int);
        let vs1 = vs.subrange(1, vs.len() as int);
        lemma_spec_downgrade_seq(vs1);
        assert(dgs.subrange(1, dgs.len() as int) =~= spec_downgrade_seq(vs1));
        if fds[0].evolvable {
            lemma_downgrade_enc_ok(defs, tdefs, dflt, fds[0].ty->Named_0 as int, vs[0]);
        }
        lemma_downgrade_enc_ok_fields(defs, tdefs, dflt, fds1, vs1);
    }
}

/// Double round trip: encode the downgrade, decode it as the tolerant
/// shape, upgrade, downgrade again and re-encode — the wire form matches
/// the first encoding exactly, and equals the base encoding as well.
pub proof fn lemma_double_roundtrip(
    defs: Seq<TypeDefV>,
    tdefs: Seq<TolTypeDefV>,
    dflt: Option<FallbackTy>,
    t: int,
    v: ValueV,
)
    requires
        mirrors_all(defs, tdefs, dflt),
        codec_ok(tdefs),
        wf_value(defs, t, v),
        base_enc_ok(defs, t, v),
    ensures
        dec_tol(tdefs, t, enc_tol(tdefs, t, spec_downgrade(v))) == Some(spec_downgrade(v)),
        crate::convert::spec_upgrade(tdefs, t, spec_downgrade(v)) == Ok::<
            ValueV,
            crate::error::ErrorV,
        >(v),
        enc_tol(tdefs, t, spec_downgrade(v)) == enc_value(defs, t, v),
{
    lemma_downgrade_tol_wf(defs, tdefs, dflt, t, v);
    lemma_downgrade_enc_ok(defs, tdefs, dflt, t, v);
    lemma_decode_encode(tdefs, t, spec_downgrade(v));
    crate::convert::lemma_upgrade_downgrade(defs, tdefs, dflt, t, v);
    lemma_encode_stable(defs, tdefs, dflt, t, v);
}

/// One table extends another when it keeps every type, only appending
/// variants to unions, under fresh, tagged names.
pub open spec fn variant_seq_extends(nv: Seq<VariantDefV>, ov: Seq<VariantDefV>) -> bool {
    &&& ov.len() <= nv.len()
    &&& forall|k: int| 0 <= k < ov.len() ==> #[trigger] nv[k] == ov[k]
    &&& forall|k: int, k2: int|
        ov.len() <= k < nv.len() && 0 <= k2 < ov.len() ==> (#[trigger] nv[k]).name != (
        #[trigger] nv[k2]).name
    &&& forall|k: int| ov.len() <= k < nv.len() ==> !(#[trigger] nv[k]).untagged
}

pub open spec fn type_extends(n: TypeDefV, o: TypeDefV) -> bool {
    match n {
        TypeDefV::Record { .. } => n == o,
        TypeDefV::Union { name, variants, fallback } => o matches TypeDefV::Union {
            name: oname,
            variants: ovariants,
            fallback: ofallback,
        } && oname == name && variant_seq_extends(variants, ovariants),
    }
}

pub open spec fn extends(new: Seq<TypeDefV>, old: Seq<TypeDefV>) -> bool {
    new.len() == old.len() && forall|i: int|
        0 <= i < new.len() ==> type_extends(#[trigger] new[i], old[i])
}


/// Every catch-all arm of the table uses the self-describing fallback, so
/// it can absorb any payload.
pub open spec fn permissive(tdefs: Seq<TolTypeDefV>) -> bool {
    forall|t: int|
        0 <= t < tdefs.len() ==> (#[trigger] tol_catch_all_of(tdefs[t]) matches Some(fb) ==> fb
            == FallbackTy::Any)
}

/// The tolerant image of a newer writer's value under an older reader's
/// shape: content the reader knows decodes structurally; a variant beyond
/// the reader's table falls to the declared untagged arm, or to the
/// synthetic catch-all arm, holding its complete wire form.
pub open spec fn absorb(
    new: Seq<TypeDefV>,
    old: Seq<TypeDefV>,
    t: int,
    v: ValueV,
) -> TolValueV
    decreases v,
{
    match v {
        ValueV::Rec { fields } => TolValueV::Rec {
            fields: absorb_fields(new, old, rec_fields_of(new[t]), fields),
        },
        ValueV::Un { tag, fields } => {
            if tag < variants_of(old[t]).len() {
                TolValueV::Un {
                    tag,
                    fields: absorb_fields(
                        new,
                        old,
                        fields_of_variant(variants_of(new[t])[tag].fields),
                        fields,
                    ),
                }
            } else {
                match first_untagged(variants_of(old[t])) {
                    Some(u) => TolValueV::Un {
                        tag: u,
                        fields: seq![TolValueV::Opaque(enc_value(new, t, v))],
                    },
                    None => TolValueV::Unknown(enc_value(new, t, v)),
                }
            }
        },
        ValueV::Opaque(d) => TolValueV::Opaque(d),
    }
}

pub open spec fn absorb_fields(
    new: Seq<TypeDefV>,
    old: Seq<TypeDefV>,
    fds: Seq<FieldDefV>,
    vs: Seq<ValueV>,
) -> Seq<TolValueV>
    decreases vs,
{
    if vs.len() == 0 {
        Seq::empty()
    } else {
        let head = if 0 < fds.len() && fds[0].evolvable && fds[0].ty is Named {
            absorb(new, old, fds[0].ty->Named_0 as int, vs[0])
        } else {
            match vs[0] {
                ValueV::Opaque(d) => TolValueV::Opaque(d),
                _ => TolValueV::Opaque(DynV::Null),
            }
        };
        seq![head] + absorb_fields(
            new,
            old,
            fds.subrange(if fds.len() > 0 { 1int } else { 0int }, fds.len() as int),
            vs.subrange(1, vs.len() as int),
        )
    }
}

/// Forward compatibility, through the whole nested structure: whatever a
/// newer writer encodes, the older reader's tolerant shape decodes, and what
/// it decodes is exactly the absorbed image — unknown variants land in the
/// tolerant arms, everything else keeps its structure.
pub proof fn lemma_forward_decode(
    new: Seq<TypeDefV>,
    old: Seq<TypeDefV>,
    tdefs: Seq<TolTypeDefV>,
    dflt: Option<FallbackTy>,
    t: int,
    v: ValueV,
)
    requires
        extends(new, old),
        mirrors_all(old, tdefs, dflt),
        crate::schema::fallback_ok(old, dflt),
        codec_ok(tdefs),
        permissive(tdefs),
        wf_value(new, t, v),
        base_enc_ok(new, t, v),
    ensures
        dec_tol(tdefs, t, enc_value(new, t, v)) == Some(absorb(new, old, t, v)),
    decreases v,
{
    assert(mirrors(old[t], tdefs[t], dflt));
    assert(type_extends(new[t], old[t]));
    assert(type_codec_ok(tdefs[t]));
    let e = enc_value(new, t, v);
    match v {
        ValueV::Rec { fields } => {
            let fds = rec_fields_of(new[t]);
            assert(tol_rec_fields_of(tdefs[t]) == fds);
            lemma_enc_fields_len(new, fds, fields);
            lemma_forward_decode_fields(new, old, tdefs, dflt, fds, fields);
        },
        ValueV::Un { tag, fields } => {
            let new_variants = variants_of(new[t]);
            let old_variants = variants_of(old[t]);
            assert(tol_variants_of(tdefs[t]) == old_variants);
            let variant = new_variants[tag];
            if tag < old_variants.len() {
                assert(old_variants[tag] == variant);
                let fds = fields_of_variant(variant.fields);
                if variant.untagged {
                    crate::convert::lemma_wf_fields_index(new, fds, fields);
                    assert(fields[0] is Opaque);
                    let d0 = fields[0]->Opaque_0;
                    assert(e == d0);
                    assert forall|k: int| 0 <= k < old_variants.len() implies !tag_match(
                        #[trigger] old_variants[k],
                        d0,
                    ) by {
                        assert(old_variants[k] == new_variants[k]);
                        assert(!tag_match(new_variants[k], d0));
                    }
                    assert(!any_tag_match(old_variants, d0));
                    lemma_first_tag_match(old_variants, d0);
                    lemma_first_untagged_at(old_variants, tag);
                    assert(absorb_fields(
                        new,
                        old,
                        fds.subrange(1, fds.len() as int),
                        fields.subrange(1, fields.len() as int),
                    ) =~= Seq::<TolValueV>::empty());
                    assert(absorb_fields(new, old, fds, fields) =~= seq![
                        TolValueV::Opaque(d0),
                    ]);
                } else {
                    match variant.fields {
                        VariantFieldsV::Unit => {
                            assert(tag_match(variant, e));
                            assert forall|k: int| 0 <= k < tag implies !tag_match(
                                #[trigger] old_variants[k],
                                e,
                            ) by {
                                assert(old_variants[k].name != variant.name);
                            }
                            lemma_first_tag_match_at(old_variants, e, tag);
                            assert(fields =~= Seq::<ValueV>::empty());
                            assert(absorb_fields(new, old, fds, fields) =~= Seq::<
                                TolValueV,
                            >::empty());
                        },
                        _ => {
                            lemma_enc_fields_len(new, fds, fields);
                            let payload = enc_fields(new, fds, fields);
                            assert(e == DynV::List(seq![DynV::Text(variant.name)] + payload));
                            assert((seq![DynV::Text(variant.name)] + payload)[0] == DynV::Text(
                                variant.name,
                            ));
                            assert(tag_match(variant, e));
                            assert forall|k: int| 0 <= k < tag implies !tag_match(
                                #[trigger] old_variants[k],
                                e,
                            ) by {
                                assert(old_variants[k].name != variant.name);
                            }
                            lemma_first_tag_match_at(old_variants, e, tag);
                            assert((seq![DynV::Text(variant.name)] + payload).subrange(
                                1,
                                (seq![DynV::Text(variant.name)] + payload).len() as int,
                            ) =~= payload);
                            lemma_forward_decode_fields(new, old, tdefs, dflt, fds, fields);
                        },
                    }
                }
            } else {
                assert(!variant.untagged);
                assert forall|k: int| 0 <= k < old_variants.len() implies !tag_match(
                    #[trigger] old_variants[k],
                    e,
                ) by {
                    assert(old_variants[k] == new_variants[k]);
                    assert(variant.name != new_variants[k].name);
                    match variant.fields {
                        VariantFieldsV::Unit => {},
                        _ => {
                            assert(e matches DynV::List(items) && items[0] == DynV::Text(
                                variant.name,
                            ));
                        },
                    }
                }
                assert(!any_tag_match(old_variants, e));
                lemma_first_tag_match(old_variants, e);
                lemma_first_untagged(old_variants);
                match first_untagged(old_variants) {
                    Some(u) => {},
                    None => {
                        assert(!has_untagged(old_variants));
                        assert(crate::schema::type_fallback_ok(old[t], dflt));
                        assert(tol_catch_all_of(tdefs[t]) is Some);
                        assert(tol_catch_all_of(tdefs[t]) == Some(FallbackTy::Any));
                    },
                }
            }
        },
        ValueV::Opaque(_) => {
            assert(false);
        },
    }
}

pub proof fn lemma_forward_decode_fields(
    new: Seq<TypeDefV>,
    old: Seq<TypeDefV>,
    tdefs: Seq<TolTypeDefV>,
    dflt: Option<FallbackTy>,
    fds: Seq<FieldDefV>,
    vs: Seq<ValueV>,
)
    requires
        extends(new, old),
        mirrors_all(old, tdefs, dflt),
        crate::schema::fallback_ok(old, dflt),
        codec_ok(tdefs),
        permissive(tdefs),
        wf_fields(new, fds, vs),
        base_enc_ok_fields(new, fds, vs),
    ensures
        dec_fields(tdefs, fds, enc_fields(new, fds, vs)) == Some(absorb_fields(new, old, fds, vs)),
    decreases vs,
{
    lemma_enc_fields_len(new, fds, vs);
    let es = enc_fields(new, fds, vs);
    if vs.len() == 0 {
        assert(absorb_fields(new, old, fds, vs) =~= Seq::<TolValueV>::empty());
    } else {
        let fds1 = fds.subrange(1, fds.len() as int);
        let vs1 = vs.subrange(1, vs.len() as int);
        let es1 = enc_fields(new, fds1, vs1);
        assert(es.subrange(1, es.len() as int) =~= es1);
        if fds[0].evolvable {
            lemma_forward_decode(new, old, tdefs, dflt, fds[0].ty->Named_0 as int, vs[0]);
        }
        lemma_forward_decode_fields(new, old, tdefs, dflt, fds1, vs1);
    }
}


/// Whatever the decoder accepts is well formed at the type it was decoded
/// at, so the conversion pair applies to it directly.
pub proof fn lemma_decode_wf(tdefs: Seq<TolTypeDefV>, t: int, d: DynV)
    requires
        tol_refs_ok(tdefs),
        codec_ok(tdefs),
        0 <= t < tdefs.len(),
    ensures
        dec_tol(tdefs, t, d) matches Some(tv) ==> tol_wf(tdefs, t, tv),
    decreases d,
{
    assert(tol_type_refs_ok(tdefs[t], tdefs.len() as int));
    assert(type_codec_ok(tdefs[t]));
    match tdefs[t] {
        TolTypeDefV::Record { fields: fds, .. } => {
            match d {
                DynV::List(items) => {
                    if items.len() == fds.len() {
                        lemma_decode_wf_fields(tdefs, fds, items);
                    }
                },
                _ => {},
            }
        },
        TolTypeDefV::Union { variants, catch_all, .. } => {
            lemma_first_tag_match(variants, d);
            match first_tag_match(variants, d) {
                Some(i) => {
                    let variant = variants[i];
                    let fds = fields_of_variant(variant.fields);
                    match variant.fields {
                        VariantFieldsV::Unit => {
                            assert(tol_wf_fields(tdefs, fds, Seq::<TolValueV>::empty()));
                        },
                        _ => {
                            let items = d->List_0;
                            if items.len() == fds.len() + 1 {
                                lemma_decode_wf_fields(
                                    tdefs,
                                    fds,
                                    items.subrange(1, items.len() as int),
                                );
                            }
                        },
                    }
                },
                None => {
                    lemma_first_untagged(variants);
                    match first_untagged(variants) {
                        Some(u) => {
                            let fs = fields_of_variant(variants[u].fields);
                            assert(fs.len() == 1 && !fs[0].evolvable);
                            assert(tol_wf_fields(
                                tdefs,
                                fs.subrange(1, fs.len() as int),
                                seq![TolValueV::Opaque(d)].subrange(1, 1),
                            ));
                            assert(tol_wf_fields(tdefs, fs, seq![TolValueV::Opaque(d)]));
                        },
                        None => {},
                    }
                },
            }
        },
    }
}

pub proof fn lemma_decode_wf_fields(
    tdefs: Seq<TolTypeDefV>,
    fds: Seq<FieldDefV>,
    items: Seq<DynV>,
)
    requires
        tol_refs_ok(tdefs),
        codec_ok(tdefs),
        crate::schema::fields_resolve(fds, tdefs.len() as int),
    ensures
        dec_fields(tdefs, fds, items) matches Some(vs) ==> tol_wf_fields(tdefs, fds, vs),
    decreases items,
{
    if items.len() == fds.len() && items.len() > 0 {
        let fds1 = fds.subrange(1, fds.len() as int);
        let items1 = items.subrange(1, items.len() as int);
        if fds[0].evolvable && fds[0].ty is Named {
            assert(crate::schema::field_resolves(fds[0], tdefs.len() as int));
            lemma_decode_wf(tdefs, fds[0].ty->Named_0 as int, items[0]);
        }
        lemma_decode_wf_fields(tdefs, fds1, items1);
        match dec_fields(tdefs, fds, items) {
            Some(vs) => {
                let vs1 = dec_fields(tdefs, fds1, items1)->Some_0;
                assert(vs =~= seq![vs[0]] + vs1);
                assert(vs.subrange(1, vs.len() as int) =~= vs1);
            },
            None => {},
        }
    }
}

/// Whether a newer writer's value carries, anywhere in its nesting, a
/// variant the older table does not know and cannot absorb into a declared
/// untagged arm of its own — exactly the content that blocks an upgrade.
pub open spec fn uses_unknown_variant(
    new: Seq<TypeDefV>,
    old: Seq<TypeDefV>,
    t: int,
    v: ValueV,
) -> bool
    decreases v,
{
    match v {
        ValueV::Rec { fields } => uses_unknown_variant_fields(
            new,
            old,
            rec_fields_of(new[t]),
            fields,
        ),
        ValueV::Un { tag, fields } => {
            if tag >= variants_of(old[t]).len() {
                !has_untagged(variants_of(old[t]))
            } else {
                uses_unknown_variant_fields(
                    new,
                    old,
                    fields_of_variant(variants_of(new[t])[tag].fields),
                    fields,
                )
            }
        },
        ValueV::Opaque(_) => false,
    }
}

pub open spec fn uses_unknown_variant_fields(
    new: Seq<TypeDefV>,
    old: Seq<TypeDefV>,
    fds: Seq<FieldDefV>,
    vs: Seq<ValueV>,
) -> bool
    decreases vs,
{
    vs.len() > 0 && {
        ||| (0 < fds.len() && fds[0].evolvable && fds[0].ty is Named && uses_unknown_variant(
            new,
            old,
            fds[0].ty->Named_0 as int,
            vs[0],
        ))
        ||| uses_unknown_variant_fields(
            new,
            old,
            fds.subrange(if fds.len() > 0 { 1int } else { 0int }, fds.len() as int),
            vs.subrange(1, vs.len() as int),
        )
    }
}

/// The absorbed image of a newer writer's value holds no unrecognized
/// content exactly when the writer used no variant the older reader's
/// tolerant arms must capture.
pub proof fn lemma_absorb_clean(new: Seq<TypeDefV>, old: Seq<TypeDefV>, t: int, v: ValueV)
    ensures
        crate::convert::clean(absorb(new, old, t, v)) <==> !uses_unknown_variant(new, old, t, v),
    decreases v,
{
    match v {
        ValueV::Rec { fields } => {
            lemma_absorb_clean_fields(new, old, rec_fields_of(new[t]), fields);
        },
        ValueV::Un { tag, fields } => {
            let old_variants = variants_of(old[t]);
            if tag < old_variants.len() {
                lemma_absorb_clean_fields(
                    new,
                    old,
                    fields_of_variant(variants_of(new[t])[tag].fields),
                    fields,
                );
            } else {
                lemma_first_untagged(old_variants);
                match first_untagged(old_variants) {
                    Some(u) => {
                        let held = seq![TolValueV::Opaque(enc_value(new, t, v))];
                        assert(held[0] == TolValueV::Opaque(enc_value(new, t, v)));
                        assert(crate::convert::clean(held[0]));
                        assert(crate::convert::clean_seq(held.subrange(1, held.len() as int)));
                        assert(crate::convert::clean_seq(held));
                    },
                    None => {},
                }
            }
        },
        ValueV::Opaque(_) => {},
    }
}

pub proof fn lemma_absorb_clean_fields(
    new: Seq<TypeDefV>,
    old: Seq<TypeDefV>,
    fds: Seq<FieldDefV>,
    vs: Seq<ValueV>,
)
    ensures
        crate::convert::clean_seq(absorb_fields(new, old, fds, vs)) <==> !uses_unknown_variant_fields(
            new,
            old,
            fds,
            vs,
        ),
    decreases vs,
{
    let afs = absorb_fields(new, old, fds, vs);
    if vs.len() == 0 {
        assert(afs =~= Seq::<TolValueV>::empty());
    } else {
        let fds1 = fds.subrange(if fds.len() > 0 { 1int } else { 0int }, fds.len() as int);
        let vs1 = vs.subrange(1, vs.len() as int);
        if 0 < fds.len() && fds[0].evolvable && fds[0].ty is Named {
            lemma_absorb_clean(new, old, fds[0].ty->Named_0 as int, vs[0]);
        }
        lemma_absorb_clean_fields(new, old, fds1, vs1);
        assert(afs[0] == (if 0 < fds.len() && fds[0].evolvable && fds[0].ty is Named {
            absorb(new, old, fds[0].ty->Named_0 as int, vs[0])
        } else {
            match vs[0] {
                ValueV::Opaque(d) => TolValueV::Opaque(d),
                _ => TolValueV::Opaque(DynV::Null),
            }
        }));
        assert(afs.subrange(1, afs.len() as int) =~= absorb_fields(new, old, fds1, vs1));
        assert(crate::convert::clean_seq(afs) <==> (crate::convert::clean(afs[0])
            && crate::convert::clean_seq(absorb_fields(new, old, fds1, vs1))));
        if 0 < fds.len() && fds[0].evolvable && fds[0].ty is Named {
            assert(crate::convert::clean(afs[0]) <==> !uses_unknown_variant(
                new,
                old,
                fds[0].ty->Named_0 as int,
                vs[0],
            ));
        } else {
            assert(crate::convert::clean(afs[0]));
        }
    }
}

/// Forward compatibility: a value written with a variant the reader's table
/// does not know decodes, under the reader's tolerant shape with the
/// self-describing fallback, into the synthetic catch-all arm, holding the
/// complete wire payload; upgrading it fails with the unrecognized-variant
/// error naming exactly the union that gained the variant.
pub proof fn lemma_forward_compat(
    new_defs: Seq<TypeDefV>,
    old_defs: Seq<TypeDefV>,
    tdefs: Seq<TolTypeDefV>,
    dflt: Option<FallbackTy>,
    t: int,
    v: ValueV,
)
    requires
        extends(new_defs, old_defs),
        mirrors_all(old_defs, tdefs, dflt),
        wf_value(new_defs, t, v),
        v matches ValueV::Un { tag, .. } && tag >= variants_of(old_defs[t]).len(),
        tol_catch_all_of(tdefs[t]) == Some(FallbackTy::Any),
    ensures
        dec_tol(tdefs, t, enc_value(new_defs, t, v)) == Some(
            TolValueV::Unknown(enc_value(new_defs, t, v)),
        ),
        crate::convert::spec_upgrade(tdefs, t, TolValueV::Unknown(enc_value(new_defs, t, v)))
            == Err::<ValueV, crate::error::ErrorV>(
            crate::error::ErrorV { ty: name_of(new_defs[t]), path: Seq::empty() },
        ),
{
    assert(mirrors(old_defs[t], tdefs[t], dflt));
    assert(type_extends(new_defs[t], old_defs[t]));
    let tag = v->tag;
    let new_variants = variants_of(new_defs[t]);
    let old_variants = variants_of(old_defs[t]);
    let variant = new_variants[tag];
    assert(tol_variants_of(tdefs[t]) == old_variants);
    assert(!has_untagged(old_variants));
    let e = enc_value(new_defs, t, v);
    assert(!variant.untagged);
    assert forall|k: int| 0 <= k < old_variants.len() implies !tag_match(
        #[trigger] old_variants[k],
        e,
    ) by {
        assert(new_variants[k] == old_variants[k]);
        assert(new_variants[tag].name != new_variants[k].name);
        match variant.fields {
            VariantFieldsV::Unit => {},
            _ => {
                assert(e matches DynV::List(items) && items[0] == DynV::Text(variant.name));
            },
        }
    }
    lemma_first_tag_match(old_variants, e);
    lemma_first_untagged(old_variants);
    assert(tol_name_of(tdefs[t]) == name_of(new_defs[t]));
}

/// The wire form of one field slot.
pub open spec fn enc_field(defs: Seq<TypeDefV>, f: FieldDefV, v: ValueV) -> DynV {
    if f.evolvable && f.ty is Named {
        enc_value(defs, f.ty->Named_0 as int, v)
    } else {
        match v {
            ValueV::Opaque(d) => d,
            _ => DynV::Null,
        }
    }
}

pub proof fn lemma_enc_fields_index(defs: Seq<TypeDefV>, fds: Seq<FieldDefV>, vs: Seq<ValueV>)
    requires
        fds.len() == vs.len(),
    ensures
        enc_fields(defs, fds, vs).len() == vs.len(),
        forall|k: int| 0 <= k < vs.len() ==> enc_fields(defs, fds, vs)[k] == enc_field(
            defs,
            fds[k],
            vs[k],
        ),
    decreases vs,
{
    if vs.len() > 0 {
        let fds1 = fds.subrange(1, fds.len() as int);
        let vs1 = vs.subrange(1, vs.len() as int);
        lemma_enc_fields_index(defs, fds1, vs1);
        assert forall|k: int| 0 <= k < vs.len() implies enc_fields(defs, fds, vs)[k] == enc_field(
            defs,
            fds[k],
            vs[k],
        ) by {
            if k > 0 {
                assert(enc_fields(defs, fds1, vs1)[k - 1] == enc_field(defs, fds1[k - 1], vs1[k
                    - 1]));
            }
        }
    }
}

/// The wire form of one tolerant field slot.
pub open spec fn enc_tol_field(tdefs: Seq<TolTypeDefV>, f: FieldDefV, v: TolValueV) -> DynV {
    if f.evolvable && f.ty is Named {
        enc_tol(tdefs, f.ty->Named_0 as int, v)
    } else {
        match v {
            TolValueV::Opaque(d) => d,
            _ => DynV::Null,
        }
    }
}

pub proof fn lemma_enc_tol_fields_index(
    tdefs: Seq<TolTypeDefV>,
    fds: Seq<FieldDefV>,
    vs: Seq<TolValueV>,
)
    requires
        fds.len() == vs.len(),
    ensures
        enc_tol_fields(tdefs, fds, vs).len() == vs.len(),
        forall|k: int| 0 <= k < vs.len() ==> enc_tol_fields(tdefs, fds, vs)[k] == enc_tol_field(
            tdefs,
            fds[k],
            vs[k],
        ),
    decreases vs,
{
    if vs.len() > 0 {
        let fds1 = fds.subrange(1, fds.len() as int);
        let vs1 = vs.subrange(1, vs.len() as int);
        lemma_enc_tol_fields_index(tdefs, fds1, vs1);
        assert forall|k: int| 0 <= k < vs.len() implies enc_tol_fields(tdefs, fds, vs)[k]
            == enc_tol_field(tdefs, fds[k], vs[k]) by {
            if k > 0 {
                assert(enc_tol_fields(tdefs, fds1, vs1)[k - 1] == enc_tol_field(
                    tdefs,
                    fds1[k - 1],
                    vs1[k - 1],
                ));
            }
        }
    }
}

/// Encodes a value of source type `t` into its wire form.
pub fn encode_value(defs: &Defs, t: usize, v: &Value) -> (r: Dyn)
    requires
        wf_value(defs@, t as int, v@),
    ensures
        r@ == enc_value(defs@, t as int, v@),
    decreases v,
{
    match v {
        Value::Opaque(d) => d.duplicate(),
        Value::Rec { fields } => {
            let fds = match &defs.types[t] {
                TypeDef::Record { fields: fds, .. } => fds,
                TypeDef::Union { .. } => {
                    proof {
                        assert(false);
                    }
                    return Dyn::Null;
                },
            };
            proof {
                assert(rec_fields_of(defs@[t as int]) == fds.deep_view());
            }
            Dyn::List(encode_fields(defs, fds, fields))
        },
        Value::Un { tag, fields } => {
            let vars = match &defs.types[t] {
                TypeDef::Union { variants, .. } => variants,
                TypeDef::Record { .. } => {
                    proof {
                        assert(false);
                    }
                    return Dyn::Null;
                },
            };
            let variant = &vars[*tag];
            proof {
                assert(variants_of(defs@[t as int])[*tag as int] == variant.deep_view());
            }
            if variant.untagged {
                if fields.len() == 1 {
                    proof {
                        crate::value::lemma_view_value_seq(fields@);
                    }
                    match &fields[0] {
                        Value::Opaque(d) => d.duplicate(),
                        _ => Dyn::Null,
                    }
                } else {
                    proof {
                        crate::value::lemma_view_value_seq(fields@);
                    }
                    Dyn::Null
                }
            } else {
                let empty_fields: Vec<FieldDef> = Vec::new();
                match &variant.fields {
                    VariantFields::Unit => Dyn::Text(variant.name.clone()),
                    VariantFields::Tuple(fds) => {
                        tagged_list(variant.name.clone(), encode_fields(defs, fds, fields))
                    },
                    VariantFields::Record(fds) => {
                        tagged_list(variant.name.clone(), encode_fields(defs, fds, fields))
                    },
                }
            }
        },
    }
}

/// Builds the wire list of a tagged payload: the tag at the head, the field
/// encodings after it.
fn tagged_list(name: String, payload: Vec<Dyn>) -> (r: Dyn)
    ensures
        r@ == DynV::List(seq![DynV::Text(name@)] + crate::value::view_dyn_seq(payload@)),
{
    let ghost pv = crate::value::view_dyn_seq(payload@);
    let mut items: Vec<Dyn> = Vec::new();
    items.push(Dyn::Text(name));
    let mut rest = payload;
    items.append(&mut rest);
    proof {
        crate::value::lemma_view_dyn_seq(items@);
        crate::value::lemma_view_dyn_seq(payload@);
        assert(crate::value::view_dyn_seq(items@) =~= seq![DynV::Text(name@)] + pv);
    }
    Dyn::List(items)
}

fn encode_fields(defs: &Defs, fds: &Vec<FieldDef>, vs: &Vec<Value>) -> (r: Vec<Dyn>)
    requires
        wf_fields(defs@, fds.deep_view(), crate::value::view_value_seq(vs@)),
    ensures
        crate::value::view_dyn_seq(r@) == enc_fields(
            defs@,
            fds.deep_view(),
            crate::value::view_value_seq(vs@),
        ),
    decreases vs,
{
    let ghost fdsv = fds.deep_view();
    let ghost vsv = crate::value::view_value_seq(vs@);
    proof {
        crate::value::lemma_view_value_seq(vs@);
        lemma_wf_fields_index(defs@, fdsv, vsv);
    }
    let mut r: Vec<Dyn> = Vec::new();
    let mut k: usize = 0;
    while k < vs.len()
        invariant
            0 <= k <= vs@.len(),
            fdsv == fds.deep_view(),
            vsv == crate::value::view_value_seq(vs@),
            vsv.len() == vs@.len(),
            fdsv.len() == vsv.len(),
            forall|k2: int| 0 <= k2 < vsv.len() ==> vsv[k2] == crate::value::view_value(
                vs@[k2],
            ),
            forall|k2: int| 0 <= k2 < vsv.len() ==> crate::convert::wf_field(
                defs@,
                #[trigger] fdsv[k2],
                vsv[k2],
            ),
            r@.len() == k,
            forall|k2: int| 0 <= k2 < k ==> crate::value::view_dyn(#[trigger] r@[k2])
                == enc_field(defs@, fdsv[k2], vsv[k2]),
        decreases vs@.len() - k,
    {
        let fd = &fds[k];
        proof {
            assert(fd.deep_view() == fdsv[k as int]);
        }
        let head: Dyn = if fd.evolvable {
            match fd.ty {
                FieldTy::Named(j) => encode_value(defs, j, &vs[k]),
                FieldTy::Opaque => {
                    proof {
                        assert(false);
                    }
                    Dyn::Null
                },
            }
        } else {
            match &vs[k] {
                Value::Opaque(d) => d.duplicate(),
                _ => {
                    proof {
                        assert(false);
                    }
                    Dyn::Null
                },
            }
        };
        r.push(head);
        k = k + 1;
    }
    proof {
        crate::value::lemma_view_dyn_seq(r@);
        lemma_enc_fields_index(defs@, fdsv, vsv);
        assert(crate::value::view_dyn_seq(r@) =~= enc_fields(defs@, fdsv, vsv));
    }
    r
}

/// Encodes a tolerant value of tolerant type `t` into its wire form.
pub fn encode_tolerant(tdefs: &TolDefs, t: usize, v: &TolValue) -> (r: Dyn)
    requires
        tol_wf(tdefs@, t as int, v@),
    ensures
        r@ == enc_tol(tdefs@, t as int, v@),
    decreases v,
{
    match v {
        TolValue::Opaque(d) => d.duplicate(),
        TolValue::Unknown(d) => d.duplicate(),
        TolValue::Rec { fields } => {
            let fds = match &tdefs.types[t] {
                TolTypeDef::Record { fields: fds, .. } => fds,
                TolTypeDef::Union { .. } => {
                    proof {
                        assert(false);
                    }
                    return Dyn::Null;
                },
            };
            proof {
                assert(tol_rec_fields_of(tdefs@[t as int]) == fds.deep_view());
            }
            Dyn::List(encode_tol_fields(tdefs, fds, fields))
        },
        TolValue::Un { tag, fields } => {
            let vars = match &tdefs.types[t] {
                TolTypeDef::Union { variants, .. } => variants,
                TolTypeDef::Record { .. } => {
                    proof {
                        assert(false);
                    }
                    return Dyn::Null;
                },
            };
            let variant = &vars[*tag];
            proof {
                assert(tol_variants_of(tdefs@[t as int])[*tag as int] == variant.deep_view());
            }
            if variant.untagged {
                if fields.len() == 1 {
                    proof {
                        crate::value::lemma_view_tol_seq(fields@);
                    }
                    match &fields[0] {
                        TolValue::Opaque(d) => d.duplicate(),
                        _ => Dyn::Null,
                    }
                } else {
                    proof {
                        crate::value::lemma_view_tol_seq(fields@);
                    }
                    Dyn::Null
                }
            } else {
                match &variant.fields {
                    VariantFields::Unit => Dyn::Text(variant.name.clone()),
                    VariantFields::Tuple(fds) => {
                        tagged_list(variant.name.clone(), encode_tol_fields(tdefs, fds, fields))
                    },
                    VariantFields::Record(fds) => {
                        tagged_list(variant.name.clone(), encode_tol_fields(tdefs, fds, fields))
                    },
                }
            }
        },
    }
}

fn encode_tol_fields(tdefs: &TolDefs, fds: &Vec<FieldDef>, vs: &Vec<TolValue>) -> (r: Vec<Dyn>)
    requires
        tol_wf_fields(tdefs@, fds.deep_view(), crate::value::view_tol_seq(vs@)),
    ensures
        crate::value::view_dyn_seq(r@) == enc_tol_fields(
            tdefs@,
            fds.deep_view(),
            crate::value::view_tol_seq(vs@),
        ),
    decreases vs,
{
    let ghost fdsv = fds.deep_view();
    let ghost vsv = crate::value::view_tol_seq(vs@);
    proof {
        crate::value::lemma_view_tol_seq(vs@);
        lemma_tol_wf_fields_index(tdefs@, fdsv, vsv);
    }
    let mut r: Vec<Dyn> = Vec::new();
    let mut k: usize = 0;
    while k < vs.len()
        invariant
            0 <= k <= vs@.len(),
            fdsv == fds.deep_view(),
            vsv == crate::value::view_tol_seq(vs@),
            vsv.len() == vs@.len(),
            fdsv.len() == vsv.len(),
            forall|k2: int| 0 <= k2 < vsv.len() ==> vsv[k2] == crate::value::view_tol(vs@[k2]),
            forall|k2: int| 0 <= k2 < vsv.len() ==> crate::convert::tol_wf_field(
                tdefs@,
                #[trigger] fdsv[k2],
                vsv[k2],
            ),
            r@.len() == k,
            forall|k2: int| 0 <= k2 < k ==> crate::value::view_dyn(#[trigger] r@[k2])
                == enc_tol_field(tdefs@, fdsv[k2], vsv[k2]),
        decreases vs@.len() - k,
    {
        let fd = &fds[k];
        proof {
            assert(fd.deep_view() == fdsv[k as int]);
        }
        let head: Dyn = if fd.evolvable {
            match fd.ty {
                FieldTy::Named(j) => encode_tolerant(tdefs, j, &vs[k]),
                FieldTy::Opaque => {
                    proof {
                        assert(false);
                    }
                    Dyn::Null
                },
            }
        } else {
            match &vs[k] {
                TolValue::Opaque(d) => d.duplicate(),
                _ => {
                    proof {
                        assert(false);
                    }
                    Dyn::Null
                },
            }
        };
        r.push(head);
        k = k + 1;
    }
    proof {
        crate::value::lemma_view_dyn_seq(r@);
        lemma_enc_tol_fields_index(tdefs@, fdsv, vsv);
        assert(crate::value::view_dyn_seq(r@) =~= enc_tol_fields(tdefs@, fdsv, vsv));
    }
    r
}

/// An ordinary decode failure at the codec boundary: the wire data does not
/// fit the expected shape, or an unmatched tag met a union with no tolerant
/// arm, or a rigid fallback type that cannot represent the payload.
#[derive(Debug, Clone, Copy, PartialEq, Eq)]
pub enum DecodeError {
    Mismatch,
}

/// Converse direction of the untagged scan.
pub proof fn lemma_first_untagged_prefix(variants: Seq<VariantDefV>, i: int)
    requires
        0 <= i < variants.len(),
        variants[i].untagged,
        forall|k: int| 0 <= k < i ==> !(#[trigger] variants[k]).untagged,
    ensures
        first_untagged(variants) == Some(i),
    decreases variants.len(),
{
    if i > 0 {
        let rest = variants.subrange(1, variants.len() as int);
        assert(rest[i - 1] == variants[i]);
        assert forall|k: int| 0 <= k < i - 1 implies !(#[trigger] rest[k]).untagged by {
            assert(!variants[k + 1].untagged);
        }
        lemma_first_untagged_prefix(rest, i - 1);
    }
}

/// Every evolvable field of a tolerant type names a type of the table.
pub open spec fn tol_type_refs_ok(t: TolTypeDefV, n: int) -> bool {
    match t {
        TolTypeDefV::Record { fields, .. } => crate::schema::fields_resolve(fields, n),
        TolTypeDefV::Union { variants, .. } => forall|v: int|
            0 <= v < variants.len() ==> crate::schema::fields_resolve(
                fields_of_variant(#[trigger] variants[v].fields),
                n,
            ),
    }
}

pub open spec fn tol_refs_ok(tdefs: Seq<TolTypeDefV>) -> bool {
    forall|t: int|
        0 <= t < tdefs.len() ==> tol_type_refs_ok(#[trigger] tdefs[t], tdefs.len() as int)
}

fn variant_tag_matches(variant: &VariantDef, d: &Dyn) -> (r: bool)
    ensures
        r == tag_match(variant.deep_view(), d@),
{
    if variant.untagged {
        return false;
    }
    match (&variant.fields, d) {
        (VariantFields::Unit, Dyn::Text(s)) => variant.name.eq(s),
        (VariantFields::Tuple(_), Dyn::List(items)) => {
            proof {
                crate::value::lemma_view_dyn_seq(items@);
            }
            if items.len() >= 1 {
                match &items[0] {
                    Dyn::Text(s) => variant.name.eq(s),
                    _ => false,
                }
            } else {
                false
            }
        },
        (VariantFields::Record(_), Dyn::List(items)) => {
            proof {
                crate::value::lemma_view_dyn_seq(items@);
            }
            if items.len() >= 1 {
                match &items[0] {
                    Dyn::Text(s) => variant.name.eq(s),
                    _ => false,
                }
            } else {
                false
            }
        },
        _ => false,
    }
}

/// Decodes wire data at tolerant type `t`: the declared tags are tried in
/// order; unmatched data is captured by the declared untagged arm or the
/// synthetic catch-all arm, when the type has one.
pub fn decode_tolerant(tdefs: &TolDefs, t: usize, d: &Dyn) -> (r: Result<TolValue, DecodeError>)
    requires
        (t as int) < tdefs@.len(),
        tol_refs_ok(tdefs@),
    ensures
        match r {
            Ok(tv) => dec_tol(tdefs@, t as int, d@) == Some(tv@),
            Err(e) => dec_tol(tdefs@, t as int, d@) is None,
        },
    decreases d, 1int,
{
    proof {
        assert(tol_type_refs_ok(tdefs@[t as int], tdefs@.len() as int));
    }
    match &tdefs.types[t] {
        TolTypeDef::Record { fields: fds, .. } => {
            match d {
                Dyn::List(items) => {
                    proof {
                        crate::value::lemma_view_dyn_seq(items@);
                    }
                    if items.len() == fds.len() {
                        let rr = decode_fields_from(tdefs, fds, items, 0);
                        proof {
                            assert(crate::value::view_dyn_seq(items@).subrange(
                                0,
                                items@.len() as int,
                            ) =~= crate::value::view_dyn_seq(items@));
                        }
                        match rr {
                            Ok(vs) => Ok(TolValue::Rec { fields: vs }),
                            Err(e) => Err(e),
                        }
                    } else {
                        Err(DecodeError::Mismatch)
                    }
                },
                _ => Err(DecodeError::Mismatch),
            }
        },
        TolTypeDef::Union { variants, catch_all, .. } => {
            let ghost vdv = variants.deep_view();
            let mut i: usize = 0;
            while i < variants.len()
                invariant
                    0 <= i <= variants@.len(),
                    (t as int) < tdefs@.len(),
                    tol_refs_ok(tdefs@),
                    tdefs@[t as int] matches TolTypeDefV::Union { variants: vv, .. } && vv == vdv,
                    vdv == variants.deep_view(),
                    forall|k: int| 0 <= k < i ==> !tag_match(#[trigger] vdv[k], d@),
                decreases variants@.len() - i,
            {
                if variant_tag_matches(&variants[i], d) {
                    proof {
                        assert(vdv[i as int] == variants@[i as int].deep_view());
                        lemma_first_tag_match_at(vdv, d@, i as int);
                        assert(crate::schema::fields_resolve(
                            fields_of_variant(vdv[i as int].fields),
                            tdefs@.len() as int,
                        ));
                    }
                    let variant = &variants[i];
                    match &variant.fields {
                        VariantFields::Unit => {
                            let fields: Vec<TolValue> = Vec::new();
                            proof {
                                assert(crate::value::view_tol_seq(fields@)
                                    =~= Seq::<TolValueV>::empty());
                            }
                            return Ok(TolValue::Un { tag: i, fields });
                        },
                        VariantFields::Tuple(fds) => {
                            return decode_payload(tdefs, fds, d, i, Ghost(vdv));
                        },
                        VariantFields::Record(fds) => {
                            return decode_payload(tdefs, fds, d, i, Ghost(vdv));
                        },
                    }
                }
                i = i + 1;
            }
            proof {
                assert forall|k: int| 0 <= k < vdv.len() implies !tag_match(
                    #[trigger] vdv[k],
                    d@,
                ) by {}
                assert(!any_tag_match(vdv, d@));
                lemma_first_tag_match(vdv, d@);
            }
            let mut j: usize = 0;
            while j < variants.len()
                invariant
                    0 <= j <= variants@.len(),
                    (t as int) < tdefs@.len(),
                    tdefs@[t as int] matches TolTypeDefV::Union { variants: vv, .. } && vv == vdv,
                    vdv == variants.deep_view(),
                    first_tag_match(vdv, d@) is None,
                    forall|k: int| 0 <= k < j ==> !(#[trigger] vdv[k]).untagged,
                decreases variants@.len() - j,
            {
                if variants[j].untagged {
                    proof {
                        assert(vdv[j as int].untagged);
                        lemma_first_untagged_prefix(vdv, j as int);
                    }
                    let mut fields: Vec<TolValue> = Vec::new();
                    fields.push(TolValue::Opaque(d.duplicate()));
                    proof {
                        crate::value::lemma_view_tol_seq(fields@);
                        assert(crate::value::view_tol_seq(fields@) =~= seq![
                            TolValueV::Opaque(d@),
                        ]);
                    }
                    return Ok(TolValue::Un { tag: j, fields });
                }
                j = j + 1;
            }
            proof {
                lemma_first_untagged(vdv);
                if has_untagged(vdv) {
                    let k = choose|k: int| 0 <= k < vdv.len() && (#[trigger] vdv[k]).untagged;
                    assert(false);
                }
            }
            match catch_all {
                Some(fb) => {
                    let ok: bool = match fb {
                        FallbackTy::Any => true,
                        FallbackTy::Arity(n) => match d {
                            Dyn::List(items) => {
                                proof {
                                    crate::value::lemma_view_dyn_seq(items@);
                                }
                                items.len() == *n
                            },
                            _ => false,
                        },
                    };
                    proof {
                        assert(ok == fits(*fb, d@));
                    }
                    if ok {
                        Ok(TolValue::Unknown(d.duplicate()))
                    } else {
                        Err(DecodeError::Mismatch)
                    }
                },
                None => Err(DecodeError::Mismatch),
            }
        },
    }
}

/// Decodes the payload of a committed tagged variant: the tag sits at the
/// head of the wire list and the field slots follow it.
fn decode_payload(
    tdefs: &TolDefs,
    fds: &Vec<FieldDef>,
    d: &Dyn,
    tag: usize,
    Ghost(vdv): Ghost<Seq<VariantDefV>>,
) -> (r: Result<TolValue, DecodeError>)
    requires
        tol_refs_ok(tdefs@),
        crate::schema::fields_resolve(fds.deep_view(), tdefs@.len() as int),
        first_tag_match(vdv, d@) == Some(tag as int),
        0 <= tag < vdv.len(),
        !(vdv[tag as int].fields is Unit),
        fields_of_variant(vdv[tag as int].fields) == fds.deep_view(),
    ensures
        match r {
            Ok(tv) => dec_payload_spec(tdefs@, vdv, tag as int, fds.deep_view(), d@) == Some(
                tv@,
            ),
            Err(e) => dec_payload_spec(tdefs@, vdv, tag as int, fds.deep_view(), d@) is None,
        },
    decreases d, 0int,
{
    match d {
        Dyn::List(items) => {
            proof {
                crate::value::lemma_view_dyn_seq(items@);
            }
            if items.len() == 0 || items.len() - 1 != fds.len() {
                return Err(DecodeError::Mismatch);
            }
            let rr = decode_fields_from(tdefs, fds, items, 1);
            proof {
                assert(d@->List_0 =~= crate::value::view_dyn_seq(items@));
            }
            match rr {
                Ok(vs) => Ok(TolValue::Un { tag, fields: vs }),
                Err(e) => Err(e),
            }
        },
        _ => {
            proof {
                lemma_first_tag_match(vdv, d@);
                assert(tag_match(vdv[tag as int], d@));
                assert(false);
            }
            Err(DecodeError::Mismatch)
        },
    }
}

/// What the decoder produces for a committed tagged variant.
pub open spec fn dec_payload_spec(
    tdefs: Seq<TolTypeDefV>,
    vdv: Seq<VariantDefV>,
    tag: int,
    fds: Seq<FieldDefV>,
    d: DynV,
) -> Option<TolValueV> {
    if d matches DynV::List(items) && items.len() == fds.len() + 1 {
        match dec_fields(tdefs, fds, d->List_0.subrange(1, d->List_0.len() as int)) {
            Some(vs) => Some(TolValueV::Un { tag, fields: vs }),
            None => None,
        }
    } else {
        None
    }
}

fn decode_fields_from(tdefs: &TolDefs, fds: &Vec<FieldDef>, items: &Vec<Dyn>, start: usize) -> (r:
    Result<Vec<TolValue>, DecodeError>)
    requires
        tol_refs_ok(tdefs@),
        crate::schema::fields_resolve(fds.deep_view(), tdefs@.len() as int),
        start <= items@.len(),
        items@.len() - start == fds@.len(),
    ensures
        match r {
            Ok(vs) => dec_fields(
                tdefs@,
                fds.deep_view(),
                crate::value::view_dyn_seq(items@).subrange(
                    start as int,
                    items@.len() as int,
                ),
            ) == Some(crate::value::view_tol_seq(vs@)),
            Err(e) => dec_fields(
                tdefs@,
                fds.deep_view(),
                crate::value::view_dyn_seq(items@).subrange(
                    start as int,
                    items@.len() as int,
                ),
            ) is None,
        },
    decreases items, 0int,
{
    let ghost fdsv = fds.deep_view();
    let ghost iv = crate::value::view_dyn_seq(items@);
    proof {
        crate::value::lemma_view_dyn_seq(items@);
    }
    let ghost whole = iv.subrange(start as int, iv.len() as int);
    let n = fds.len();
    let total = items.len();
    proof {
        assert(fdsv.subrange(0, fdsv.len() as int) =~= fdsv);
        assert(whole.subrange(0, whole.len() as int) =~= whole);
    }
    let mut vs: Vec<TolValue> = Vec::new();
    let mut k: usize = 0;
    while k < n
        invariant
            0 <= k <= n,
            n == fds@.len(),
            fdsv == fds.deep_view(),
            fdsv.len() == n,
            iv == crate::value::view_dyn_seq(items@),
            iv.len() == items@.len(),
            forall|k2: int| 0 <= k2 < iv.len() ==> iv[k2] == crate::value::view_dyn(
                items@[k2],
            ),
            whole == iv.subrange(start as int, iv.len() as int),
            total == items@.len(),
            start + n == total,
            tol_refs_ok(tdefs@),
            crate::schema::fields_resolve(fdsv, tdefs@.len() as int),
            vs@.len() == k,
            dec_fields(tdefs@, fdsv, whole) == (match dec_fields(
                tdefs@,
                fdsv.subrange(k as int, n as int),
                iv.subrange(start + k, iv.len() as int),
            ) {
                Some(rest) => Some(crate::value::view_tol_seq(vs@) + rest),
                None => None::<Seq<TolValueV>>,
            }),
        decreases n - k,
    {
        let ghost fsuf = fdsv.subrange(k as int, n as int);
        let ghost isuf = iv.subrange(start + k, iv.len() as int);
        proof {
            crate::value::lemma_view_tol_seq(vs@);
            assert(fsuf[0] == fdsv[k as int]);
            assert(isuf[0] == iv[start + k]);
            assert(fsuf.subrange(1, fsuf.len() as int) =~= fdsv.subrange(
                k as int + 1,
                n as int,
            ));
            assert(isuf.subrange(1, isuf.len() as int) =~= iv.subrange(
                start + k + 1,
                iv.len() as int,
            ));
            assert(crate::schema::field_resolves(fdsv[k as int], tdefs@.len() as int));
        }
        let fd = &fds[k];
        proof {
            assert(fd.deep_view() == fdsv[k as int]);
        }
        let head: TolValue = if fd.evolvable {
            match fd.ty {
                FieldTy::Named(j) => {
                    match decode_tolerant(tdefs, j, &items[start + k]) {
                        Ok(tv) => tv,
                        Err(e) => {
                            proof {
                                assert(dec_fields(tdefs@, fsuf, isuf) is None);
                            }
                            return Err(e);
                        },
                    }
                },
                FieldTy::Opaque => {
                    proof {
                        assert(false);
                    }
                    TolValue::Opaque(Dyn::Null)
                },
            }
        } else {
            TolValue::Opaque(items[start + k].duplicate())
        };
        proof {
            assert(dec_fields(tdefs@, fsuf, isuf) == (match dec_fields(
                tdefs@,
                fsuf.subrange(1, fsuf.len() as int),
                isuf.subrange(1, isuf.len() as int),
            ) {
                Some(rest) => Some(seq![head@] + rest),
                None => None::<Seq<TolValueV>>,
            }));
        }
        let ghost vs_prev = vs@;
        vs.push(head);
        proof {
            crate::value::lemma_view_tol_seq(vs@);
            crate::value::lemma_view_tol_seq(vs_prev);
            assert(vs@ =~= vs_prev.push(head));
            assert(crate::value::view_tol_seq(vs@) =~= crate::value::view_tol_seq(
                vs_prev,
            ).push(head@));
            let suf1 = dec_fields(
                tdefs@,
                fdsv.subrange(k as int + 1, n as int),
                iv.subrange(start + k + 1, iv.len() as int),
            );
            if suf1 is Some {
                let rest = suf1->Some_0;
                assert(crate::value::view_tol_seq(vs_prev) + (seq![head@] + rest)
                    =~= crate::value::view_tol_seq(vs@) + rest);
            }
        }
        k = k + 1;
    }
    proof {
        assert(fdsv.subrange(n as int, n as int) =~= Seq::<FieldDefV>::empty());
        assert(iv.subrange(start + n, iv.len() as int) =~= Seq::<DynV>::empty());
        assert(dec_fields(tdefs@, fdsv, whole) == Some(
            crate::value::view_tol_seq(vs@) + Seq::<TolValueV>::empty(),
        ));
        assert(crate::value::view_tol_seq(vs@) + Seq::<TolValueV>::empty()
            =~= crate::value::view_tol_seq(vs@));
    }
    Ok(vs)
}

/// The forward-compatibility pipeline, end to end: whatever the newer
/// writer encodes, the older reader decodes into the absorbed image, which
/// is well formed, and upgrading it succeeds exactly when the writer used
/// no variant the reader's tolerant arms had to capture.
pub proof fn lemma_forward_upgrade(
    new: Seq<TypeDefV>,
    old: Seq<TypeDefV>,
    tdefs: Seq<TolTypeDefV>,
    dflt: Option<FallbackTy>,
    t: int,
    v: ValueV,
)
    requires
        extends(new, old),
        mirrors_all(old, tdefs, dflt),
        crate::schema::fallback_ok(old, dflt),
        codec_ok(tdefs),
        permissive(tdefs),
        tol_refs_ok(tdefs),
        wf_value(new, t, v),
        base_enc_ok(new, t, v),
    ensures
        dec_tol(tdefs, t, enc_value(new, t, v)) == Some(absorb(new, old, t, v)),
        tol_wf(tdefs, t, absorb(new, old, t, v)),
        crate::convert::spec_upgrade(tdefs, t, absorb(new, old, t, v)) is Ok
            <==> !uses_unknown_variant(new, old, t, v),
{
    lemma_forward_decode(new, old, tdefs, dflt, t, v);
    lemma_decode_wf(tdefs, t, enc_value(new, t, v));
    crate::convert::lemma_upgrade_ok_iff_clean(tdefs, t, absorb(new, old, t, v));
    lemma_absorb_clean(new, old, t, v);
}

} // verus!
