//! Runtime values: the self-describing opaque value, values of the original
//! (evolved) shapes, and values of the tolerant (devolved) mirror shapes.

use vstd::prelude::*;

verus! {

/// A self-describing value.  It carries the content of fields the engine
/// never interprets, and it is the default fallback representation for the
/// payload of an unrecognized variant.
#[derive(Debug, PartialEq, Eq)]
pub enum Dyn {
    Null,
    Bool(bool),
    Int(i64),
    Text(String),
    List(Vec<Dyn>),
}

/// Mathematical form of [`Dyn`].
pub enum DynV {
    Null,
    Bool(bool),
    Int(int),
    Text(Seq<char>),
    List(Seq<DynV>),
}

pub open spec fn view_dyn_seq(s: Seq<Dyn>) -> Seq<DynV>
    decreases s,
{
    if s.len() == 0 {
        Seq::empty()
    } else {
        view_dyn_seq(s.subrange(0, s.len() as int - 1)).push(view_dyn(s[s.len() as int - 1]))
    }
}

pub open spec fn view_dyn(d: Dyn) -> DynV
    decreases d,
{
    match d {
        Dyn::Null => DynV::Null,
        Dyn::Bool(b) => DynV::Bool(b),
        Dyn::Int(i) => DynV::Int(i as int),
        Dyn::Text(t) => DynV::Text(t@),
        Dyn::List(items) => DynV::List(view_dyn_seq(items@)),
    }
}

pub proof fn lemma_view_dyn_seq(s: Seq<Dyn>)
    ensures
        view_dyn_seq(s).len() == s.len(),
        forall|i: int| 0 <= i < s.len() ==> view_dyn_seq(s)[i] == view_dyn(s[i]),
    decreases s,
{
    if s.len() > 0 {
        lemma_view_dyn_seq(s.subrange(0, s.len() as int - 1));
    }
}

impl View for Dyn {
    type V = DynV;

    open spec fn view(&self) -> DynV {
        view_dyn(*self)
    }
}

impl Dyn {
    /// A structural copy.  `Dyn` is recursive, so the copy is written out
    /// and verified rather than derived.
    pub fn duplicate(&self) -> (r: Dyn)
        ensures
            r@ == self@,
        decreases self,
    {
        match self {
            Dyn::Null => Dyn::Null,
            Dyn::Bool(b) => Dyn::Bool(*b),
            Dyn::Int(i) => Dyn::Int(*i),
            Dyn::Text(t) => Dyn::Text(t.clone()),
            Dyn::List(items) => Dyn::List(duplicate_dyns(items)),
        }
    }
}

fn duplicate_dyns(items: &Vec<Dyn>) -> (r: Vec<Dyn>)
    ensures
        view_dyn_seq(r@) == view_dyn_seq(items@),
    decreases items,
{
    let mut r: Vec<Dyn> = Vec::new();
    let mut i: usize = 0;
    while i < items.len()
        invariant
            0 <= i <= items@.len(),
            r@.len() == i,
            forall|k: int| 0 <= k < i ==> view_dyn(#[trigger] r@[k]) == view_dyn(items@[k]),
        decreases items@.len() - i,
    {
        let d = items[i].duplicate();
        r.push(d);
        i = i + 1;
    }
    proof {
        lemma_view_dyn_seq(r@);
        lemma_view_dyn_seq(items@);
        assert(view_dyn_seq(r@) =~= view_dyn_seq(items@));
    }
    r
}

/// A value of an original (evolved) type.  The variant says which kind of
/// slot it fills: a record value, a tagged-union value carrying its variant
/// index, or the uninterpreted content of a field that is not evolvable.
#[derive(Debug, PartialEq, Eq)]
pub enum Value {
    Rec { fields: Vec<Value> },
    Un { tag: usize, fields: Vec<Value> },
    Opaque(Dyn),
}

/// Mathematical form of [`Value`].
pub enum ValueV {
    Rec { fields: Seq<ValueV> },
    Un { tag: int, fields: Seq<ValueV> },
    Opaque(DynV),
}

pub open spec fn view_value_seq(s: Seq<Value>) -> Seq<ValueV>
    decreases s,
{
    if s.len() == 0 {
        Seq::empty()
    } else {
        view_value_seq(s.subrange(0, s.len() as int - 1)).push(view_value(s[s.len() as int - 1]))
    }
}

pub open spec fn view_value(v: Value) -> ValueV
    decreases v,
{
    match v {
        Value::Rec { fields } => ValueV::Rec { fields: view_value_seq(fields@) },
        Value::Un { tag, fields } => ValueV::Un {
            tag: tag as int,
            fields: view_value_seq(fields@),
        },
        Value::Opaque(d) => ValueV::Opaque(view_dyn(d)),
    }
}

pub proof fn lemma_view_value_seq(s: Seq<Value>)
    ensures
        view_value_seq(s).len() == s.len(),
        forall|i: int| 0 <= i < s.len() ==> view_value_seq(s)[i] == view_value(s[i]),
    decreases s,
{
    if s.len() > 0 {
        lemma_view_value_seq(s.subrange(0, s.len() as int - 1));
    }
}

impl View for Value {
    type V = ValueV;

    open spec fn view(&self) -> ValueV {
        view_value(*self)
    }
}

/// A value of a tolerant (devolved) mirror type.  Alongside the shapes of
/// [`Value`] it has one more form: the synthetic catch-all arm, holding the
/// fallback value captured for an unrecognized variant.
#[derive(Debug, PartialEq, Eq)]
pub enum TolValue {
    Rec { fields: Vec<TolValue> },
    Un { tag: usize, fields: Vec<TolValue> },
    Unknown(Dyn),
    Opaque(Dyn),
}

/// Mathematical form of [`TolValue`].
pub enum TolValueV {
    Rec { fields: Seq<TolValueV> },
    Un { tag: int, fields: Seq<TolValueV> },
    Unknown(DynV),
    Opaque(DynV),
}

pub open spec fn view_tol_seq(s: Seq<TolValue>) -> Seq<TolValueV>
    decreases s,
{
    if s.len() == 0 {
        Seq::empty()
    } else {
        view_tol_seq(s.subrange(0, s.len() as int - 1)).push(view_tol(s[s.len() as int - 1]))
    }
}

pub open spec fn view_tol(v: TolValue) -> TolValueV
    decreases v,
{
    match v {
        TolValue::Rec { fields } => TolValueV::Rec { fields: view_tol_seq(fields@) },
        TolValue::Un { tag, fields } => TolValueV::Un {
            tag: tag as int,
            fields: view_tol_seq(fields@),
        },
        TolValue::Unknown(d) => TolValueV::Unknown(view_dyn(d)),
        TolValue::Opaque(d) => TolValueV::Opaque(view_dyn(d)),
    }
}

pub proof fn lemma_view_tol_seq(s: Seq<TolValue>)
    ensures
        view_tol_seq(s).len() == s.len(),
        forall|i: int| 0 <= i < s.len() ==> view_tol_seq(s)[i] == view_tol(s[i]),
    decreases s,
{
    if s.len() > 0 {
        lemma_view_tol_seq(s.subrange(0, s.len() as int - 1));
    }
}

impl View for TolValue {
    type V = TolValueV;

    open spec fn view(&self) -> TolValueV {
        view_tol(*self)
    }
}

} // verus!
