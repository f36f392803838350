//! The generic YAML value tree: the data model that parsing produces and
//! substitution rewrites.

use vstd::prelude::*;

verus! {

broadcast use vstd::std_specs::vec::group_vec_axioms, vstd::seq::group_seq_axioms;

/// A parsed YAML value: a tagged tree. A real (floating-point) scalar is
/// carried as its source text, exactly as the parser hands it over.
#[derive(Debug, PartialEq)]
pub enum Value {
    Null,
    Boolean(bool),
    Integer(i64),
    Real(String),
    Str(String),
    Sequence(Vec<Value>),
    Mapping(Vec<(Value, Value)>),
}

/// The mathematical shape of a [`Value`]: strings as character sequences,
/// collections as `Seq`.
pub enum ValueModel {
    Null,
    Boolean(bool),
    Integer(int),
    Real(Seq<char>),
    Str(Seq<char>),
    Sequence(Seq<ValueModel>),
    Mapping(Seq<(ValueModel, ValueModel)>),
}

/// The model of a value.
pub open spec fn model_of(v: Value) -> ValueModel
    decreases v,
{
    match v {
        Value::Null => ValueModel::Null,
        Value::Boolean(b) => ValueModel::Boolean(b),
        Value::Integer(i) => ValueModel::Integer(i as int),
        Value::Real(s) => ValueModel::Real(s@),
        Value::Str(s) => ValueModel::Str(s@),
        Value::Sequence(elems) => ValueModel::Sequence(models_of(elems@)),
        Value::Mapping(pairs) => ValueModel::Mapping(pair_models_of(pairs@)),
    }
}

/// The models of a sequence of values, elementwise.
pub open spec fn models_of(s: Seq<Value>) -> Seq<ValueModel>
    decreases s,
{
    if s.len() == 0 {
        Seq::empty()
    } else {
        seq![model_of(s[0])] + models_of(s.drop_first())
    }
}

/// The models of a sequence of (key, value) pairs, elementwise.
pub open spec fn pair_models_of(s: Seq<(Value, Value)>) -> Seq<(ValueModel, ValueModel)>
    decreases s,
{
    if s.len() == 0 {
        Seq::empty()
    } else {
        seq![(model_of(s[0].0), model_of(s[0].1))] + pair_models_of(s.drop_first())
    }
}

/// `models_of` is the elementwise image of `model_of`.
pub broadcast proof fn lemma_models_of_index(s: Seq<Value>)
    ensures
        (#[trigger] models_of(s)).len() == s.len(),
        forall|i: int| 0 <= i < s.len() ==> models_of(s)[i] == model_of(s[i]),
    decreases s,
{
    if s.len() > 0 {
        lemma_models_of_index(s.drop_first());
    }
}

/// `pair_models_of` is the elementwise image of `model_of` on both pair slots.
pub broadcast proof fn lemma_pair_models_of_index(s: Seq<(Value, Value)>)
    ensures
        (#[trigger] pair_models_of(s)).len() == s.len(),
        forall|i: int| 0 <= i < s.len() ==> pair_models_of(s)[i]
            == (model_of(s[i].0), model_of(s[i].1)),
    decreases s,
{
    if s.len() > 0 {
        lemma_pair_models_of_index(s.drop_first());
    }
}

/// Structure-preserving copy: the result has the same model as the original.
#[verifier::loop_isolation(false)]
pub fn duplicate(v: &Value) -> (r: Value)
    ensures
        model_of(r) == model_of(*v),
    decreases *v,
{
    broadcast use lemma_models_of_index, lemma_pair_models_of_index;

    match v {
        Value::Null => Value::Null,
        Value::Boolean(b) => Value::Boolean(*b),
        Value::Integer(i) => Value::Integer(*i),
        Value::Real(s) => Value::Real(s.clone()),
        Value::Str(s) => Value::Str(s.clone()),
        Value::Sequence(elems) => {
            let mut out: Vec<Value> = Vec::new();
            let mut i: usize = 0;
            while i < elems.len()
                invariant
                    i <= elems.len(),
                    out@.len() == i as int,
                    forall|j: int| 0 <= j < i ==> model_of(#[trigger] out@[j]) == model_of(elems@[j]),
                decreases elems.len() - i,
            {
                proof {
                    assert(*elems == v->Sequence_0);
                    assert(decreases_to!(*v => v->Sequence_0));
                    assert(decreases_to!(*elems => (*elems)[i as int]));
                }
                out.push(duplicate(&elems[i]));
                i = i + 1;
            }
            let r = Value::Sequence(out);
            proof {
                assert(models_of(out@) =~= models_of(elems@));
            }
            r
        }
        Value::Mapping(pairs) => {
            let mut out: Vec<(Value, Value)> = Vec::new();
            let mut i: usize = 0;
            while i < pairs.len()
                invariant
                    i <= pairs.len(),
                    out@.len() == i as int,
                    forall|j: int| 0 <= j < i ==> model_of((#[trigger] out@[j]).0) == model_of(pairs@[j].0)
                        && model_of(out@[j].1) == model_of(pairs@[j].1),
                decreases pairs.len() - i,
            {
                proof {
                    assert(*pairs == v->Mapping_0);
                    assert(decreases_to!(*v => v->Mapping_0));
                    assert(decreases_to!(*pairs => (*pairs)[i as int]));
                }
                let k = duplicate(&pairs[i].0);
                let w = duplicate(&pairs[i].1);
                out.push((k, w));
                i = i + 1;
            }
            let r = Value::Mapping(out);
            proof {
                assert(pair_models_of(out@) =~= pair_models_of(pairs@));
            }
            r
        }
    }
}

} // verus!
