//! The substitution engine: the recursive rewrite that expands
//! `SNIPPET_<key>` placeholders from the registry, splices sequence-valued
//! results into their containing sequence, and detects reference cycles
//! with a resolution trail.

use vstd::prelude::*;
use crate::value::{Value, ValueModel, model_of, models_of, pair_models_of, duplicate,
    lemma_models_of_index, lemma_pair_models_of_index};
use crate::errors::{Error, ErrorModel, error_model, strs_of};
use crate::registry::{Registry, lemma_registry_finite};

verus! {

broadcast use vstd::std_specs::vec::group_vec_axioms, vstd::seq::group_seq_axioms,
    vstd::set::group_set_axioms, vstd::map::group_map_axioms,
    vstd::seq_lib::group_seq_properties;

/// The sentinel prefix that marks a scalar string as a placeholder.
pub open spec fn placeholder_prefix() -> Seq<char> {
    "SNIPPET_"@
}

/// A string is a placeholder exactly when it starts with the sentinel
/// prefix; the rest of the string is the referenced key.
pub open spec fn is_placeholder(s: Seq<char>) -> bool {
    s.len() >= 8 && s.subrange(0, 8) == placeholder_prefix()
}

/// The key a placeholder references: the string with the prefix removed.
pub open spec fn placeholder_key(s: Seq<char>) -> Seq<char> {
    s.skip(8)
}

/// How many registry keys are not yet on the trail: the engine's
/// termination measure, since a key enters the trail only once.
pub open spec fn free_keys(reg: Map<Seq<char>, ValueModel>, trail: Seq<Seq<char>>) -> nat {
    reg.dom().difference(trail.to_set()).len()
}

/// Pushing a fresh registry key onto the trail strictly shrinks the
/// number of free keys.
pub proof fn lemma_free_keys_push(
    reg: Map<Seq<char>, ValueModel>,
    trail: Seq<Seq<char>>,
    key: Seq<char>,
)
    requires
        reg.dom().finite(),
        reg.dom().contains(key),
        !trail.contains(key),
    ensures
        free_keys(reg, trail.push(key)) < free_keys(reg, trail),
{
    assert(trail.push(key).to_set() =~= trail.to_set().insert(key)) by {
        assert forall|x: Seq<char>| trail.push(key).contains(x)
            implies trail.to_set().insert(key).contains(x) by {
            let i = choose|i: int| 0 <= i < trail.push(key).len() && trail.push(key)[i] == x;
            if i < trail.len() {
                assert(trail.contains(x));
            }
        }
        assert forall|x: Seq<char>| trail.to_set().insert(key).contains(x)
            implies trail.push(key).contains(x) by {
            if x == key {
                assert(trail.push(key)[trail.len() as int] == x);
            } else {
                let i = choose|i: int| 0 <= i < trail.len() && trail[i] == x;
                assert(trail.push(key)[i] == x);
            }
        }
    }
    assert(reg.dom().difference(trail.push(key).to_set())
        =~= reg.dom().difference(trail.to_set()).remove(key));
    assert(reg.dom().difference(trail.to_set()).contains(key));
}

/// What `substitute` returns for a value: the placeholder-resolution rule.
///
/// A non-placeholder scalar is returned unchanged. A placeholder fails on a
/// key already being expanded (a cycle) or absent from the registry, and
/// otherwise expands to the recursive substitution of the registered raw
/// value, with the key on the trail while that runs. Sequences and mapping
/// values are rewritten elementwise; mapping keys pass through untouched.
pub open spec fn subst_value(
    reg: Map<Seq<char>, ValueModel>,
    trail: Seq<Seq<char>>,
    v: ValueModel,
) -> Result<ValueModel, ErrorModel>
    decreases free_keys(reg, trail), v, 0int,
        when reg.dom().finite()
        via subst_value_decreases
{
    match v {
        ValueModel::Str(s) => {
            if !is_placeholder(s) {
                Ok(ValueModel::Str(s))
            } else {
                let key = placeholder_key(s);
                if trail.contains(key) {
                    Err(ErrorModel::CircularReference(trail, key))
                } else if !reg.dom().contains(key) {
                    Err(ErrorModel::UnresolvedSnippet(key))
                } else {
                    subst_value(reg, trail.push(key), reg[key])
                }
            }
        },
        ValueModel::Sequence(elems) => match subst_elems(reg, trail, elems) {
            Ok(es) => Ok(ValueModel::Sequence(es)),
            Err(e) => Err(e),
        },
        ValueModel::Mapping(pairs) => match subst_pairs(reg, trail, pairs) {
            Ok(ps) => Ok(ValueModel::Mapping(ps)),
            Err(e) => Err(e),
        },
        other => Ok(other),
    }
}

/// What a substituted element contributes to its containing sequence:
/// a sequence that replaced a scalar string is spliced in, flattened one
/// level; anything else stays one element.
pub open spec fn splice(orig: ValueModel, subst: ValueModel) -> Seq<ValueModel> {
    if orig is Str && subst is Sequence {
        subst->Sequence_0
    } else {
        seq![subst]
    }
}

/// Elementwise substitution of a sequence's elements, splicing included;
/// the first failure aborts.
pub open spec fn subst_elems(
    reg: Map<Seq<char>, ValueModel>,
    trail: Seq<Seq<char>>,
    elems: Seq<ValueModel>,
) -> Result<Seq<ValueModel>, ErrorModel>
    decreases free_keys(reg, trail), elems, 1int,
        when reg.dom().finite()
{
    if elems.len() == 0 {
        Ok(Seq::empty())
    } else {
        match subst_value(reg, trail, elems[0]) {
            Err(e) => Err(e),
            Ok(v) => match subst_elems(reg, trail, elems.drop_first()) {
                Err(e) => Err(e),
                Ok(rest) => Ok(splice(elems[0], v) + rest),
            },
        }
    }
}

/// Substitution of a mapping's pairs: keys pass through unchanged, values
/// are substituted; the first failure aborts.
pub open spec fn subst_pairs(
    reg: Map<Seq<char>, ValueModel>,
    trail: Seq<Seq<char>>,
    pairs: Seq<(ValueModel, ValueModel)>,
) -> Result<Seq<(ValueModel, ValueModel)>, ErrorModel>
    decreases free_keys(reg, trail), pairs, 1int,
        when reg.dom().finite()
{
    if pairs.len() == 0 {
        Ok(Seq::empty())
    } else {
        match subst_value(reg, trail, pairs[0].1) {
            Err(e) => Err(e),
            Ok(v) => match subst_pairs(reg, trail, pairs.drop_first()) {
                Err(e) => Err(e),
                Ok(rest) => Ok(seq![(pairs[0].0, v)] + rest),
            },
        }
    }
}

/// Substituting the concatenation of two element sequences substitutes
/// them in turn, the first failure winning.
pub proof fn lemma_subst_elems_append(
    reg: Map<Seq<char>, ValueModel>,
    trail: Seq<Seq<char>>,
    s1: Seq<ValueModel>,
    s2: Seq<ValueModel>,
)
    requires
        reg.dom().finite(),
    ensures
        subst_elems(reg, trail, s1 + s2) == (match subst_elems(reg, trail, s1) {
            Err(e) => Err::<Seq<ValueModel>, ErrorModel>(e),
            Ok(r1) => match subst_elems(reg, trail, s2) {
                Err(e) => Err(e),
                Ok(r2) => Ok(r1 + r2),
            },
        }),
    decreases s1.len(),
{
    if s1.len() == 0 {
        assert(s1 + s2 =~= s2);
        match subst_elems(reg, trail, s2) {
            Ok(r2) => {
                assert(Seq::<ValueModel>::empty() + r2 =~= r2);
            },
            Err(_) => {},
        }
    } else {
        assert((s1 + s2).len() > 0);
        assert((s1 + s2)[0] == s1[0]);
        assert((s1 + s2).drop_first() =~= s1.drop_first() + s2);
        lemma_subst_elems_append(reg, trail, s1.drop_first(), s2);
        match (subst_value(reg, trail, s1[0]), subst_elems(reg, trail, s1.drop_first()),
            subst_elems(reg, trail, s2)) {
            (Ok(v), Ok(r1), Ok(r2)) => {
                assert(splice(s1[0], v) + (r1 + r2) =~= (splice(s1[0], v) + r1) + r2);
            },
            _ => {},
        }
    }
}

/// The pair analogue of [`lemma_subst_elems_append`].
pub proof fn lemma_subst_pairs_append(
    reg: Map<Seq<char>, ValueModel>,
    trail: Seq<Seq<char>>,
    s1: Seq<(ValueModel, ValueModel)>,
    s2: Seq<(ValueModel, ValueModel)>,
)
    requires
        reg.dom().finite(),
    ensures
        subst_pairs(reg, trail, s1 + s2) == (match subst_pairs(reg, trail, s1) {
            Err(e) => Err::<Seq<(ValueModel, ValueModel)>, ErrorModel>(e),
            Ok(r1) => match subst_pairs(reg, trail, s2) {
                Err(e) => Err(e),
                Ok(r2) => Ok(r1 + r2),
            },
        }),
    decreases s1.len(),
{
    if s1.len() == 0 {
        assert(s1 + s2 =~= s2);
        match subst_pairs(reg, trail, s2) {
            Ok(r2) => {
                assert(Seq::<(ValueModel, ValueModel)>::empty() + r2 =~= r2);
            },
            Err(_) => {},
        }
    } else {
        assert((s1 + s2).len() > 0);
        assert((s1 + s2)[0] == s1[0]);
        assert((s1 + s2).drop_first() =~= s1.drop_first() + s2);
        lemma_subst_pairs_append(reg, trail, s1.drop_first(), s2);
        match (subst_value(reg, trail, s1[0].1), subst_pairs(reg, trail, s1.drop_first()),
            subst_pairs(reg, trail, s2)) {
            (Ok(v), Ok(r1), Ok(r2)) => {
                assert(seq![(s1[0].0, v)] + (r1 + r2) =~= (seq![(s1[0].0, v)] + r1) + r2);
            },
            _ => {},
        }
    }
}

/// Whether a string starts with the placeholder prefix.
pub fn is_placeholder_str(s: &String) -> (r: bool)
    ensures
        r == is_placeholder(s@),
{
    let n = s.as_str().unicode_len();
    if n < 8 {
        false
    } else {
        let head = s.as_str().substring_char(0, 8).to_owned();
        head.eq(&String::from_str("SNIPPET_"))
    }
}

/// The key a placeholder string references.
pub fn placeholder_key_str(s: &String) -> (r: String)
    requires
        is_placeholder(s@),
    ensures
        r@ == placeholder_key(s@),
{
    let n = s.as_str().unicode_len();
    s.as_str().substring_char(8, n).to_owned()
}

/// Whether the trail already holds `key`.
fn trail_contains(trail: &Vec<String>, key: &String) -> (r: bool)
    ensures
        r == strs_of(trail@).contains(key@),
{
    let mut i: usize = 0;
    while i < trail.len()
        invariant
            i <= trail@.len(),
            forall|j: int| 0 <= j < i ==> (#[trigger] trail@[j])@ != key@,
        decreases trail@.len() - i,
    {
        if trail[i].eq(key) {
            proof {
                assert(strs_of(trail@)[i as int] == key@);
            }
            return true;
        }
        i = i + 1;
    }
    proof {
        assert forall|j: int| 0 <= j < strs_of(trail@).len()
            implies strs_of(trail@)[j] != key@ by {
            assert(strs_of(trail@)[j] == trail@[j]@);
        }
    }
    false
}

/// A copy of a trail, for error reporting.
fn clone_strings(v: &Vec<String>) -> (r: Vec<String>)
    ensures
        r@ == v@,
{
    let mut out: Vec<String> = Vec::new();
    let mut i: usize = 0;
    while i < v.len()
        invariant
            i <= v@.len(),
            out@ == v@.subrange(0, i as int),
        decreases v@.len() - i,
    {
        out.push(v[i].clone());
        proof {
            assert(out@ =~= v@.subrange(0, i + 1 as int));
        }
        i = i + 1;
    }
    proof {
        assert(out@ =~= v@);
    }
    out
}

/// The recursive rewrite itself, threading the resolution trail. On
/// success the trail is exactly as it was.
#[verifier::loop_isolation(false)]
fn subst_node(reg: &Registry, trail: &mut Vec<String>, node: &Value) -> (r: Result<Value, Error>)
    ensures
        r matches Ok(v) ==> subst_value(reg@, strs_of(old(trail)@), model_of(*node))
            == Ok::<ValueModel, ErrorModel>(model_of(v)) && final(trail)@ == old(trail)@,
        r matches Err(e) ==> subst_value(reg@, strs_of(old(trail)@), model_of(*node))
            == Err::<ValueModel, ErrorModel>(error_model(e)),
    decreases free_keys(reg@, strs_of(trail@)), *node,
{
    broadcast use lemma_models_of_index, lemma_pair_models_of_index;

    proof {
        lemma_registry_finite(reg);
    }
    let ghost t0 = strs_of(trail@);
    match node {
        Value::Null => Ok(Value::Null),
        Value::Boolean(b) => Ok(Value::Boolean(*b)),
        Value::Integer(i) => Ok(Value::Integer(*i)),
        Value::Real(s) => Ok(Value::Real(s.clone())),
        Value::Str(s) => {
            if !is_placeholder_str(s) {
                Ok(Value::Str(s.clone()))
            } else {
                let key = placeholder_key_str(s);
                if trail_contains(trail, &key) {
                    Err(Error::CircularReference(clone_strings(trail), key))
                } else {
                    match reg.get(&key) {
                        None => Err(Error::UnresolvedSnippet(key)),
                        Some(snip) => {
                            proof {
                                lemma_free_keys_push(reg@, t0, key@);
                                assert(strs_of(trail@.push(key)) =~= t0.push(key@));
                            }
                            trail.push(key);
                            let res = subst_node(reg, trail, snip);
                            match res {
                                Ok(v) => {
                                    trail.pop();
                                    proof {
                                        assert(trail@ =~= old(trail)@);
                                    }
                                    Ok(v)
                                },
                                Err(e) => Err(e),
                            }
                        },
                    }
                }
            }
        },
        Value::Sequence(elems) => {
            let ghost full = models_of(elems@);
            let mut out: Vec<Value> = Vec::new();
            let mut i: usize = 0;
            while i < elems.len()
                invariant
                    i <= elems@.len(),
                    trail@ == old(trail)@,
                    subst_elems(reg@, t0, full.subrange(0, i as int))
                        == Ok::<Seq<ValueModel>, ErrorModel>(models_of(out@)),
                decreases elems@.len() - i,
            {
                let ghost done = full.subrange(0, i as int);
                let elem = &elems[i];
                let was_str = match elem {
                    Value::Str(_) => true,
                    _ => false,
                };
                proof {
                    assert(*elems == node->Sequence_0);
                    assert(decreases_to!(*node => node->Sequence_0));
                    assert(decreases_to!(*elems => (*elems)[i as int]));
                }
                let res = subst_node(reg, trail, elem);
                proof {
                    lemma_subst_elems_append(reg@, t0, done, seq![full[i as int]]);
                    assert(done + seq![full[i as int]] =~= full.subrange(0, i + 1));
                }
                match res {
                    Err(e) => {
                        proof {
                            lemma_subst_elems_append(
                                reg@,
                                t0,
                                full.subrange(0, i + 1),
                                full.subrange(i + 1, full.len() as int),
                            );
                            assert(full.subrange(0, i + 1) + full.subrange(i + 1, full.len() as int)
                                =~= full);
                        }
                        return Err(e);
                    },
                    Ok(v) => {
                        let ghost vm = model_of(v);
                        let ghost out0 = models_of(out@);
                        let ghost outv0 = out@;
                        proof {
                            assert(seq![full[i as int]].drop_first()
                                =~= Seq::<ValueModel>::empty());
                            assert(splice(full[i as int], vm) + Seq::<ValueModel>::empty()
                                =~= splice(full[i as int], vm));
                            assert(subst_elems(reg@, t0, seq![full[i as int]])
                                == Ok::<Seq<ValueModel>, ErrorModel>(splice(full[i as int], vm)));
                            assert(subst_elems(reg@, t0, full.subrange(0, i + 1))
                                == Ok::<Seq<ValueModel>, ErrorModel>(
                                out0 + splice(full[i as int], vm)));
                        }
                        if was_str {
                            match v {
                                Value::Sequence(mut items) => {
                                    proof {
                                        assert(splice(full[i as int], vm) == models_of(items@));
                                    }
                                    let ghost itemsv = items@;
                                    out.append(&mut items);
                                    proof {
                                        lemma_models_of_concat_split(out@, outv0.len() as int);
                                        assert(out@.subrange(0, outv0.len() as int) =~= outv0);
                                        assert(out@.subrange(outv0.len() as int, out@.len() as int)
                                            =~= itemsv);
                                    }
                                },
                                other => {
                                    out.push(other);
                                    proof {
                                        lemma_models_of_concat_split(out@, outv0.len() as int);
                                        assert(out@.subrange(0, outv0.len() as int) =~= outv0);
                                        assert(models_of(out@.subrange(outv0.len() as int,
                                            out@.len() as int)) =~= seq![vm]);
                                    }
                                },
                            }
                        } else {
                            out.push(v);
                            proof {
                                lemma_models_of_concat_split(out@, outv0.len() as int);
                                assert(out@.subrange(0, outv0.len() as int) =~= outv0);
                                assert(models_of(out@.subrange(outv0.len() as int,
                                    out@.len() as int)) =~= seq![vm]);
                            }
                        }
                        proof {
                            assert(models_of(out@) =~= out0 + splice(full[i as int], vm));
                        }
                        i = i + 1;
                    },
                }
            }
            proof {
                assert(full.subrange(0, elems@.len() as int) =~= full);
            }
            Ok(Value::Sequence(out))
        },
        Value::Mapping(pairs) => {
            let ghost full = pair_models_of(pairs@);
            let mut out: Vec<(Value, Value)> = Vec::new();
            let mut i: usize = 0;
            while i < pairs.len()
                invariant
                    i <= pairs@.len(),
                    trail@ == old(trail)@,
                    subst_pairs(reg@, t0, full.subrange(0, i as int))
                        == Ok::<Seq<(ValueModel, ValueModel)>, ErrorModel>(pair_models_of(out@)),
                decreases pairs@.len() - i,
            {
                let ghost done = full.subrange(0, i as int);
                proof {
                    assert(*pairs == node->Mapping_0);
                    assert(decreases_to!(*node => node->Mapping_0));
                    assert(decreases_to!(*pairs => (*pairs)[i as int]));
                }
                let k = duplicate(&pairs[i].0);
                let res = subst_node(reg, trail, &pairs[i].1);
                proof {
                    lemma_subst_pairs_append(reg@, t0, done, seq![full[i as int]]);
                    assert(done + seq![full[i as int]] =~= full.subrange(0, i + 1));
                }
                match res {
                    Err(e) => {
                        proof {
                            lemma_subst_pairs_append(
                                reg@,
                                t0,
                                full.subrange(0, i + 1),
                                full.subrange(i + 1, full.len() as int),
                            );
                            assert(full.subrange(0, i + 1) + full.subrange(i + 1, full.len() as int)
                                =~= full);
                        }
                        return Err(e);
                    },
                    Ok(v) => {
                        let ghost out0 = pair_models_of(out@);
                        let ghost outv0 = out@;
                        let ghost vm = model_of(v);
                        let ghost pm = (full[i as int].0, vm);
                        proof {
                            assert(model_of(k) == full[i as int].0);
                            assert(seq![full[i as int]].drop_first()
                                =~= Seq::<(ValueModel, ValueModel)>::empty());
                            assert(seq![pm] + Seq::<(ValueModel, ValueModel)>::empty()
                                =~= seq![pm]);
                            assert(subst_pairs(reg@, t0, seq![full[i as int]])
                                == Ok::<Seq<(ValueModel, ValueModel)>, ErrorModel>(seq![pm]));
                            assert(subst_pairs(reg@, t0, full.subrange(0, i + 1))
                                == Ok::<Seq<(ValueModel, ValueModel)>, ErrorModel>(out0 + seq![pm]));
                        }
                        out.push((k, v));
                        proof {
                            lemma_pair_models_of_concat_split(out@, outv0.len() as int);
                            assert(out@.subrange(0, outv0.len() as int) =~= outv0);
                            assert(pair_models_of(out@.subrange(outv0.len() as int,
                                out@.len() as int)) =~= seq![pm]);
                            assert(pair_models_of(out@) =~= out0 + seq![pm]);
                        }
                        i = i + 1;
                    },
                }
            }
            proof {
                assert(full.subrange(0, pairs@.len() as int) =~= full);
            }
            Ok(Value::Mapping(out))
        },
    }
}

/// `models_of` splits over a split of its argument.
proof fn lemma_models_of_concat_split(s: Seq<Value>, i: int)
    requires
        0 <= i <= s.len(),
    ensures
        models_of(s) =~= models_of(s.subrange(0, i)) + models_of(s.subrange(i, s.len() as int)),
{
    broadcast use lemma_models_of_index;

}

/// `pair_models_of` splits over a split of its argument.
proof fn lemma_pair_models_of_concat_split(s: Seq<(Value, Value)>, i: int)
    requires
        0 <= i <= s.len(),
    ensures
        pair_models_of(s) =~= pair_models_of(s.subrange(0, i))
            + pair_models_of(s.subrange(i, s.len() as int)),
{
    broadcast use lemma_pair_models_of_index;

}

/// Fully resolves one value against the registry: every placeholder
/// expanded, or the first failure. Substitution is a pure transform: the
/// input is left untouched and a fresh trail is used.
pub fn substitute(node: &Value, registry: &Registry) -> (r: Result<Value, Error>)
    ensures
        r matches Ok(v) ==> subst_value(registry@, Seq::empty(), model_of(*node))
            == Ok::<ValueModel, ErrorModel>(model_of(v)),
        r matches Err(e) ==> subst_value(registry@, Seq::empty(), model_of(*node))
            == Err::<ValueModel, ErrorModel>(error_model(e)),
{
    let mut trail: Vec<String> = Vec::new();
    proof {
        assert(strs_of(trail@) =~= Seq::<Seq<char>>::empty());
    }
    subst_node(registry, &mut trail, node)
}

/// A value that holds no placeholder string anywhere.
pub open spec fn placeholder_free(v: ValueModel) -> bool
    decreases v, 0int,
{
    match v {
        ValueModel::Str(s) => !is_placeholder(s),
        ValueModel::Sequence(elems) => placeholder_free_elems(elems),
        ValueModel::Mapping(pairs) => placeholder_free_pairs(pairs),
        _ => true,
    }
}

/// Elementwise [`placeholder_free`].
pub open spec fn placeholder_free_elems(elems: Seq<ValueModel>) -> bool
    decreases elems, 1int,
{
    if elems.len() == 0 {
        true
    } else {
        placeholder_free(elems[0]) && placeholder_free_elems(elems.drop_first())
    }
}

/// [`placeholder_free`] on both slots of every pair.
pub open spec fn placeholder_free_pairs(pairs: Seq<(ValueModel, ValueModel)>) -> bool
    decreases pairs, 1int,
{
    if pairs.len() == 0 {
        true
    } else {
        placeholder_free(pairs[0].0) && placeholder_free(pairs[0].1)
            && placeholder_free_pairs(pairs.drop_first())
    }
}

/// On a value holding no placeholder string, substitution is the
/// identity, whatever the registry and the trail.
pub proof fn lemma_substitute_identity(
    reg: Map<Seq<char>, ValueModel>,
    trail: Seq<Seq<char>>,
    v: ValueModel,
)
    requires
        reg.dom().finite(),
        placeholder_free(v),
    ensures
        subst_value(reg, trail, v) == Ok::<ValueModel, ErrorModel>(v),
    decreases v, 0int,
{
    match v {
        ValueModel::Sequence(elems) => {
            lemma_substitute_identity_elems(reg, trail, elems);
        },
        ValueModel::Mapping(pairs) => {
            lemma_substitute_identity_pairs(reg, trail, pairs);
        },
        _ => {},
    }
}

proof fn lemma_substitute_identity_elems(
    reg: Map<Seq<char>, ValueModel>,
    trail: Seq<Seq<char>>,
    elems: Seq<ValueModel>,
)
    requires
        reg.dom().finite(),
        placeholder_free_elems(elems),
    ensures
        subst_elems(reg, trail, elems) == Ok::<Seq<ValueModel>, ErrorModel>(elems),
    decreases elems, 1int,
{
    if elems.len() > 0 {
        lemma_substitute_identity(reg, trail, elems[0]);
        lemma_substitute_identity_elems(reg, trail, elems.drop_first());
        assert(splice(elems[0], elems[0]) == seq![elems[0]]);
        assert(seq![elems[0]] + elems.drop_first() =~= elems);
    } else {
        assert(elems =~= Seq::<ValueModel>::empty());
    }
}

proof fn lemma_substitute_identity_pairs(
    reg: Map<Seq<char>, ValueModel>,
    trail: Seq<Seq<char>>,
    pairs: Seq<(ValueModel, ValueModel)>,
)
    requires
        reg.dom().finite(),
        placeholder_free_pairs(pairs),
    ensures
        subst_pairs(reg, trail, pairs) == Ok::<Seq<(ValueModel, ValueModel)>, ErrorModel>(pairs),
    decreases pairs, 1int,
{
    if pairs.len() > 0 {
        lemma_substitute_identity(reg, trail, pairs[0].1);
        lemma_substitute_identity_pairs(reg, trail, pairs.drop_first());
        assert(seq![(pairs[0].0, pairs[0].1)] + pairs.drop_first() =~= pairs);
    } else {
        assert(pairs =~= Seq::<(ValueModel, ValueModel)>::empty());
    }
}

/// A placeholder element of a sequence is replaced by the registered
/// value; when that value is itself a sequence, its elements are spliced
/// in flat, and otherwise it stays one element. Shown on the sequence
/// `[SNIPPET_<key>, 1]` with a registered value holding no placeholders.
pub proof fn lemma_sequence_splice(reg: Map<Seq<char>, ValueModel>, key: Seq<char>, x: ValueModel)
    requires
        reg.dom().finite(),
        reg.dom().contains(key),
        reg[key] == x,
        placeholder_free(x),
    ensures
        subst_value(
            reg,
            Seq::empty(),
            ValueModel::Sequence(
                seq![ValueModel::Str(placeholder_prefix() + key), ValueModel::Integer(1)],
            ),
        ) == Ok::<ValueModel, ErrorModel>(ValueModel::Sequence(
            if x is Sequence {
                x->Sequence_0 + seq![ValueModel::Integer(1)]
            } else {
                seq![x, ValueModel::Integer(1)]
            },
        )),
{
    let s = placeholder_prefix() + key;
    let elems = seq![ValueModel::Str(s), ValueModel::Integer(1)];
    reveal_strlit("SNIPPET_");
    assert(s.subrange(0, 8) =~= placeholder_prefix());
    assert(is_placeholder(s));
    assert(placeholder_key(s) =~= key);
    let trail: Seq<Seq<char>> = Seq::empty();
    assert(!trail.contains(key));
    lemma_substitute_identity(reg, trail.push(key), x);
    assert(elems[0] == ValueModel::Str(s));
    assert(subst_value(reg, trail, elems[0]) == Ok::<ValueModel, ErrorModel>(x));
    assert(elems.drop_first() =~= seq![ValueModel::Integer(1)]);
    let one = seq![ValueModel::Integer(1)];
    assert(one[0] == ValueModel::Integer(1));
    assert(subst_value(reg, trail, ValueModel::Integer(1))
        == Ok::<ValueModel, ErrorModel>(ValueModel::Integer(1)));
    assert(one.drop_first() =~= Seq::<ValueModel>::empty());
    assert(subst_elems(reg, trail, one.drop_first())
        == Ok::<Seq<ValueModel>, ErrorModel>(Seq::<ValueModel>::empty()));
    assert(subst_elems(reg, trail, one) == Ok::<Seq<ValueModel>, ErrorModel>(
        splice(ValueModel::Integer(1), ValueModel::Integer(1)) + Seq::<ValueModel>::empty(),
    ));
    assert(splice(ValueModel::Integer(1), ValueModel::Integer(1)) + Seq::<ValueModel>::empty()
        =~= one);
    assert(subst_elems(reg, trail, elems) == Ok::<Seq<ValueModel>, ErrorModel>(
        splice(elems[0], x) + one,
    ));
    if x is Sequence {
        assert(splice(elems[0], x) == x->Sequence_0);
        assert(x->Sequence_0 + seq![ValueModel::Integer(1)]
            =~= splice(elems[0], x) + seq![ValueModel::Integer(1)]);
    } else {
        assert(splice(elems[0], x) == seq![x]);
        assert(seq![x] + seq![ValueModel::Integer(1)] =~= seq![x, ValueModel::Integer(1)]);
    }
}

/// A placeholder whose key the registry does not hold fails with exactly
/// `UnresolvedSnippet` of that key.
pub proof fn lemma_unresolved(reg: Map<Seq<char>, ValueModel>, key: Seq<char>)
    requires
        reg.dom().finite(),
        !reg.dom().contains(key),
    ensures
        subst_value(reg, Seq::empty(), ValueModel::Str(placeholder_prefix() + key))
            == Err::<ValueModel, ErrorModel>(ErrorModel::UnresolvedSnippet(key)),
{
    let s = placeholder_prefix() + key;
    reveal_strlit("SNIPPET_");
    assert(s.subrange(0, 8) =~= placeholder_prefix());
    assert(is_placeholder(s));
    assert(placeholder_key(s) =~= key);
    let trail: Seq<Seq<char>> = Seq::empty();
    assert(!trail.contains(key));
}

/// Substituting a mapping never touches its keys: the result is a mapping
/// with exactly the original keys, in order, even where a key's string
/// looks like a placeholder.
pub proof fn lemma_mapping_keys_preserved(
    reg: Map<Seq<char>, ValueModel>,
    trail: Seq<Seq<char>>,
    pairs: Seq<(ValueModel, ValueModel)>,
    res: ValueModel,
)
    requires
        reg.dom().finite(),
        subst_value(reg, trail, ValueModel::Mapping(pairs)) == Ok::<ValueModel, ErrorModel>(res),
    ensures
        res is Mapping,
        res->Mapping_0.len() == pairs.len(),
        forall|i: int| 0 <= i < pairs.len() ==> (#[trigger] res->Mapping_0[i]).0 == pairs[i].0,
{
    lemma_pairs_keys_preserved(reg, trail, pairs);
}

proof fn lemma_pairs_keys_preserved(
    reg: Map<Seq<char>, ValueModel>,
    trail: Seq<Seq<char>>,
    pairs: Seq<(ValueModel, ValueModel)>,
)
    requires
        reg.dom().finite(),
        subst_pairs(reg, trail, pairs) is Ok,
    ensures
        subst_pairs(reg, trail, pairs)->Ok_0.len() == pairs.len(),
        forall|i: int| 0 <= i < pairs.len()
            ==> (#[trigger] subst_pairs(reg, trail, pairs)->Ok_0[i]).0 == pairs[i].0,
    decreases pairs.len(),
{
    if pairs.len() > 0 {
        lemma_pairs_keys_preserved(reg, trail, pairs.drop_first());
    }
}

#[via_fn]
proof fn subst_value_decreases(
    reg: Map<Seq<char>, ValueModel>,
    trail: Seq<Seq<char>>,
    v: ValueModel,
) {
    if v is Str && is_placeholder(v->Str_0) {
        let key = placeholder_key(v->Str_0);
        if !trail.contains(key) && reg.dom().contains(key) {
            lemma_free_keys_push(reg, trail, key);
        }
    }
}

} // verus!
