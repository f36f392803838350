//! The snippet registry: a mapping from snippet key to its raw value,
//! built once, read-only during substitution. A later insertion of an
//! existing key overwrites the earlier one.

use vstd::prelude::*;
use crate::value::{Value, ValueModel, model_of, models_of, pair_models_of, duplicate,
    lemma_models_of_index, lemma_pair_models_of_index};
use crate::errors::{Error, ErrorModel, error_model, strs_of, SnipFault};
use crate::yaml::{parse_documents, parsed_docs};

verus! {

broadcast use vstd::std_specs::vec::group_vec_axioms, vstd::seq::group_seq_axioms,
    vstd::set::group_set_axioms, vstd::map::group_map_axioms;

/// The map that a sequence of (key, value) insertions builds up,
/// later entries overwriting earlier ones.
pub open spec fn reg_map(entries: Seq<(String, Value)>) -> Map<Seq<char>, ValueModel>
    decreases entries.len(),
{
    if entries.len() == 0 {
        Map::empty()
    } else {
        reg_map(entries.drop_last()).insert(entries.last().0@, model_of(entries.last().1))
    }
}

/// A registry of snippets: keys mapped to their raw (unsubstituted) values.
#[derive(Debug)]
pub struct Registry {
    entries: Vec<(String, Value)>,
}

impl View for Registry {
    type V = Map<Seq<char>, ValueModel>;

    closed spec fn view(&self) -> Map<Seq<char>, ValueModel> {
        reg_map(self.entries@)
    }
}

/// A registry's key set is finite.
pub broadcast proof fn lemma_registry_finite(r: &Registry)
    ensures
        (#[trigger] r@).dom().finite(),
{
    lemma_reg_map_finite(r.entries@);
}

proof fn lemma_reg_map_finite(entries: Seq<(String, Value)>)
    ensures
        reg_map(entries).dom().finite(),
    decreases entries.len(),
{
    if entries.len() > 0 {
        lemma_reg_map_finite(entries.drop_last());
    }
}

/// If the entry at `i` holds `key` and no later entry does, the registry
/// maps `key` to that entry's value.
proof fn lemma_reg_map_match(entries: Seq<(String, Value)>, i: int, key: Seq<char>)
    requires
        0 <= i < entries.len(),
        entries[i].0@ == key,
        forall|j: int| i < j < entries.len() ==> (#[trigger] entries[j]).0@ != key,
    ensures
        reg_map(entries).dom().contains(key),
        reg_map(entries)[key] == model_of(entries[i].1),
    decreases entries.len(),
{
    if i < entries.len() - 1 {
        lemma_reg_map_match(entries.drop_last(), i, key);
    }
}

/// A key held by no entry is not in the registry.
proof fn lemma_reg_map_no_match(entries: Seq<(String, Value)>, key: Seq<char>)
    requires
        forall|j: int| 0 <= j < entries.len() ==> (#[trigger] entries[j]).0@ != key,
    ensures
        !reg_map(entries).dom().contains(key),
    decreases entries.len(),
{
    if entries.len() > 0 {
        lemma_reg_map_no_match(entries.drop_last(), key);
    }
}

impl Registry {
    /// The empty registry.
    pub fn new() -> (r: Registry)
        ensures
            r@ == Map::<Seq<char>, ValueModel>::empty(),
    {
        Registry { entries: Vec::new() }
    }

    /// Registers `value` under `key`, overwriting any earlier entry.
    pub fn insert(&mut self, key: String, value: Value)
        ensures
            final(self)@ == old(self)@.insert(key@, model_of(value)),
    {
        self.entries.push((key, value));
        proof {
            assert(self.entries@.drop_last() =~= old(self).entries@);
        }
    }

    /// Looks a key up: the registered raw value, or `None` for an
    /// unregistered key.
    pub fn get(&self, key: &String) -> (r: Option<&Value>)
        ensures
            match r {
                Some(v) => self@.dom().contains(key@) && model_of(*v) == self@[key@],
                None => !self@.dom().contains(key@),
            },
    {
        let mut i: usize = self.entries.len();
        while i > 0
            invariant
                i <= self.entries@.len(),
                forall|j: int| i <= j < self.entries@.len()
                    ==> (#[trigger] self.entries@[j]).0@ != key@,
            decreases i,
        {
            i = i - 1;
            if self.entries[i].0.eq(key) {
                proof {
                    lemma_reg_map_match(self.entries@, i as int, key@);
                }
                return Some(&self.entries[i].1);
            }
        }
        proof {
            lemma_reg_map_no_match(self.entries@, key@);
        }
        None
    }
}

/// The first value paired with `key` in a mapping's pairs, if any.
pub open spec fn mapping_find(
    pairs: Seq<(ValueModel, ValueModel)>,
    key: ValueModel,
) -> Option<ValueModel>
    decreases pairs.len(),
{
    if pairs.len() == 0 {
        None
    } else if pairs[0].0 == key {
        Some(pairs[0].1)
    } else {
        mapping_find(pairs.drop_first(), key)
    }
}

proof fn lemma_mapping_find_at(s: Seq<(ValueModel, ValueModel)>, i: int, key: ValueModel)
    requires
        0 <= i < s.len(),
        s[i].0 == key,
        forall|j: int| 0 <= j < i ==> (#[trigger] s[j]).0 != key,
    ensures
        mapping_find(s, key) == Some(s[i].1),
    decreases i,
{
    if i > 0 {
        lemma_mapping_find_at(s.drop_first(), i - 1, key);
    }
}

proof fn lemma_mapping_find_none(s: Seq<(ValueModel, ValueModel)>, key: ValueModel)
    requires
        forall|j: int| 0 <= j < s.len() ==> (#[trigger] s[j]).0 != key,
    ensures
        mapping_find(s, key) is None,
    decreases s.len(),
{
    if s.len() > 0 {
        lemma_mapping_find_none(s.drop_first(), key);
    }
}

/// The first value paired with the string key `key` in a mapping.
fn mapping_get<'a>(pairs: &'a Vec<(Value, Value)>, key: &String) -> (r: Option<&'a Value>)
    ensures
        match r {
            Some(v) => mapping_find(pair_models_of(pairs@), ValueModel::Str(key@))
                == Some(model_of(*v)),
            None => mapping_find(pair_models_of(pairs@), ValueModel::Str(key@)) is None,
        },
{
    proof {
        lemma_pair_models_of_index(pairs@);
    }
    let mut i: usize = 0;
    while i < pairs.len()
        invariant
            i <= pairs@.len(),
            forall|j: int| 0 <= j < i
                ==> (#[trigger] pair_models_of(pairs@)[j]).0 != ValueModel::Str(key@),
        decreases pairs@.len() - i,
    {
        let hit = match &pairs[i].0 {
            Value::Str(s) => s.eq(key),
            _ => false,
        };
        proof {
            lemma_pair_models_of_index(pairs@);
        }
        if hit {
            proof {
                assert(pair_models_of(pairs@)[i as int].0 == ValueModel::Str(key@));
                lemma_mapping_find_at(pair_models_of(pairs@), i as int, ValueModel::Str(key@));
            }
            return Some(&pairs[i].1);
        }
        i = i + 1;
    }
    proof {
        lemma_mapping_find_none(pair_models_of(pairs@), ValueModel::Str(key@));
    }
    None
}

/// What one snippet document contributes: its key string and raw value,
/// or how its shape is wrong. The document must be a mapping holding a
/// non-empty string under `key` and any value under `value`.
pub open spec fn snip_entry_spec(doc: ValueModel) -> Result<(Seq<char>, ValueModel), ErrorModel> {
    if !(doc is Mapping) {
        Err(ErrorModel::MalformedSnippet(SnipFault::NotMapping))
    } else {
        match mapping_find(doc->Mapping_0, ValueModel::Str("key"@)) {
            None => Err(ErrorModel::MalformedSnippet(SnipFault::KeyMissing)),
            Some(kv) => if !(kv is Str) {
                Err(ErrorModel::MalformedSnippet(SnipFault::KeyMissing))
            } else if kv->Str_0.len() == 0 {
                Err(ErrorModel::MalformedSnippet(SnipFault::KeyEmpty))
            } else {
                match mapping_find(doc->Mapping_0, ValueModel::Str("value"@)) {
                    None => Err(ErrorModel::MalformedSnippet(SnipFault::ValueMissing)),
                    Some(vv) => Ok((kv->Str_0, vv)),
                }
            },
        }
    }
}

/// Extracts one snippet entry from a document.
pub fn snippet_entry(doc: &Value) -> (r: Result<(String, Value), Error>)
    ensures
        r matches Ok(kv) ==> snip_entry_spec(model_of(*doc))
            == Ok::<(Seq<char>, ValueModel), ErrorModel>((kv.0@, model_of(kv.1))),
        r matches Err(e) ==> snip_entry_spec(model_of(*doc))
            == Err::<(Seq<char>, ValueModel), ErrorModel>(error_model(e)),
{
    match doc {
        Value::Mapping(pairs) => {
            match mapping_get(pairs, &String::from_str("key")) {
                None => Err(Error::MalformedSnippet(SnipFault::KeyMissing)),
                Some(kv) => match kv {
                    Value::Str(ks) => {
                        if ks.as_str().is_empty() {
                            Err(Error::MalformedSnippet(SnipFault::KeyEmpty))
                        } else {
                            match mapping_get(pairs, &String::from_str("value")) {
                                None => Err(Error::MalformedSnippet(SnipFault::ValueMissing)),
                                Some(vv) => Ok((ks.clone(), duplicate(vv))),
                            }
                        }
                    },
                    _ => Err(Error::MalformedSnippet(SnipFault::KeyMissing)),
                },
            }
        },
        _ => Err(Error::MalformedSnippet(SnipFault::NotMapping)),
    }
}

/// The registry that a run of documents builds on top of `m`, inserting
/// each document's entry in turn, later entries overwriting earlier ones;
/// the first malformed document aborts.
pub open spec fn reg_after_docs(
    m: Map<Seq<char>, ValueModel>,
    docs: Seq<ValueModel>,
) -> Result<Map<Seq<char>, ValueModel>, ErrorModel>
    decreases docs.len(),
{
    if docs.len() == 0 {
        Ok(m)
    } else {
        match snip_entry_spec(docs[0]) {
            Err(e) => Err(e),
            Ok(kv) => reg_after_docs(m.insert(kv.0, kv.1), docs.drop_first()),
        }
    }
}

/// The registry that a run of source texts builds on top of `m`: each
/// text's documents in order, texts in the order given; a text that is
/// not well-formed YAML fails with the scanner's message.
pub open spec fn reg_after_texts(
    m: Map<Seq<char>, ValueModel>,
    texts: Seq<Seq<char>>,
) -> Result<Map<Seq<char>, ValueModel>, ErrorModel>
    decreases texts.len(),
{
    if texts.len() == 0 {
        Ok(m)
    } else {
        match parsed_docs(texts[0]) {
            Err(msg) => Err(ErrorModel::Parse(msg)),
            Ok(docs) => match reg_after_docs(m, docs) {
                Err(e) => Err(e),
                Ok(m2) => reg_after_texts(m2, texts.drop_first()),
            },
        }
    }
}

/// Builds the registry from the given snippet source texts, in order,
/// a later occurrence of a key overwriting an earlier one. The result is
/// exactly what `reg_after_texts` says: a registry if and only if every
/// text parses and every document has the snippet shape, and otherwise
/// the first failure.
#[verifier::loop_isolation(false)]
pub fn build_registry(texts: &Vec<String>) -> (r: Result<Registry, Error>)
    ensures
        r matches Ok(reg) ==> reg_after_texts(Map::empty(), strs_of(texts@))
            == Ok::<Map<Seq<char>, ValueModel>, ErrorModel>(reg@),
        r matches Err(e) ==> reg_after_texts(Map::empty(), strs_of(texts@))
            == Err::<Map<Seq<char>, ValueModel>, ErrorModel>(error_model(e)),
{
    broadcast use lemma_models_of_index;

    let ghost all = strs_of(texts@);
    let mut reg = Registry::new();
    proof {
        assert(all.skip(0) =~= all);
    }
    let mut i: usize = 0;
    while i < texts.len()
        invariant
            i <= texts@.len(),
            reg_after_texts(Map::empty(), all) == reg_after_texts(reg@, all.skip(i as int)),
        decreases texts@.len() - i,
    {
        proof {
            assert(all.skip(i as int)[0] == texts@[i as int]@);
            assert(all.skip(i as int).drop_first() =~= all.skip(i + 1));
        }
        match parse_documents(texts[i].as_str()) {
            Err(m) => {
                return Err(Error::Parse(m));
            },
            Ok(docs) => {
                let ghost dm = models_of(docs@);
                let ghost reg0 = reg@;
                proof {
                    assert(dm.skip(0) =~= dm);
                }
                let mut j: usize = 0;
                while j < docs.len()
                    invariant
                        j <= docs@.len(),
                        dm == models_of(docs@),
                        reg_after_docs(reg0, dm) == reg_after_docs(reg@, dm.skip(j as int)),
                    decreases docs@.len() - j,
                {
                    proof {
                        assert(dm.skip(j as int)[0] == dm[j as int]);
                        assert(dm.skip(j as int).drop_first() =~= dm.skip(j + 1));
                    }
                    match snippet_entry(&docs[j]) {
                        Err(e) => {
                            return Err(e);
                        },
                        Ok((k, v)) => {
                            reg.insert(k, v);
                        },
                    }
                    j = j + 1;
                }
                proof {
                    assert(dm.skip(docs@.len() as int) =~= Seq::<ValueModel>::empty());
                }
            },
        }
        i = i + 1;
    }
    proof {
        assert(all.skip(texts@.len() as int) =~= Seq::<Seq<char>>::empty());
    }
    Ok(reg)
}

} // verus!
