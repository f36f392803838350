//! The boundary to the external YAML library: parsing text into value
//! trees and serializing value trees back to text. Only the calls into
//! `yaml_rust` stand here, behind trusted contracts; everything around
//! them is verified.

use vstd::prelude::*;
use crate::value::{Value, ValueModel, models_of, model_of};

verus! {

/// The external parser's value tree, carried opaquely through the
/// conversion helpers.
#[verifier::external_type_specification]
#[verifier::external_body]
pub struct ExYaml(yaml_rust::Yaml);

/// What parsing a text yields: its ordered sequence of documents, or the
/// scanner's message on malformed YAML. Parsing is a function of the text
/// alone.
pub uninterp spec fn parsed_docs(text: Seq<char>) -> Result<Seq<ValueModel>, Seq<char>>;

/// The text that serializing one document yields, a document-start line
/// included. Emission is a function of the document alone.
pub uninterp spec fn emitted_doc(doc: ValueModel) -> Seq<char>;

/// Relies on the shape of `yaml_rust::Yaml`: one arm per variant, moving
/// the fields into the library's own tree. An alias or invalid node (the
/// parser produces neither) becomes null.
#[verifier::external_body]
fn from_yaml(y: yaml_rust::Yaml) -> Value {
    match y {
        yaml_rust::Yaml::Real(s) => Value::Real(s),
        yaml_rust::Yaml::Integer(i) => Value::Integer(i),
        yaml_rust::Yaml::String(s) => Value::Str(s),
        yaml_rust::Yaml::Boolean(b) => Value::Boolean(b),
        yaml_rust::Yaml::Array(a) => Value::Sequence(a.into_iter().map(from_yaml).collect()),
        yaml_rust::Yaml::Hash(h) => Value::Mapping(
            h.into_iter().map(|(k, v)| (from_yaml(k), from_yaml(v))).collect(),
        ),
        yaml_rust::Yaml::Alias(_) => Value::Null,
        yaml_rust::Yaml::Null => Value::Null,
        yaml_rust::Yaml::BadValue => Value::Null,
    }
}

/// Relies on the shape of `yaml_rust::Yaml`: one arm per variant of the
/// library's tree, copying the fields across.
#[verifier::external_body]
fn to_yaml(v: &Value) -> yaml_rust::Yaml {
    match v {
        Value::Null => yaml_rust::Yaml::Null,
        Value::Boolean(b) => yaml_rust::Yaml::Boolean(*b),
        Value::Integer(i) => yaml_rust::Yaml::Integer(*i),
        Value::Real(s) => yaml_rust::Yaml::Real(s.clone()),
        Value::Str(s) => yaml_rust::Yaml::String(s.clone()),
        Value::Sequence(elems) => yaml_rust::Yaml::Array(elems.iter().map(to_yaml).collect()),
        Value::Mapping(pairs) => yaml_rust::Yaml::Hash(
            pairs.iter().map(|(k, w)| (to_yaml(k), to_yaml(w))).collect(),
        ),
    }
}

/// Relies on `yaml_rust::YamlLoader::load_from_str`: the text's documents
/// in order where the text is well-formed YAML, the scanner's message
/// where it is not; which of the two is a function of the text alone.
#[verifier::external_body]
pub fn parse_documents(text: &str) -> (r: Result<Vec<Value>, String>)
    ensures
        r matches Ok(docs) ==> parsed_docs(text@) is Ok && parsed_docs(text@)->Ok_0 == models_of(docs@),
        r matches Err(m) ==> parsed_docs(text@) is Err && parsed_docs(text@)->Err_0 == m@,
{
    match yaml_rust::YamlLoader::load_from_str(text) {
        Ok(docs) => Ok(docs.into_iter().map(from_yaml).collect()),
        Err(e) => Err(format!("{}", e)),
    }
}

/// Relies on `yaml_rust::YamlEmitter::dump`: it first writes the
/// document-start line `---` and a newline, then the serialized document.
/// Dumping into a `String` cannot fail: the only error the emitter ever
/// constructs wraps `core::fmt::Error`, and `fmt::Write` for `String`
/// never reports one.
#[verifier::external_body]
pub fn emit_document(doc: &Value) -> (r: String)
    ensures
        r@ == emitted_doc(model_of(*doc)),
        r@.len() >= 4,
        r@.subrange(0, 4) == "---\n"@,
{
    let mut buf = String::new();
    let mut emitter = yaml_rust::YamlEmitter::new(&mut buf);
    let _ = emitter.dump(&to_yaml(doc));
    buf
}

} // verus!
