//! The text codec boundary. Parsing document text and emitting canonical
//! text are the work of the yaml_rust2 crate; the library reaches it
//! through the trusted wrappers here and reasons about the two results
//! only through the names `parsed_docs` and `emitted`.
use vstd::prelude::*;

use crate::value::{list_view, node_wf, Node, Value};

verus! {

/// The parse of a text: the models of its documents in document order, or
/// nothing when the text does not parse.
pub uninterp spec fn parsed_docs(s: Seq<char>) -> Option<Seq<Node>>;

/// The canonical text of a value, including the leading document marker.
pub uninterp spec fn emitted(n: Node) -> Seq<char>;

#[verifier::external_type_specification]
#[verifier::external_body]
pub struct ExYaml(yaml_rust2::Yaml);

/// Conversion used by the loader: each yaml_rust2 variant moves to the
/// library's matching variant; aliases and bad values become `Invalid`.
#[verifier::external_body]
fn from_yaml(y: yaml_rust2::Yaml) -> Value {
    match y {
        yaml_rust2::Yaml::Real(s) => Value::Real(s),
        yaml_rust2::Yaml::Integer(i) => Value::Int(i),
        yaml_rust2::Yaml::String(s) => Value::Str(s),
        yaml_rust2::Yaml::Boolean(b) => Value::Bool(b),
        yaml_rust2::Yaml::Array(items) => Value::List(items.into_iter().map(from_yaml).collect()),
        yaml_rust2::Yaml::Hash(h) => Value::Mapping(
            h.into_iter().map(|(k, v)| (from_yaml(k), from_yaml(v))).collect(),
        ),
        yaml_rust2::Yaml::Alias(_) => Value::Invalid,
        yaml_rust2::Yaml::Null => Value::Null,
        yaml_rust2::Yaml::BadValue => Value::Invalid,
    }
}

/// Conversion used by the emitter: the inverse of `from_yaml`.
#[verifier::external_body]
fn to_yaml(v: &Value) -> yaml_rust2::Yaml {
    match v {
        Value::Null => yaml_rust2::Yaml::Null,
        Value::Bool(b) => yaml_rust2::Yaml::Boolean(*b),
        Value::Int(i) => yaml_rust2::Yaml::Integer(*i),
        Value::Real(s) => yaml_rust2::Yaml::Real(s.clone()),
        Value::Str(s) => yaml_rust2::Yaml::String(s.clone()),
        Value::List(items) => yaml_rust2::Yaml::Array(items.iter().map(to_yaml).collect()),
        Value::Mapping(pairs) => yaml_rust2::Yaml::Hash(
            pairs.iter().map(|(k, v)| (to_yaml(k), to_yaml(v))).collect(),
        ),
        Value::Invalid => yaml_rust2::Yaml::BadValue,
    }
}

/// Relies on yaml_rust2::YamlLoader::load_from_str: the parse result is a
/// function of the text alone; documents come back in document order; a
/// parsed mapping is a LinkedHashMap, so its keys are distinct at every
/// depth and keep insertion order.
#[verifier::external_body]
pub(crate) fn load_docs(s: &str) -> (r: Result<Vec<Value>, String>)
    ensures
        r matches Ok(docs) ==> parsed_docs(s@) == Some(list_view(docs@)),
        r matches Ok(docs) ==> forall|i: int|
            0 <= i < docs@.len() ==> node_wf(#[trigger] docs@[i]@),
        r is Err <==> parsed_docs(s@) is None,
{
    match yaml_rust2::YamlLoader::load_from_str(s) {
        Ok(docs) => Ok(docs.into_iter().map(from_yaml).collect()),
        Err(e) => Err(e.to_string()),
    }
}

/// Relies on yaml_rust2::YamlEmitter::dump: the emitted text is a function
/// of the value alone, and always begins with a "---" marker line, so it
/// holds at least four characters. Dumping into a String cannot fail.
#[verifier::external_body]
pub(crate) fn emit_text(v: &Value) -> (r: String)
    ensures
        r@ == emitted(v@),
        r@.len() >= 4,
{
    let mut out = String::new();
    let mut emitter = yaml_rust2::YamlEmitter::new(&mut out);
    emitter.dump(&to_yaml(v)).unwrap();
    out
}

} // verus!
