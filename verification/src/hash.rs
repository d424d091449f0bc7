//! The container: a value that owns one root mapping and exposes merge,
//! dotted-path lookup, and canonical text conversion. Every operation
//! returns a new value; nothing is mutated in place.
use vstd::prelude::*;

use crate::codec::{emit_text, emitted, load_docs, parsed_docs};
use crate::merge::{all_mappings, fold_merged, lemma_merged_wf, merge_pairs, merged};
use crate::resolve::{lemma_resolve_wf, resolve_value, resolved_of, spec_resolve, LookupError,
    Resolved};
use crate::value::{clone_pairs, list_view, node_wf, pairs_eq, pairs_view, Node, Value};

verus! {

/// Failure of a textual merge: the text did not parse, or one of its
/// documents is not a mapping.
#[derive(Debug, PartialEq, Eq)]
pub enum MergeStrError {
    Parse(String),
    NotAMapping,
}

/// An ordered mapping of document-tree values, the root of a document.
#[derive(Debug)]
pub struct YamlHash {
    data: Vec<(Value, Value)>,
}

impl View for YamlHash {
    type V = Seq<(Node, Node)>;

    closed spec fn view(&self) -> Seq<(Node, Node)> {
        pairs_view(self.data@)
    }
}

/// The canonical text of a value with the document marker stripped.
pub open spec fn rendered(n: Node) -> Seq<char> {
    emitted(n).skip(4)
}

impl YamlHash {
    /// The container's invariant: every mapping in its tree, at any
    /// depth, has pairwise distinct keys.
    pub open spec fn wf(&self) -> bool {
        node_wf(Node::Mapping(self@))
    }

    /// Create a new empty container.
    pub fn new() -> (r: YamlHash)
        ensures
            r@ == Seq::<(Node, Node)>::empty(),
            r.wf(),
    {
        let r = YamlHash { data: Vec::new() };
        proof {
            assert(pairs_view(Seq::<(Value, Value)>::empty()) =~= Seq::<(Node, Node)>::empty());
        }
        r
    }

    /// Merge this container with another to create a new container.
    pub fn merge(&self, other: &YamlHash) -> (r: YamlHash)
        ensures
            r@ == merged(self@, other@),
            self.wf() && other.wf() ==> r.wf(),
    {
        let r = YamlHash { data: merge_pairs(&self.data, &other.data) };
        proof {
            if self.wf() && other.wf() {
                lemma_merged_wf(self@, other@);
            }
        }
        r
    }

    /// Merge this container with each document of a textual mapping, in
    /// document order, to create a new container. Fails when the text
    /// does not parse or some document is not a mapping.
    pub fn merge_str(&self, s: &str) -> (r: Result<YamlHash, MergeStrError>)
        ensures
            ({
                let p = parsed_docs(s@);
                match r {
                    Ok(h) => p matches Some(docs) && all_mappings(docs) && h@ == fold_merged(
                        self@,
                        docs,
                    ) && (self.wf() ==> h.wf()),
                    Err(MergeStrError::Parse(_)) => p is None,
                    Err(MergeStrError::NotAMapping) => p matches Some(docs) && !all_mappings(
                        docs,
                    ),
                }
            }),
    {
        match load_docs(s) {
            Err(m) => Err(MergeStrError::Parse(m)),
            Ok(docs) => {
                let ghost dv = list_view(docs@);
                let mut data = clone_pairs(&self.data);
                let n = docs.len();
                proof {
                    assert(dv.skip(0) =~= dv);
                }
                for i in 0..n
                    invariant
                        n == docs@.len(),
                        dv == list_view(docs@),
                        parsed_docs(s@) == Some(dv),
                        forall|j: int| 0 <= j < i ==> dv[j] is Mapping,
                        forall|j: int| 0 <= j < n ==> node_wf(#[trigger] docs@[j]@),
                        node_wf(Node::Mapping(pairs_view(self.data@))) ==> node_wf(
                            Node::Mapping(pairs_view(data@)),
                        ),
                        fold_merged(pairs_view(self.data@), dv) == fold_merged(
                            pairs_view(data@),
                            dv.skip(i as int),
                        ),
                {
                    match &docs[i] {
                        Value::Mapping(h) => {
                            proof {
                                assert(dv.skip(i as int)[0] == dv[i as int]);
                                assert(dv.skip(i as int).drop_first() =~= dv.skip(i as int + 1));
                            }
                            proof {
                                assert(docs@[i as int]@ == Node::Mapping(pairs_view(h@)));
                                assert(node_wf(docs@[i as int]@));
                                if node_wf(Node::Mapping(pairs_view(self.data@))) {
                                    lemma_merged_wf(pairs_view(data@), pairs_view(h@));
                                }
                            }
                            let data2 = merge_pairs(&data, h);
                            data = data2;
                        },
                        _ => {
                            proof {
                                assert(!(dv[i as int] is Mapping));
                            }
                            return Err(MergeStrError::NotAMapping);
                        },
                    }
                }
                proof {
                    assert(dv.skip(n as int) =~= Seq::<Node>::empty());
                }
                Ok(YamlHash { data })
            },
        }
    }

    /// Get the value for a dotted key; the empty key yields the whole
    /// root as a mapping value.
    pub fn get_yaml(&self, key: &str) -> (r: Result<Value, LookupError>)
        ensures
            resolved_of(r) == spec_resolve(key@, Node::Mapping(self@), Seq::<char>::empty()),
            self.wf() ==> (r matches Ok(v) ==> node_wf(v@)),
    {
        proof {
            if self.wf() {
                lemma_resolve_wf(key@, Node::Mapping(self@), Seq::<char>::empty());
            }
        }
        let root = Value::Mapping(clone_pairs(&self.data));
        resolve_value(key, &root, String::new())
    }

    /// Get the value for a dotted key as a container; fails when the
    /// value found is not a mapping.
    pub fn get(&self, key: &str) -> (r: Result<YamlHash, LookupError>)
        ensures
            ({
                let res = spec_resolve(key@, Node::Mapping(self@), Seq::<char>::empty());
                match r {
                    Ok(h) => res == Resolved::Found(Node::Mapping(h@)) && (self.wf()
                        ==> h.wf()),
                    Err(LookupError::KeyNotFound(p)) => res == Resolved::KeyNotFound(p@),
                    Err(LookupError::NotAMapping(p)) => res == Resolved::NotAMapping(p@) || (p@
                        == key@ && (res matches Resolved::Found(v) && !(v is Mapping))),
                }
            }),
    {
        match self.get_yaml(key) {
            Ok(v) => match v {
                Value::Mapping(data) => Ok(YamlHash { data }),
                _ => Err(LookupError::NotAMapping(key.to_owned())),
            },
            Err(e) => Err(e),
        }
    }

    /// The canonical text of the container: the emitted document with the
    /// leading marker stripped, suitable for direct re-merging.
    pub fn render(&self) -> (r: String)
        ensures
            r@ == rendered(Node::Mapping(self@)),
    {
        let root = Value::Mapping(clone_pairs(&self.data));
        let text = emit_text(&root);
        let n = text.as_str().unicode_len();
        let body = text.as_str().substring_char(4, n);
        body.to_owned()
    }
}

impl Clone for YamlHash {
    /// The copy has the same model as the original.
    fn clone(&self) -> (r: YamlHash)
        ensures
            r@ == self@,
    {
        YamlHash { data: clone_pairs(&self.data) }
    }
}

impl PartialEq for YamlHash {
    fn eq(&self, other: &YamlHash) -> (r: bool) {
        pairs_eq(&self.data, &other.data)
    }
}

impl vstd::std_specs::cmp::PartialEqSpecImpl for YamlHash {
    open spec fn obeys_eq_spec() -> bool {
        true
    }

    open spec fn eq_spec(&self, other: &YamlHash) -> bool {
        self@ == other@
    }
}

impl Eq for YamlHash {

}

impl Default for YamlHash {
    /// The default container is the empty one.
    fn default() -> (r: YamlHash)
        ensures
            r@ == Seq::<(Node, Node)>::empty(),
            r.wf(),
    {
        YamlHash::new()
    }
}

} // verus!
