//! The path resolver: segment-wise navigation of a mapping tree along a
//! dotted path, with the consumed prefix reported on failure.
use vstd::prelude::*;

use crate::maps::{lemma_lookup_absent, lemma_lookup_at, lemma_lookup_wf, map_lookup};
use crate::value::{clone_value, node_wf, pairs_view, Node, Value};

verus! {

broadcast use vstd::std_specs::vec::group_vec_axioms, vstd::seq::group_seq_axioms;

/// A failed lookup: either a segment's key is absent, or a segment
/// resolves to a non-mapping value before the path is exhausted. Both
/// carry the dotted prefix consumed up to the failure.
#[derive(Debug, PartialEq, Eq)]
pub enum LookupError {
    KeyNotFound(String),
    NotAMapping(String),
}

/// Model of a resolver outcome.
pub enum Resolved {
    Found(Node),
    KeyNotFound(Seq<char>),
    NotAMapping(Seq<char>),
}

/// The model of an executable lookup result.
pub open spec fn resolved_of(r: Result<Value, LookupError>) -> Resolved {
    match r {
        Ok(v) => Resolved::Found(v@),
        Err(LookupError::KeyNotFound(p)) => Resolved::KeyNotFound(p@),
        Err(LookupError::NotAMapping(p)) => Resolved::NotAMapping(p@),
    }
}

/// Index of the first delimiter, or the length when there is none.
pub open spec fn first_dot(path: Seq<char>) -> nat
    decreases path.len(),
{
    if path.len() == 0 {
        0
    } else if path[0] == '.' {
        0
    } else {
        1 + first_dot(path.drop_first())
    }
}

pub proof fn lemma_first_dot_is(path: Seq<char>, i: int)
    requires
        0 <= i <= path.len(),
        forall|j: int| 0 <= j < i ==> path[j] != '.',
        i < path.len() ==> path[i] == '.',
    ensures
        first_dot(path) == i,
    decreases i,
{
    if i > 0 {
        assert forall|j: int| 0 <= j < i - 1 implies path.drop_first()[j] != '.' by {
            assert(path.drop_first()[j] == path[j + 1]);
        }
        if i - 1 < path.drop_first().len() {
            assert(path.drop_first()[i - 1] == path[i]);
        }
        lemma_first_dot_is(path.drop_first(), i - 1);
    }
}

/// Resolve `path` against `node`. The empty path yields `node` itself.
/// Otherwise the first segment must name a key of `node`, which must be a
/// mapping; the remainder is resolved against the value found there.
/// `prefix` is the dotted prefix already consumed.
pub open spec fn spec_resolve(path: Seq<char>, node: Node, prefix: Seq<char>) -> Resolved
    decreases path.len(),
    via spec_resolve_decreases
{
    if path.len() == 0 {
        Resolved::Found(node)
    } else {
        let d = first_dot(path) as int;
        let seg = path.take(d);
        let deeper = if prefix.len() == 0 {
            seg
        } else {
            prefix + seq!['.'] + seg
        };
        match node {
            Node::Mapping(pairs) => match map_lookup(pairs, Node::Str(seg)) {
                Some(v) => if d == path.len() {
                    Resolved::Found(v)
                } else {
                    spec_resolve(path.skip(d + 1), v, deeper)
                },
                None => Resolved::KeyNotFound(deeper),
            },
            _ => Resolved::NotAMapping(prefix),
        }
    }
}

#[via_fn]
proof fn spec_resolve_decreases(path: Seq<char>, node: Node, prefix: Seq<char>) {
    if path.len() > 0 {
        lemma_first_dot_bounds(path);
    }
}

pub proof fn lemma_first_dot_bounds(path: Seq<char>)
    ensures
        first_dot(path) <= path.len(),
    decreases path.len(),
{
    if path.len() > 0 && path[0] != '.' {
        lemma_first_dot_bounds(path.drop_first());
    }
}

/// A value resolved out of a well-formed tree is well formed.
pub proof fn lemma_resolve_wf(path: Seq<char>, node: Node, prefix: Seq<char>)
    requires
        node_wf(node),
    ensures
        spec_resolve(path, node, prefix) matches Resolved::Found(v) ==> node_wf(v),
    decreases path.len(),
{
    if path.len() > 0 && node is Mapping {
        lemma_first_dot_bounds(path);
        let d = first_dot(path) as int;
        let seg = path.take(d);
        let pairs = node->Mapping_0;
        if map_lookup(pairs, Node::Str(seg)) is Some {
            lemma_lookup_wf(pairs, Node::Str(seg));
            let v = map_lookup(pairs, Node::Str(seg))->Some_0;
            if d != path.len() {
                let deeper = if prefix.len() == 0 {
                    seg
                } else {
                    prefix + seq!['.'] + seg
                };
                lemma_resolve_wf(path.skip(d + 1), v, deeper);
            }
        }
    }
}

/// Position of the first delimiter character, if any.
fn find_dot(s: &str) -> (r: Option<usize>)
    ensures
        match r {
            Some(i) => i < s@.len() && s@[i as int] == '.' && (forall|j: int|
                0 <= j < i ==> s@[j] != '.'),
            None => forall|j: int| 0 <= j < s@.len() ==> s@[j] != '.',
        },
{
    let n = s.unicode_len();
    for i in 0..n
        invariant
            n == s@.len(),
            forall|j: int| 0 <= j < i ==> s@[j] != '.',
    {
        if s.get_char(i) == '.' {
            return Some(i);
        }
    }
    None
}

/// Index of the first pair whose key is the string `seg`, if any.
fn find_str_key(m: &Vec<(Value, Value)>, seg: &str) -> (r: Option<usize>)
    ensures
        match r {
            Some(i) => i < m@.len() && pairs_view(m@)[i as int].0 == Node::Str(seg@) && (
            forall|j: int| 0 <= j < i ==> pairs_view(m@)[j].0 != Node::Str(seg@)),
            None => forall|j: int|
                0 <= j < m@.len() ==> pairs_view(m@)[j].0 != Node::Str(seg@),
        },
{
    let seg_string = seg.to_owned();
    let n = m.len();
    for i in 0..n
        invariant
            seg_string@ == seg@,
            n == m@.len(),
            forall|j: int| 0 <= j < i ==> pairs_view(m@)[j].0 != Node::Str(seg@),
    {
        match &m[i].0 {
            Value::Str(s) => {
                if *s == seg_string {
                    return Some(i);
                }
                proof {
                    assert(pairs_view(m@)[i as int].0 != Node::Str(seg@));
                }
            },
            _ => {
                proof {
                    assert(pairs_view(m@)[i as int].0 != Node::Str(seg@));
                }
            },
        }
    }
    None
}

/// Extend a dotted prefix by one segment.
fn extend_prefix(prefix: String, seg: &str) -> (r: String)
    ensures
        r@ == (if prefix@.len() == 0 {
            seg@
        } else {
            prefix@ + seq!['.'] + seg@
        }),
{
    proof {
        reveal_strlit(".");
        assert("."@ =~= seq!['.']);
    }
    if prefix.as_str().is_empty() {
        String::from_str(seg)
    } else {
        let mut p = prefix;
        p.append(".");
        p.append(seg);
        p
    }
}

/// Resolve a dotted path against a value, per `spec_resolve`.
pub fn resolve_value(path: &str, node: &Value, prefix: String) -> (r: Result<Value, LookupError>)
    ensures
        resolved_of(r) == spec_resolve(path@, node@, prefix@),
    decreases path@.len(),
{
    let n = path.unicode_len();
    if n == 0 {
        return Ok(clone_value(node));
    }
    let d = match find_dot(path) {
        Some(i) => i,
        None => n,
    };
    proof {
        lemma_first_dot_is(path@, d as int);
    }
    let seg = path.substring_char(0, d);
    proof {
        assert(seg@ =~= path@.take(d as int));
    }
    match node {
        Value::Mapping(pairs) => {
            match find_str_key(pairs, seg) {
                Some(i) => {
                    proof {
                        lemma_lookup_at(pairs_view(pairs@), Node::Str(seg@), i as int);
                    }
                    if d == n {
                        Ok(clone_value(&pairs[i].1))
                    } else {
                        let rest = path.substring_char(d + 1, n);
                        proof {
                            assert(rest@ =~= path@.skip(d as int + 1));
                        }
                        let deeper = extend_prefix(prefix, seg);
                        resolve_value(rest, &pairs[i].1, deeper)
                    }
                },
                None => {
                    proof {
                        lemma_lookup_absent(pairs_view(pairs@), Node::Str(seg@));
                    }
                    Err(LookupError::KeyNotFound(extend_prefix(prefix, seg)))
                },
            }
        },
        _ => Err(LookupError::NotAMapping(prefix)),
    }
}

} // verus!
