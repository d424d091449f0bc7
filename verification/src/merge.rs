//! The merge engine: recursive structural merge of two ordered mappings.
//!
//! The base operand keeps its key order; keys only in the incoming operand
//! are appended in its order. When both sides hold a mapping at the same
//! key the two are merged recursively; in every other conflict the
//! incoming value wins outright.
use vstd::prelude::*;

use crate::maps::{
    find_key, lemma_lookup_absent, lemma_lookup_at, lemma_lookup_wf, lemma_upsert_wf, map_lookup,
    map_upsert, upsert,
};
use crate::value::{
    clone_pairs, clone_value, node_size, node_wf, pairs_size, pairs_view, Node, Value,
};

verus! {

broadcast use vstd::std_specs::vec::group_vec_axioms, vstd::seq::group_seq_axioms;

/// The merge of `b` into `a`: every pair of `b` is folded into `a` in
/// order, recursing exactly when both sides hold a mapping at the key.
pub open spec fn merged(a: Seq<(Node, Node)>, b: Seq<(Node, Node)>) -> Seq<(Node, Node)>
    decreases pairs_size(b),
    via merged_decreases
{
    if b.len() == 0 {
        a
    } else {
        let k = b[0].0;
        let v = b[0].1;
        let v2 = match (map_lookup(a, k), v) {
            (Some(Node::Mapping(am)), Node::Mapping(bm)) => Node::Mapping(merged(am, bm)),
            _ => v,
        };
        merged(map_upsert(a, k, v2), b.drop_first())
    }
}

#[via_fn]
proof fn merged_decreases(a: Seq<(Node, Node)>, b: Seq<(Node, Node)>) {
    if b.len() > 0 {
        let v = b[0].1;
        if v is Mapping {
            assert(node_size(v) == 1 + pairs_size(v->Mapping_0));
        }
        assert(pairs_size(b) == 1 + node_size(b[0].1) + pairs_size(b.drop_first()));
    }
}

/// Every document in the sequence is a mapping.
pub open spec fn all_mappings(docs: Seq<Node>) -> bool {
    forall|i: int| 0 <= i < docs.len() ==> docs[i] is Mapping
}

/// Left-to-right pairwise merge of a document sequence into an accumulator.
pub open spec fn fold_merged(acc: Seq<(Node, Node)>, docs: Seq<Node>) -> Seq<(Node, Node)>
    decreases docs.len(),
{
    if docs.len() == 0 {
        acc
    } else {
        fold_merged(merged(acc, docs[0]->Mapping_0), docs.drop_first())
    }
}

proof fn lemma_entry_size(m: Seq<(Node, Node)>, i: int)
    requires
        0 <= i < m.len(),
    ensures
        node_size(m[i].1) < pairs_size(m),
    decreases i,
{
    if i > 0 {
        lemma_entry_size(m.drop_first(), i - 1);
        assert(m.drop_first()[i - 1] == m[i]);
    }
}

/// Merging two well-formed mappings yields a well-formed mapping.
pub proof fn lemma_merged_wf(a: Seq<(Node, Node)>, b: Seq<(Node, Node)>)
    requires
        node_wf(Node::Mapping(a)),
        node_wf(Node::Mapping(b)),
    ensures
        node_wf(Node::Mapping(merged(a, b))),
    decreases pairs_size(b),
{
    if b.len() > 0 {
        let k = b[0].0;
        let v = b[0].1;
        assert(node_wf(k) && node_wf(v));
        let v2 = match (map_lookup(a, k), v) {
            (Some(Node::Mapping(am)), Node::Mapping(bm)) => Node::Mapping(merged(am, bm)),
            _ => v,
        };
        if (map_lookup(a, k) matches Some(av) && av is Mapping) && v is Mapping {
            let am = map_lookup(a, k)->Some_0->Mapping_0;
            let bm = v->Mapping_0;
            lemma_lookup_wf(a, k);
            assert(node_size(v) == 1 + pairs_size(bm));
            assert(pairs_size(b) == 1 + node_size(b[0].1) + pairs_size(b.drop_first()));
            lemma_merged_wf(am, bm);
        }
        assert(node_wf(v2));
        lemma_upsert_wf(a, k, v2);
        crate::value::lemma_wf_drop_first(b);
        assert(pairs_size(b) == 1 + node_size(b[0].1) + pairs_size(b.drop_first()));
        lemma_merged_wf(map_upsert(a, k, v2), b.drop_first());
    }
}

/// Merge two pair vectors; the result's model is the merge of the models.
pub fn merge_pairs(a: &Vec<(Value, Value)>, b: &Vec<(Value, Value)>) -> (r: Vec<(Value, Value)>)
    ensures
        pairs_view(r@) == merged(pairs_view(a@), pairs_view(b@)),
    decreases pairs_size(pairs_view(b@)),
{
    let mut r = clone_pairs(a);
    let n = b.len();
    proof {
        assert(pairs_view(b@).skip(0) =~= pairs_view(b@));
    }
    for i in 0..n
        invariant
            n == b@.len(),
            merged(pairs_view(a@), pairs_view(b@)) == merged(
                pairs_view(r@),
                pairs_view(b@).skip(i as int),
            ),
    {
        let ghost r_seq = pairs_view(r@);
        let ghost b_seq = pairs_view(b@);
        let ghost rest = b_seq.skip(i as int);
        proof {
            assert(rest[0] == b_seq[i as int]);
            assert(rest.drop_first() =~= b_seq.skip(i as int + 1));
        }
        let bv = &b[i].1;
        let idx = find_key(&r, &b[i].0);
        proof {
            match idx {
                Some(j) => lemma_lookup_at(r_seq, b_seq[i as int].0, j as int),
                None => lemma_lookup_absent(r_seq, b_seq[i as int].0),
            }
        }
        let mut sub: Option<Value> = None;
        if let Value::Mapping(bm) = bv {
            if let Some(j) = idx {
                if let Value::Mapping(rm) = &r[j].1 {
                    proof {
                        lemma_entry_size(b_seq, i as int);
                    }
                    sub = Some(Value::Mapping(merge_pairs(rm, bm)));
                }
            }
        }
        let v2 = match sub {
            Some(x) => x,
            None => clone_value(bv),
        };
        let k2 = clone_value(&b[i].0);
        upsert(&mut r, k2, v2);
    }
    proof {
        assert(pairs_view(b@).skip(n as int) =~= Seq::<(Node, Node)>::empty());
    }
    r
}

} // verus!
