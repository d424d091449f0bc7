//! General laws of the merge engine and the path resolver.
use vstd::prelude::*;

use crate::maps::{
    has_key, keys_of, lemma_has_key_lookup, lemma_lookup_absent, lemma_lookup_at,
    lemma_lookup_upsert_other, lemma_lookup_upsert_same, lemma_upsert_at, lemma_upsert_has_key,
    lemma_upsert_keys_of, map_lookup, map_upsert,
};
use crate::merge::merged;
use crate::resolve::{spec_resolve, Resolved};
use crate::value::{keys_unique, node_size, node_wf, pairs_size, Node};

verus! {

broadcast use vstd::seq::group_seq_axioms;

/// What the merge holds at one key, given what each operand holds there.
pub open spec fn merged_at(va: Option<Node>, vb: Option<Node>) -> Option<Node> {
    match (va, vb) {
        (Some(Node::Mapping(am)), Some(Node::Mapping(bm))) => Some(Node::Mapping(merged(am, bm))),
        (_, Some(v)) => Some(v),
        (other, None) => other,
    }
}

/// Pointwise description of the merge: at a key held by both operands the
/// two values are merged recursively when both are mappings, and the
/// incoming value wins outright otherwise; a key held by one operand
/// alone keeps its value.
pub proof fn lemma_merged_lookup(a: Seq<(Node, Node)>, b: Seq<(Node, Node)>, k: Node)
    requires
        keys_unique(b),
    ensures
        map_lookup(merged(a, b), k) == merged_at(map_lookup(a, k), map_lookup(b, k)),
    decreases pairs_size(b),
{
    if b.len() > 0 {
        let k0 = b[0].0;
        let v0 = b[0].1;
        let v2 = match (map_lookup(a, k0), v0) {
            (Some(Node::Mapping(am)), Node::Mapping(bm)) => Node::Mapping(merged(am, bm)),
            _ => v0,
        };
        let a2 = map_upsert(a, k0, v2);
        let rest = b.drop_first();
        assert forall|i: int, j: int| 0 <= i < j < rest.len() implies rest[i].0 != rest[j].0 by {
            assert(rest[i] == b[i + 1]);
            assert(rest[j] == b[j + 1]);
        }
        lemma_merged_lookup(a2, rest, k);
        if k == k0 {
            assert forall|j: int| 0 <= j < rest.len() implies rest[j].0 != k by {
                assert(rest[j] == b[j + 1]);
            }
            lemma_lookup_absent(rest, k);
            lemma_lookup_upsert_same(a, k0, v2);
        } else {
            lemma_lookup_upsert_other(a, k0, v2, k);
        }
    }
}

/// A key that the incoming operand does not hold keeps the base value.
pub proof fn lemma_merge_keeps_base(a: Seq<(Node, Node)>, b: Seq<(Node, Node)>, k: Node)
    requires
        keys_unique(b),
        map_lookup(b, k) is None,
    ensures
        map_lookup(merged(a, b), k) == map_lookup(a, k),
{
    lemma_merged_lookup(a, b, k);
}

/// At a key the incoming operand holds, its value wins outright unless
/// both operands hold a mapping there; in particular a scalar conflict is
/// right-biased, a key absent from the base is added, and a mapping
/// replaces a scalar (and a scalar a mapping) with no merge attempt.
pub proof fn lemma_merge_incoming_wins(a: Seq<(Node, Node)>, b: Seq<(Node, Node)>, k: Node)
    requires
        keys_unique(b),
        map_lookup(b, k) is Some,
        !((map_lookup(a, k) matches Some(av) && av is Mapping) && (map_lookup(b, k)
            matches Some(bv) && bv is Mapping)),
    ensures
        map_lookup(merged(a, b), k) == map_lookup(b, k),
{
    lemma_merged_lookup(a, b, k);
}

/// At a key where both operands hold a mapping, the merge holds the
/// recursive merge of the two mappings.
pub proof fn lemma_merge_deep(a: Seq<(Node, Node)>, b: Seq<(Node, Node)>, k: Node)
    requires
        keys_unique(b),
        map_lookup(a, k) matches Some(av) && av is Mapping,
        map_lookup(b, k) matches Some(bv) && bv is Mapping,
    ensures
        map_lookup(merged(a, b), k) == Some(
            Node::Mapping(
                merged(map_lookup(a, k)->Some_0->Mapping_0, map_lookup(b, k)->Some_0->Mapping_0),
            ),
        ),
{
    lemma_merged_lookup(a, b, k);
}

/// The merge holds exactly the keys of its two operands.
pub proof fn lemma_merge_keys(a: Seq<(Node, Node)>, b: Seq<(Node, Node)>, k: Node)
    requires
        keys_unique(b),
    ensures
        has_key(merged(a, b), k) <==> (has_key(a, k) || has_key(b, k)),
{
    lemma_merged_lookup(a, b, k);
    lemma_has_key_lookup(a, k);
    lemma_has_key_lookup(b, k);
    lemma_has_key_lookup(merged(a, b), k);
}

/// The keys that the incoming operand adds: the keys of its pairs that
/// the base does not hold, in the incoming order.
pub open spec fn added_keys(a: Seq<(Node, Node)>, b: Seq<(Node, Node)>) -> Seq<Node>
    decreases b.len(),
{
    if b.len() == 0 {
        Seq::empty()
    } else if has_key(a, b[0].0) {
        added_keys(a, b.drop_first())
    } else {
        seq![b[0].0] + added_keys(a, b.drop_first())
    }
}

proof fn lemma_added_keys_agree(a1: Seq<(Node, Node)>, a2: Seq<(Node, Node)>, b: Seq<(Node, Node)>)
    requires
        forall|i: int| 0 <= i < b.len() ==> has_key(a1, (#[trigger] b[i]).0) == has_key(a2, b[i].0),
    ensures
        added_keys(a1, b) == added_keys(a2, b),
    decreases b.len(),
{
    if b.len() > 0 {
        assert(has_key(a1, b[0].0) == has_key(a2, b[0].0));
        assert forall|i: int| 0 <= i < b.drop_first().len() implies has_key(
            a1,
            (#[trigger] b.drop_first()[i]).0,
        ) == has_key(a2, b.drop_first()[i].0) by {
            assert(b.drop_first()[i] == b[i + 1]);
        }
        lemma_added_keys_agree(a1, a2, b.drop_first());
    }
}

/// Order preservation: the merge keeps the base operand's keys in their
/// order and appends the keys new in the incoming operand, in its order.
pub proof fn lemma_merge_key_order(a: Seq<(Node, Node)>, b: Seq<(Node, Node)>)
    requires
        keys_unique(b),
    ensures
        keys_of(merged(a, b)) == keys_of(a) + added_keys(a, b),
    decreases pairs_size(b),
{
    if b.len() == 0 {
        assert(keys_of(a) + added_keys(a, b) =~= keys_of(a));
    } else {
        let k0 = b[0].0;
        let v = b[0].1;
        let v2 = match (map_lookup(a, k0), v) {
            (Some(Node::Mapping(am)), Node::Mapping(bm)) => Node::Mapping(merged(am, bm)),
            _ => v,
        };
        let a2 = map_upsert(a, k0, v2);
        let rest = b.drop_first();
        assert forall|i: int, j: int| 0 <= i < j < rest.len() implies rest[i].0 != rest[j].0 by {
            assert(rest[i] == b[i + 1]);
            assert(rest[j] == b[j + 1]);
        }
        assert(pairs_size(b) == 1 + node_size(b[0].1) + pairs_size(rest));
        lemma_merge_key_order(a2, rest);
        lemma_upsert_keys_of(a, k0, v2);
        assert(merged(a, b) == merged(a2, rest));
        if has_key(a, k0) {
            assert forall|i: int| 0 <= i < rest.len() implies has_key(
                a2,
                (#[trigger] rest[i]).0,
            ) == has_key(a, rest[i].0) by {
                lemma_upsert_has_key(a, k0, v2, rest[i].0);
            }
            lemma_added_keys_agree(a2, a, rest);
            assert(added_keys(a, b) == added_keys(a, rest));
        } else {
            assert forall|i: int| 0 <= i < rest.len() implies has_key(
                a2,
                (#[trigger] rest[i]).0,
            ) == has_key(a, rest[i].0) by {
                lemma_upsert_has_key(a, k0, v2, rest[i].0);
                assert(rest[i] == b[i + 1]);
                assert(b[i + 1].0 != b[0].0);
            }
            lemma_added_keys_agree(a2, a, rest);
            assert(added_keys(a, b) == seq![k0] + added_keys(a, rest));
            assert(keys_of(a).push(k0) + added_keys(a, rest) =~= keys_of(a) + (seq![k0]
                + added_keys(a, rest)));
        }
    }
}

proof fn lemma_merged_self_from(x: Seq<(Node, Node)>, i: int)
    requires
        keys_unique(x),
        forall|j: int| 0 <= j < x.len() ==> node_wf(#[trigger] x[j].1),
        0 <= i <= x.len(),
    ensures
        merged(x, x.skip(i)) == x,
    decreases pairs_size(x.skip(i)),
{
    if i == x.len() {
        assert(x.skip(i) =~= Seq::<(Node, Node)>::empty());
    } else {
        let b = x.skip(i);
        assert(b[0] == x[i]);
        let k = x[i].0;
        let v = x[i].1;
        lemma_lookup_at(x, k, i);
        let v2 = match (map_lookup(x, k), v) {
            (Some(Node::Mapping(am)), Node::Mapping(bm)) => Node::Mapping(merged(am, bm)),
            _ => v,
        };
        if v is Mapping {
            let vm = v->Mapping_0;
            assert(node_size(v) == 1 + pairs_size(vm));
            assert(pairs_size(b) == 1 + node_size(b[0].1) + pairs_size(b.drop_first()));
            assert(vm.skip(0) =~= vm);
            lemma_merged_self_from(vm, 0);
            assert(v2 == v);
        }
        lemma_upsert_at(x, k, v2, i);
        assert(x.update(i, (k, v2)) =~= x);
        assert(b.drop_first() =~= x.skip(i + 1));
        assert(pairs_size(b) == 1 + node_size(b[0].1) + pairs_size(b.drop_first()));
        lemma_merged_self_from(x, i + 1);
    }
}

/// Idempotence: merging a well-formed mapping with an identical copy of
/// itself is a no-op.
pub proof fn lemma_merge_idempotent(x: Seq<(Node, Node)>)
    requires
        node_wf(Node::Mapping(x)),
    ensures
        merged(x, x) == x,
{
    assert(x.skip(0) =~= x);
    lemma_merged_self_from(x, 0);
}

/// The empty path resolves to the node itself, whatever the node.
pub proof fn lemma_empty_path_found(node: Node, prefix: Seq<char>)
    ensures
        spec_resolve(Seq::<char>::empty(), node, prefix) == Resolved::Found(node),
{
}

} // verus!
