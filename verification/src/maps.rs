//! Ordered-map operations over key/value pair sequences: lookup of the
//! first matching key, and order-preserving insert-or-replace.
use vstd::prelude::*;

use crate::value::{keys_unique, node_wf, pairs_view, value_eq, Node, Value};

verus! {

broadcast use vstd::std_specs::vec::group_vec_axioms, vstd::seq::group_seq_axioms;

/// The value at the first pair whose key is `k`, if any.
pub open spec fn map_lookup(m: Seq<(Node, Node)>, k: Node) -> Option<Node>
    decreases m.len(),
{
    if m.len() == 0 {
        None
    } else if m[0].0 == k {
        Some(m[0].1)
    } else {
        map_lookup(m.drop_first(), k)
    }
}

/// Replace the value at the first pair whose key is `k`, keeping its
/// position; append the pair when the key is absent.
pub open spec fn map_upsert(m: Seq<(Node, Node)>, k: Node, v: Node) -> Seq<(Node, Node)>
    decreases m.len(),
{
    if m.len() == 0 {
        seq![(k, v)]
    } else if m[0].0 == k {
        seq![(k, v)] + m.drop_first()
    } else {
        seq![m[0]] + map_upsert(m.drop_first(), k, v)
    }
}

pub proof fn lemma_lookup_at(m: Seq<(Node, Node)>, k: Node, i: int)
    requires
        0 <= i < m.len(),
        m[i].0 == k,
        forall|j: int| 0 <= j < i ==> m[j].0 != k,
    ensures
        map_lookup(m, k) == Some(m[i].1),
    decreases i,
{
    if i > 0 {
        assert(m.drop_first()[i - 1] == m[i]);
        assert forall|j: int| 0 <= j < i - 1 implies m.drop_first()[j].0 != k by {
            assert(m.drop_first()[j] == m[j + 1]);
        }
        lemma_lookup_at(m.drop_first(), k, i - 1);
    }
}

pub proof fn lemma_lookup_absent(m: Seq<(Node, Node)>, k: Node)
    requires
        forall|j: int| 0 <= j < m.len() ==> m[j].0 != k,
    ensures
        map_lookup(m, k) is None,
    decreases m.len(),
{
    if m.len() > 0 {
        assert forall|j: int| 0 <= j < m.drop_first().len() implies m.drop_first()[j].0 != k by {
            assert(m.drop_first()[j] == m[j + 1]);
        }
        lemma_lookup_absent(m.drop_first(), k);
    }
}

pub proof fn lemma_upsert_at(m: Seq<(Node, Node)>, k: Node, v: Node, i: int)
    requires
        0 <= i < m.len(),
        m[i].0 == k,
        forall|j: int| 0 <= j < i ==> m[j].0 != k,
    ensures
        map_upsert(m, k, v) == m.update(i, (k, v)),
    decreases i,
{
    if i == 0 {
        assert(seq![(k, v)] + m.drop_first() =~= m.update(0, (k, v)));
    } else {
        assert(m.drop_first()[i - 1] == m[i]);
        assert forall|j: int| 0 <= j < i - 1 implies m.drop_first()[j].0 != k by {
            assert(m.drop_first()[j] == m[j + 1]);
        }
        lemma_upsert_at(m.drop_first(), k, v, i - 1);
        assert(seq![m[0]] + m.drop_first().update(i - 1, (k, v)) =~= m.update(i, (k, v)));
    }
}

pub proof fn lemma_upsert_absent(m: Seq<(Node, Node)>, k: Node, v: Node)
    requires
        forall|j: int| 0 <= j < m.len() ==> m[j].0 != k,
    ensures
        map_upsert(m, k, v) == m.push((k, v)),
    decreases m.len(),
{
    if m.len() == 0 {
        assert(seq![(k, v)] =~= m.push((k, v)));
    } else {
        assert forall|j: int| 0 <= j < m.drop_first().len() implies m.drop_first()[j].0 != k by {
            assert(m.drop_first()[j] == m[j + 1]);
        }
        lemma_upsert_absent(m.drop_first(), k, v);
        assert(seq![m[0]] + m.drop_first().push((k, v)) =~= m.push((k, v)));
    }
}

pub proof fn lemma_lookup_upsert_same(m: Seq<(Node, Node)>, k: Node, v: Node)
    ensures
        map_lookup(map_upsert(m, k, v), k) == Some(v),
    decreases m.len(),
{
    if m.len() == 0 {
    } else if m[0].0 == k {
        assert((seq![(k, v)] + m.drop_first())[0] == (k, v));
    } else {
        lemma_lookup_upsert_same(m.drop_first(), k, v);
        assert((seq![m[0]] + map_upsert(m.drop_first(), k, v))[0] == m[0]);
        assert((seq![m[0]] + map_upsert(m.drop_first(), k, v)).drop_first() =~= map_upsert(
            m.drop_first(),
            k,
            v,
        ));
    }
}

pub proof fn lemma_lookup_upsert_other(m: Seq<(Node, Node)>, k: Node, v: Node, k2: Node)
    requires
        k2 != k,
    ensures
        map_lookup(map_upsert(m, k, v), k2) == map_lookup(m, k2),
    decreases m.len(),
{
    reveal_with_fuel(map_lookup, 3);
    if m.len() == 0 {
        assert(seq![(k, v)][0] == (k, v));
        assert(seq![(k, v)].drop_first() =~= Seq::<(Node, Node)>::empty());
    } else if m[0].0 == k {
        assert((seq![(k, v)] + m.drop_first())[0] == (k, v));
        assert((seq![(k, v)] + m.drop_first()).drop_first() =~= m.drop_first());
    } else {
        lemma_lookup_upsert_other(m.drop_first(), k, v, k2);
        assert((seq![m[0]] + map_upsert(m.drop_first(), k, v))[0] == m[0]);
        assert((seq![m[0]] + map_upsert(m.drop_first(), k, v)).drop_first() =~= map_upsert(
            m.drop_first(),
            k,
            v,
        ));
    }
}

/// Some pair of the sequence has key `x`.
pub open spec fn has_key(m: Seq<(Node, Node)>, x: Node) -> bool {
    exists|j: int| 0 <= j < m.len() && (#[trigger] m[j]).0 == x
}

/// The keys of the pair sequence, in order.
pub open spec fn keys_of(m: Seq<(Node, Node)>) -> Seq<Node> {
    m.map_values(|p: (Node, Node)| p.0)
}

/// A key is held exactly when a lookup finds something.
pub proof fn lemma_has_key_lookup(m: Seq<(Node, Node)>, k: Node)
    ensures
        has_key(m, k) <==> map_lookup(m, k) is Some,
    decreases m.len(),
{
    if m.len() == 0 {
    } else if m[0].0 == k {
        assert(0 <= 0 < m.len() && m[0].0 == k);
    } else {
        lemma_has_key_lookup(m.drop_first(), k);
        if has_key(m, k) {
            let j = choose|j: int| 0 <= j < m.len() && (#[trigger] m[j]).0 == k;
            assert(m.drop_first()[j - 1] == m[j]);
            assert(has_key(m.drop_first(), k));
        }
        if has_key(m.drop_first(), k) {
            let j = choose|j: int|
                0 <= j < m.drop_first().len() && (#[trigger] m.drop_first()[j]).0 == k;
            assert(m.drop_first()[j] == m[j + 1]);
            assert(has_key(m, k));
        }
    }
}

/// An upsert holds a key exactly when the mapping held it or it is the
/// inserted one.
pub proof fn lemma_upsert_has_key(m: Seq<(Node, Node)>, k: Node, v: Node, x: Node)
    ensures
        has_key(map_upsert(m, k, v), x) <==> (has_key(m, x) || x == k),
{
    lemma_has_key_lookup(map_upsert(m, k, v), x);
    lemma_has_key_lookup(m, x);
    if x == k {
        lemma_lookup_upsert_same(m, k, v);
    } else {
        lemma_lookup_upsert_other(m, k, v, x);
    }
}

/// An upsert leaves the key sequence as it was, or appends the new key.
pub proof fn lemma_upsert_keys_of(m: Seq<(Node, Node)>, k: Node, v: Node)
    ensures
        keys_of(map_upsert(m, k, v)) == (if has_key(m, k) {
            keys_of(m)
        } else {
            keys_of(m).push(k)
        }),
    decreases m.len(),
{
    let u = map_upsert(m, k, v);
    if m.len() == 0 {
        assert(keys_of(u) =~= keys_of(m).push(k));
    } else if m[0].0 == k {
        assert(0 <= 0 < m.len() && m[0].0 == k);
        assert(keys_of(u) =~= keys_of(m));
    } else {
        lemma_upsert_keys_of(m.drop_first(), k, v);
        if has_key(m.drop_first(), k) {
            let j = choose|j: int|
                0 <= j < m.drop_first().len() && (#[trigger] m.drop_first()[j]).0 == k;
            assert(m.drop_first()[j] == m[j + 1]);
            assert(has_key(m, k));
            assert(keys_of(map_upsert(m.drop_first(), k, v)).len() == map_upsert(
                m.drop_first(),
                k,
                v,
            ).len());
            assert(map_upsert(m.drop_first(), k, v).len() == m.drop_first().len());
            assert(u.len() == m.len());
            assert forall|i: int| 0 <= i < u.len() implies keys_of(u)[i] == keys_of(m)[i] by {
                if i > 0 {
                    assert(u[i] == map_upsert(m.drop_first(), k, v)[i - 1]);
                    assert(keys_of(map_upsert(m.drop_first(), k, v))[i - 1] == keys_of(
                        m.drop_first(),
                    )[i - 1]);
                    assert(m.drop_first()[i - 1] == m[i]);
                }
            }
            assert(keys_of(u) =~= keys_of(m));
        } else {
            if has_key(m, k) {
                let j = choose|j: int| 0 <= j < m.len() && (#[trigger] m[j]).0 == k;
                assert(m.drop_first()[j - 1] == m[j]);
                assert(has_key(m.drop_first(), k));
            }
            assert(keys_of(map_upsert(m.drop_first(), k, v)).len() == map_upsert(
                m.drop_first(),
                k,
                v,
            ).len());
            assert(map_upsert(m.drop_first(), k, v).len() == m.drop_first().len() + 1);
            assert(u.len() == m.len() + 1);
            assert forall|i: int| 0 <= i < u.len() implies keys_of(u)[i] == keys_of(m).push(
                k,
            )[i] by {
                if i > 0 {
                    assert(u[i] == map_upsert(m.drop_first(), k, v)[i - 1]);
                    assert(keys_of(map_upsert(m.drop_first(), k, v))[i - 1] == keys_of(
                        m.drop_first(),
                    ).push(k)[i - 1]);
                    if i < m.len() {
                        assert(m.drop_first()[i - 1] == m[i]);
                    }
                }
            }
            assert(keys_of(u) =~= keys_of(m).push(k));
        }
    }
}

/// An upsert introduces no key beyond `k` and those already present.
pub proof fn lemma_upsert_keys(m: Seq<(Node, Node)>, k: Node, v: Node)
    ensures
        forall|x: Node| #[trigger] has_key(map_upsert(m, k, v), x) ==> x == k || has_key(m, x),
    decreases m.len(),
{
    let u = map_upsert(m, k, v);
    if m.len() == 0 {
        assert forall|x: Node| #[trigger] has_key(u, x) implies x == k by {
            let j = choose|j: int| 0 <= j < u.len() && (#[trigger] u[j]).0 == x;
            assert(u[j] == (k, v));
        }
    } else if m[0].0 == k {
        assert forall|x: Node| #[trigger] has_key(u, x) implies x == k || has_key(m, x) by {
            let j = choose|j: int| 0 <= j < u.len() && (#[trigger] u[j]).0 == x;
            if j == 0 {
                assert(u[0] == (k, v));
            } else {
                assert(u[j] == m[j]);
                assert(0 <= j < m.len() && m[j].0 == x);
            }
        }
    } else {
        lemma_upsert_keys(m.drop_first(), k, v);
        assert forall|x: Node| #[trigger] has_key(u, x) implies x == k || has_key(m, x) by {
            let j = choose|j: int| 0 <= j < u.len() && (#[trigger] u[j]).0 == x;
            if j == 0 {
                assert(u[0] == m[0]);
                assert(0 <= 0 < m.len() && m[0].0 == x);
            } else {
                assert(u[j] == map_upsert(m.drop_first(), k, v)[j - 1]);
                assert(has_key(map_upsert(m.drop_first(), k, v), x));
                if x != k {
                    let j2 = choose|j2: int|
                        0 <= j2 < m.drop_first().len() && (#[trigger] m.drop_first()[j2]).0 == x;
                    assert(m.drop_first()[j2] == m[j2 + 1]);
                    assert(0 <= j2 + 1 < m.len() && m[j2 + 1].0 == x);
                }
            }
        }
    }
}

/// An upsert of a well-formed key and value into a well-formed mapping
/// leaves the mapping well formed.
pub proof fn lemma_upsert_wf(m: Seq<(Node, Node)>, k: Node, v: Node)
    requires
        node_wf(Node::Mapping(m)),
        node_wf(k),
        node_wf(v),
    ensures
        node_wf(Node::Mapping(map_upsert(m, k, v))),
    decreases m.len(),
{
    let u = map_upsert(m, k, v);
    if m.len() == 0 {
        assert(u[0] == (k, v));
        assert(keys_unique(u));
    } else if m[0].0 == k {
        assert(u[0] == (k, v));
        assert forall|i: int, j: int| 0 <= i < j < u.len() implies u[i].0 != u[j].0 by {
            if i > 0 {
                assert(u[i] == m[i]);
            }
            assert(u[j] == m[j]);
        }
        assert forall|i: int| 0 <= i < u.len() implies node_wf(#[trigger] u[i].0) && node_wf(
            u[i].1,
        ) by {
            if i > 0 {
                assert(u[i] == m[i]);
                assert(node_wf(m[i].0) && node_wf(m[i].1));
            }
        }
    } else {
        let d = m.drop_first();
        crate::value::lemma_wf_drop_first(m);
        lemma_upsert_wf(d, k, v);
        lemma_upsert_keys(d, k, v);
        let ud = map_upsert(d, k, v);
        assert(u == seq![m[0]] + ud);
        assert forall|i: int, j: int| 0 <= i < j < u.len() implies u[i].0 != u[j].0 by {
            if i == 0 {
                assert(u[0] == m[0]);
                assert(u[j] == ud[j - 1]);
                if u[j].0 == m[0].0 {
                    assert(has_key(ud, u[j].0));
                    if u[j].0 == k {
                    } else {
                        let j2 = choose|j2: int| 0 <= j2 < d.len() && (#[trigger] d[j2]).0 == u[j].0;
                        assert(d[j2] == m[j2 + 1]);
                    }
                }
            } else {
                assert(u[i] == ud[i - 1]);
                assert(u[j] == ud[j - 1]);
            }
        }
        assert forall|i: int| 0 <= i < u.len() implies node_wf(#[trigger] u[i].0) && node_wf(
            u[i].1,
        ) by {
            if i == 0 {
                assert(u[0] == m[0]);
                assert(node_wf(m[0].0) && node_wf(m[0].1));
            } else {
                assert(u[i] == ud[i - 1]);
                assert(node_wf(ud[i - 1].0) && node_wf(ud[i - 1].1));
            }
        }
    }
}

/// The value found for a key in a mapping of well-formed values is well
/// formed.
pub proof fn lemma_lookup_wf(m: Seq<(Node, Node)>, k: Node)
    requires
        forall|i: int| #![trigger m[i]] 0 <= i < m.len() ==> node_wf(m[i].1),
        map_lookup(m, k) is Some,
    ensures
        node_wf(map_lookup(m, k)->Some_0),
    decreases m.len(),
{
    if m.len() > 0 && m[0].0 != k {
        assert forall|i: int| #![trigger m.drop_first()[i]] 0 <= i < m.drop_first().len() implies node_wf(
            m.drop_first()[i].1,
        ) by {
            assert(m.drop_first()[i] == m[i + 1]);
        }
        lemma_lookup_wf(m.drop_first(), k);
    }
}

/// Index of the first pair whose key equals `k`, if any.
pub fn find_key(m: &Vec<(Value, Value)>, k: &Value) -> (r: Option<usize>)
    ensures
        match r {
            Some(i) => i < m@.len() && pairs_view(m@)[i as int].0 == k@ && (forall|j: int|
                0 <= j < i ==> pairs_view(m@)[j].0 != k@),
            None => forall|j: int| 0 <= j < m@.len() ==> pairs_view(m@)[j].0 != k@,
        },
{
    let n = m.len();
    for i in 0..n
        invariant
            n == m@.len(),
            forall|j: int| 0 <= j < i ==> pairs_view(m@)[j].0 != k@,
    {
        if value_eq(&m[i].0, k) {
            return Some(i);
        }
    }
    None
}

/// Insert or replace in place: the first pair with key `k` gets value `v`
/// without moving, or a new pair is appended.
pub fn upsert(m: &mut Vec<(Value, Value)>, k: Value, v: Value)
    ensures
        pairs_view(final(m)@) == map_upsert(pairs_view(old(m)@), k@, v@),
{
    match find_key(m, &k) {
        Some(i) => {
            proof {
                lemma_upsert_at(pairs_view(m@), k@, v@, i as int);
            }
            m[i] = (k, v);
            proof {
                assert(pairs_view(m@) =~= pairs_view(old(m)@).update(i as int, (k@, v@)));
            }
        },
        None => {
            proof {
                lemma_upsert_absent(pairs_view(m@), k@, v@);
            }
            m.push((k, v));
            proof {
                assert(pairs_view(m@) =~= pairs_view(old(m)@).push((k@, v@)));
            }
        },
    }
}

} // verus!
