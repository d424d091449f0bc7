//! The document-tree value type and its mathematical model.
use vstd::prelude::*;

verus! {

broadcast use vstd::std_specs::vec::group_vec_axioms, vstd::seq::group_seq_axioms;

/// Mathematical model of a document-tree value. A mapping is an ordered
/// sequence of key/value pairs; insertion order is observable.
pub enum Node {
    Null,
    Bool(bool),
    Int(int),
    Real(Seq<char>),
    Str(Seq<char>),
    List(Seq<Node>),
    Mapping(Seq<(Node, Node)>),
    Invalid,
}

/// A document-tree value: scalars, sequences, and ordered mappings.
/// A real number keeps its textual form, so no floating point is involved.
#[derive(Debug)]
pub enum Value {
    Null,
    Bool(bool),
    Int(i64),
    Real(String),
    Str(String),
    List(Vec<Value>),
    Mapping(Vec<(Value, Value)>),
    Invalid,
}

/// The model of a sequence of values, element by element.
pub open spec fn list_view(items: Seq<Value>) -> Seq<Node>
    decreases items,
{
    Seq::new(
        items.len(),
        |i: int|
            if 0 <= i < items.len() {
                items[i].view()
            } else {
                Node::Invalid
            },
    )
}

/// The model of a sequence of key/value pairs, pair by pair.
pub open spec fn pairs_view(pairs: Seq<(Value, Value)>) -> Seq<(Node, Node)>
    decreases pairs,
{
    Seq::new(
        pairs.len(),
        |i: int|
            if 0 <= i < pairs.len() {
                (pairs[i].0.view(), pairs[i].1.view())
            } else {
                (Node::Invalid, Node::Invalid)
            },
    )
}

impl View for Value {
    type V = Node;

    open spec fn view(&self) -> Node
        decreases self,
    {
        match *self {
            Value::Null => Node::Null,
            Value::Bool(b) => Node::Bool(b),
            Value::Int(i) => Node::Int(i as int),
            Value::Real(ref s) => Node::Real(s@),
            Value::Str(ref s) => Node::Str(s@),
            Value::List(ref items) => Node::List(list_view(items@)),
            Value::Mapping(ref pairs) => Node::Mapping(pairs_view(pairs@)),
            Value::Invalid => Node::Invalid,
        }
    }
}

/// Size of a node, counted as the number of constructors; it founds the
/// recursion of the merge engine.
pub open spec fn node_size(n: Node) -> nat
    decreases n,
{
    match n {
        Node::List(items) => 1 + list_size(items),
        Node::Mapping(pairs) => 1 + pairs_size(pairs),
        _ => 1,
    }
}

pub open spec fn list_size(items: Seq<Node>) -> nat
    decreases items,
{
    if items.len() == 0 {
        0
    } else {
        node_size(items[0]) + list_size(items.drop_first())
    }
}

pub open spec fn pairs_size(pairs: Seq<(Node, Node)>) -> nat
    decreases pairs,
{
    if pairs.len() == 0 {
        0
    } else {
        1 + node_size(pairs[0].1) + pairs_size(pairs.drop_first())
    }
}

/// No key occurs twice in the pair sequence.
pub open spec fn keys_unique(pairs: Seq<(Node, Node)>) -> bool {
    forall|i: int, j: int| 0 <= i < j < pairs.len() ==> pairs[i].0 != pairs[j].0
}

/// A node is well formed when every mapping in it, at any depth, has
/// pairwise distinct keys.
pub open spec fn node_wf(n: Node) -> bool
    decreases n,
{
    match n {
        Node::List(items) => forall|i: int|
            0 <= i < items.len() ==> node_wf(#[trigger] items[i]),
        Node::Mapping(pairs) => keys_unique(pairs) && (forall|i: int|
            #![trigger pairs[i]]
            0 <= i < pairs.len() ==> node_wf(pairs[i].0) && node_wf(pairs[i].1)),
        _ => true,
    }
}

pub proof fn lemma_wf_drop_first(m: Seq<(Node, Node)>)
    requires
        node_wf(Node::Mapping(m)),
        m.len() > 0,
    ensures
        node_wf(Node::Mapping(m.drop_first())),
{
    let d = m.drop_first();
    assert forall|i: int, j: int| 0 <= i < j < d.len() implies d[i].0 != d[j].0 by {
        assert(d[i] == m[i + 1]);
        assert(d[j] == m[j + 1]);
    }
    assert forall|i: int| 0 <= i < d.len() implies node_wf(#[trigger] d[i].0) && node_wf(
        d[i].1,
    ) by {
        assert(d[i] == m[i + 1]);
        assert(node_wf(m[i + 1].0) && node_wf(m[i + 1].1));
    }
}

/// Structural equality of two values, decided against their models.
pub fn value_eq(a: &Value, b: &Value) -> (r: bool)
    ensures
        r == (a@ == b@),
    decreases *a,
{
    match (a, b) {
        (Value::Null, Value::Null) => true,
        (Value::Bool(x), Value::Bool(y)) => *x == *y,
        (Value::Int(x), Value::Int(y)) => *x == *y,
        (Value::Real(x), Value::Real(y)) => *x == *y,
        (Value::Str(x), Value::Str(y)) => *x == *y,
        (Value::List(x), Value::List(y)) => list_eq(x, y),
        (Value::Mapping(x), Value::Mapping(y)) => pairs_eq(x, y),
        (Value::Invalid, Value::Invalid) => true,
        _ => false,
    }
}

fn list_eq(a: &Vec<Value>, b: &Vec<Value>) -> (r: bool)
    ensures
        r == (list_view(a@) == list_view(b@)),
    decreases a@,
{
    if a.len() != b.len() {
        assert(list_view(a@).len() != list_view(b@).len());
        return false;
    }
    let n = a.len();
    for i in 0..n
        invariant
            n == a@.len() == b@.len(),
            forall|j: int| 0 <= j < i ==> list_view(a@)[j] == list_view(b@)[j],
    {
        if !value_eq(&a[i], &b[i]) {
            assert(list_view(a@)[i as int] != list_view(b@)[i as int]);
            return false;
        }
    }
    proof {
        assert(list_view(a@) =~= list_view(b@));
    }
    true
}

pub fn pairs_eq(a: &Vec<(Value, Value)>, b: &Vec<(Value, Value)>) -> (r: bool)
    ensures
        r == (pairs_view(a@) == pairs_view(b@)),
    decreases a@,
{
    if a.len() != b.len() {
        assert(pairs_view(a@).len() != pairs_view(b@).len());
        return false;
    }
    let n = a.len();
    for i in 0..n
        invariant
            n == a@.len() == b@.len(),
            forall|j: int| 0 <= j < i ==> pairs_view(a@)[j] == pairs_view(b@)[j],
    {
        if !value_eq(&a[i].0, &b[i].0) || !value_eq(&a[i].1, &b[i].1) {
            assert(pairs_view(a@)[i as int] != pairs_view(b@)[i as int]);
            return false;
        }
    }
    proof {
        assert(pairs_view(a@) =~= pairs_view(b@));
    }
    true
}

impl PartialEq for Value {
    fn eq(&self, other: &Value) -> (r: bool) {
        value_eq(self, other)
    }
}

impl vstd::std_specs::cmp::PartialEqSpecImpl for Value {
    open spec fn obeys_eq_spec() -> bool {
        true
    }

    open spec fn eq_spec(&self, other: &Value) -> bool {
        self@ == other@
    }
}

impl Eq for Value {

}

/// Deep copy of a value; the copy has the same model.
pub fn clone_value(v: &Value) -> (r: Value)
    ensures
        r@ == v@,
    decreases *v,
{
    match v {
        Value::Null => Value::Null,
        Value::Bool(b) => Value::Bool(*b),
        Value::Int(i) => Value::Int(*i),
        Value::Real(s) => Value::Real(s.clone()),
        Value::Str(s) => Value::Str(s.clone()),
        Value::List(items) => Value::List(clone_list(items)),
        Value::Mapping(pairs) => Value::Mapping(clone_pairs(pairs)),
        Value::Invalid => Value::Invalid,
    }
}

/// Deep copy of a value sequence; the copy has the same model.
pub fn clone_list(items: &Vec<Value>) -> (r: Vec<Value>)
    ensures
        list_view(r@) == list_view(items@),
    decreases items@,
{
    let n = items.len();
    let mut out: Vec<Value> = Vec::new();
    for i in 0..n
        invariant
            n == items@.len(),
            out@.len() == i,
            forall|j: int| 0 <= j < i ==> out@[j]@ == items@[j]@,
    {
        out.push(clone_value(&items[i]));
    }
    proof {
        assert(list_view(out@) =~= list_view(items@));
    }
    out
}

/// Deep copy of a pair sequence; the copy has the same model.
pub fn clone_pairs(pairs: &Vec<(Value, Value)>) -> (r: Vec<(Value, Value)>)
    ensures
        pairs_view(r@) == pairs_view(pairs@),
    decreases pairs@,
{
    let n = pairs.len();
    let mut out: Vec<(Value, Value)> = Vec::new();
    for i in 0..n
        invariant
            n == pairs@.len(),
            out@.len() == i,
            forall|j: int| 0 <= j < i ==> out@[j].0@ == pairs@[j].0@ && out@[j].1@ == pairs@[j].1@,
    {
        out.push((clone_value(&pairs[i].0), clone_value(&pairs[i].1)));
    }
    proof {
        assert(pairs_view(out@) =~= pairs_view(pairs@));
    }
    out
}

impl Clone for Value {
    fn clone(&self) -> (r: Value)
        ensures
            r@ == self@,
    {
        clone_value(self)
    }
}

} // verus!
