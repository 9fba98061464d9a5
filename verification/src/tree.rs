//! The JSON object tree that the leaves of a query make: each leaf's value
//! stands at its path of object keys, and the objects on the way are made as
//! they are needed.
use vstd::prelude::*;
use vstd::map::*;

use crate::json::{first_keys_named, leaf_models, leaves_apart, path_views, strict_prefix, LeafModel, LeafValue};

verus! {

/// A JSON tree: a leaf, or an object of named members (a later member with
/// the same name hides an earlier one).
pub enum JsonTree {
    Leaf(LeafValue),
    Object(Vec<(String, JsonTree)>),
}

/// What stands at a path of a tree: an object or a leaf.
pub enum NodeModel {
    Object,
    Leaf(LeafModel),
}

/// The index of the last member named `k`.
pub open spec fn last_member(es: Seq<(String, JsonTree)>, k: Seq<char>) -> Option<int>
    decreases es.len(),
{
    if es.len() == 0 {
        None
    } else if es.last().0@ == k {
        Some(es.len() - 1)
    } else {
        last_member(es.drop_last(), k)
    }
}

/// What stands at path `p` of `t`, if anything.
pub open spec fn node_at(t: JsonTree, p: Seq<Seq<char>>) -> Option<NodeModel>
    decreases p.len(),
{
    if p.len() == 0 {
        match t {
            JsonTree::Leaf(l) => Some(NodeModel::Leaf(l@)),
            JsonTree::Object(_) => Some(NodeModel::Object),
        }
    } else {
        match t {
            JsonTree::Leaf(_) => None,
            JsonTree::Object(es) => match last_member(es@, p[0]) {
                Some(i) => node_at(es@[i].1, p.drop_first()),
                None => None,
            },
        }
    }
}

/// The nodes of a tree, by path.
pub open spec fn tree_nodes(t: JsonTree) -> Map<Seq<Seq<char>>, NodeModel> {
    Map::new(
        |p: Seq<Seq<char>>| node_at(t, p) is Some,
        |p: Seq<Seq<char>>|
            match node_at(t, p) {
                Some(n) => n,
                None => NodeModel::Object,
            },
    )
}

/// `q` begins `p` (or is `p`).
pub open spec fn is_prefix(q: Seq<Seq<char>>, p: Seq<Seq<char>>) -> bool {
    q.len() <= p.len() && p.take(q.len() as int) == q
}

/// The nodes after a leaf `v` is put at path `s`: the objects on the way
/// are made where they are missing.
pub open spec fn nodes_insert(m: Map<Seq<Seq<char>>, NodeModel>, s: Seq<Seq<char>>, v: LeafModel) -> Map<
    Seq<Seq<char>>,
    NodeModel,
> {
    Map::new(
        |q: Seq<Seq<char>>| m.contains_key(q) || is_prefix(q, s),
        |q: Seq<Seq<char>>|
            if q == s {
                NodeModel::Leaf(v)
            } else if m.contains_key(q) {
                m[q]
            } else {
                NodeModel::Object
            },
    )
}

/// A leaf can be put at `s`: the nodes on the way are objects, and at `s`
/// stands nothing or a leaf with nothing under it.
pub open spec fn insert_ok(m: Map<Seq<Seq<char>>, NodeModel>, s: Seq<Seq<char>>) -> bool {
    &&& s.len() >= 1
    &&& forall|j: int| 0 <= j < s.len() && #[trigger] m.contains_key(s.take(j)) ==> m[s.take(j)] is Object
    &&& m.contains_key(s) ==> m[s] is Leaf
    &&& forall|q: Seq<Seq<char>>| #[trigger] m.contains_key(q) && is_prefix(s, q) ==> q == s
}

/// The nodes of the tree that the leaves make, one after the other, in an
/// empty object.
pub open spec fn leaves_nodes(l: Seq<(Seq<Seq<char>>, LeafModel)>) -> Map<Seq<Seq<char>>, NodeModel>
    decreases l.len(),
{
    if l.len() == 0 {
        map![Seq::<Seq<char>>::empty() => NodeModel::Object]
    } else {
        nodes_insert(leaves_nodes(l.drop_last()), l.last().0, l.last().1)
    }
}

proof fn lemma_last_member_push(es: Seq<(String, JsonTree)>, x: (String, JsonTree), k: Seq<char>)
    ensures
        last_member(es.push(x), k) == (if x.0@ == k { Some(es.len() as int) } else { last_member(es, k) }),
{
    assert(es.push(x).drop_last() =~= es);
}

proof fn lemma_last_member_range(es: Seq<(String, JsonTree)>, k: Seq<char>)
    ensures
        match last_member(es, k) {
            Some(i) => 0 <= i < es.len() && es[i].0@ == k,
            None => true,
        },
    decreases es.len(),
{
    if es.len() > 0 && es.last().0@ != k {
        lemma_last_member_range(es.drop_last(), k);
    }
}

proof fn lemma_last_member_update(es: Seq<(String, JsonTree)>, j: int, x: (String, JsonTree), k: Seq<char>)
    requires
        0 <= j < es.len(),
        last_member(es, x.0@) == Some(j),
    ensures
        last_member(es.update(j, x), k) == last_member(es, k),
    decreases es.len(),
{
    let u = es.update(j, x);
    if j == es.len() - 1 {
        lemma_last_member_range(es.drop_last(), x.0@);
        assert(u.drop_last() =~= es.drop_last());
    } else {
        assert(es.last().0@ != x.0@);
        assert(u.last() == es.last());
        assert(u.drop_last() =~= es.drop_last().update(j, x));
        lemma_last_member_update(es.drop_last(), j, x, k);
    }
}

/// The index of the last member named `k`.
fn find_member(es: &Vec<(String, JsonTree)>, k: &String) -> (r: Option<usize>)
    ensures
        match r {
            Some(i) => last_member(es@, k@) == Some(i as int),
            None => last_member(es@, k@) is None,
        },
{
    let mut found: Option<usize> = None;
    let mut i: usize = 0;
    while i < es.len()
        invariant
            i <= es@.len(),
            match found {
                Some(x) => last_member(es@.take(i as int), k@) == Some(x as int),
                None => last_member(es@.take(i as int), k@) is None,
            },
        decreases es@.len() - i,
    {
        assert(es@.take(i + 1).drop_last() =~= es@.take(i as int));
        assert(es@.take(i + 1).last() == es@[i as int]);
        if es[i].0 == *k {
            found = Some(i);
        }
        i = i + 1;
    }
    assert(es@.take(es@.len() as int) =~= es@);
    found
}

/// What stands under member `k` of an object is what stands in that member.
proof fn lemma_under_member(es: Vec<(String, JsonTree)>, k: Seq<char>, q: Seq<Seq<char>>)
    ensures
        node_at(JsonTree::Object(es), seq![k] + q) == match last_member(es@, k) {
            Some(i) => node_at(es@[i].1, q),
            None => None,
        },
{
    let p = seq![k] + q;
    assert(p[0] == k);
    assert(p.drop_first() =~= q);
}

/// The nodes under member `k` of an object; an absent member counts as an
/// empty object.
pub open spec fn member_nodes(es: Seq<(String, JsonTree)>, k: Seq<char>) -> Map<Seq<Seq<char>>, NodeModel> {
    match last_member(es, k) {
        Some(j) => tree_nodes(es[j].1),
        None => map![Seq::<Seq<char>>::empty() => NodeModel::Object],
    }
}

/// An object whose member `ka` took a leaf at `sub`, its other members
/// unchanged, took that leaf at `ka` and then `sub`.
proof fn lemma_level(
    es0: Vec<(String, JsonTree)>,
    es: Vec<(String, JsonTree)>,
    x: (String, JsonTree),
    ka: Seq<char>,
    sub: Seq<Seq<char>>,
    v: LeafModel,
)
    requires
        x.0@ == ka,
        es@ == match last_member(es0@, ka) {
            Some(j) => es0@.update(j, x),
            None => es0@.push(x),
        },
        tree_nodes(x.1) == nodes_insert(member_nodes(es0@, ka), sub, v),
    ensures
        tree_nodes(JsonTree::Object(es)) == nodes_insert(tree_nodes(JsonTree::Object(es0)), seq![ka] + sub, v),
{
    let r = JsonTree::Object(es);
    let t = JsonTree::Object(es0);
    let m = tree_nodes(t);
    let s = seq![ka] + sub;
    let n = nodes_insert(m, s, v);
    let cn = member_nodes(es0@, ka);
    lemma_last_member_range(es0@, ka);
    match last_member(es0@, ka) {
        Some(j) => {
            lemma_last_member_update(es0@, j, x, ka);
        },
        None => {
            lemma_last_member_push(es0@, x, ka);
        },
    }
    assert_maps_equal!(tree_nodes(r), n, q => {
        if q.len() == 0 {
            assert(m.contains_key(q));
            assert(q != s);
            assert(tree_nodes(r).contains_key(q) == n.contains_key(q));
            assert(tree_nodes(r)[q] == n[q]);
        } else {
            let q0 = q[0];
            let rest = q.drop_first();
            assert(q =~= seq![q0] + rest);
            lemma_under_member(es, q0, rest);
            lemma_under_member(es0, q0, rest);
            if q0 == ka {
                assert(is_prefix(q, s) == is_prefix(rest, sub)) by {
                    if q.len() <= s.len() {
                        assert(s.take(q.len() as int) =~= seq![ka] + sub.take(rest.len() as int));
                        if is_prefix(rest, sub) {
                            assert(s.take(q.len() as int) =~= q);
                        }
                        if is_prefix(q, s) {
                            assert(sub.take(rest.len() as int) =~= s.take(q.len() as int).drop_first());
                        }
                    }
                }
                assert((q == s) == (rest == sub)) by {
                    if rest == sub {
                        assert(q =~= s);
                    }
                    if q == s {
                        assert(rest =~= s.drop_first());
                        assert(s.drop_first() =~= sub);
                    }
                }
                let jn = match last_member(es@, ka) {
                    Some(x) => x,
                    None => 0,
                };
                assert(node_at(r, q) == node_at(es@[jn].1, rest));
                assert(tree_nodes(r).contains_key(q) == nodes_insert(cn, sub, v).contains_key(rest));
                assert(tree_nodes(r).contains_key(q) ==> tree_nodes(r)[q] == nodes_insert(cn, sub, v)[rest]);
                match last_member(es0@, ka) {
                    Some(j) => {
                        assert(node_at(t, q) == node_at(es0@[j].1, rest));
                        assert(m.contains_key(q) == cn.contains_key(rest));
                        assert(m.contains_key(q) ==> m[q] == cn[rest]);
                    },
                    None => {
                        assert(!m.contains_key(q));
                        if rest.len() == 0 {
                            assert(rest =~= Seq::<Seq<char>>::empty());
                            assert(cn.contains_key(rest));
                            assert(is_prefix(q, s)) by {
                                assert(s.take(1) =~= q);
                            }
                        } else {
                            assert(!cn.contains_key(rest));
                        }
                        assert(cn.contains_key(rest) ==> cn[rest] == NodeModel::Object);
                    },
                }
                assert(tree_nodes(r).contains_key(q) == n.contains_key(q));
                assert(tree_nodes(r).contains_key(q) ==> tree_nodes(r)[q] == n[q]);
            } else {
                lemma_last_member_range(es0@, q0);
                match last_member(es0@, ka) {
                    Some(j) => {
                        lemma_last_member_update(es0@, j, x, q0);
                    },
                    None => {
                        lemma_last_member_push(es0@, x, q0);
                    },
                }
                assert(last_member(es@, q0) == last_member(es0@, q0));
                match last_member(es0@, q0) {
                    Some(i) => {
                        assert(es@[i] == es0@[i]);
                    },
                    None => {},
                }
                assert(!is_prefix(q, s)) by {
                    if q.len() <= s.len() {
                        assert(s.take(q.len() as int)[0] == ka);
                    }
                }
                assert(q != s) by {
                    if q == s {
                        assert(s[0] == ka);
                    }
                }
                assert(node_at(r, q) == node_at(t, q));
                assert(tree_nodes(r).contains_key(q) == n.contains_key(q));
                assert(tree_nodes(r).contains_key(q) ==> tree_nodes(r)[q] == n[q]);
            }
        }
    });
}

/// Puts `leaf` at the rest of `path` from `i` on, in the object `t`.
fn insert_leaf(t: JsonTree, path: &Vec<String>, i: usize, leaf: LeafValue) -> (r: JsonTree)
    requires
        i < path@.len(),
        t is Object,
        insert_ok(tree_nodes(t), path_views(path@).skip(i as int)),
    ensures
        r is Object,
        tree_nodes(r) == nodes_insert(tree_nodes(t), path_views(path@).skip(i as int), leaf@),
    decreases path@.len() - i,
{
    let ghost s = path_views(path@).skip(i as int);
    let ghost m = tree_nodes(t);
    let ghost v = leaf@;
    match t {
        JsonTree::Leaf(l) => JsonTree::Leaf(l),
        JsonTree::Object(mut es) => {
            let ghost es0 = es;
            let key = path[i].clone();
            assert(key@ == s[0]);
            let ghost ka = key@;
            let found = find_member(&es, &key);
            proof {
                lemma_last_member_range(es@, ka);
            }
            let ghost sub = s.drop_first();
            assert(s =~= seq![ka] + sub);
            assert(path_views(path@).skip(i + 1) =~= sub);
            let ghost cn = member_nodes(es0@, ka);
            let c2: JsonTree;
            if i == path.len() - 1 {
                if let Some(j) = found {
                    es.remove(j);
                }
                c2 = JsonTree::Leaf(leaf);
                proof {
                    assert(sub =~= Seq::<Seq<char>>::empty());
                    assert forall|q: Seq<Seq<char>>| #[trigger] cn.contains_key(q) implies q.len() == 0 by {
                        if q.len() > 0 {
                            lemma_under_member(es0, ka, q);
                            assert(m.contains_key(seq![ka] + q));
                            assert((seq![ka] + q).take(1) =~= s);
                            assert(is_prefix(s, seq![ka] + q));
                            assert(seq![ka] + q == s);
                            assert((seq![ka] + q).len() == 1);
                        }
                    }
                    assert_maps_equal!(tree_nodes(c2), nodes_insert(cn, sub, v), q => {
                        if q.len() == 0 {
                            assert(sub.take(0) =~= q);
                            assert(is_prefix(q, sub));
                            assert(q =~= sub);
                        } else {
                            assert(!is_prefix(q, sub));
                        }
                    });
                }
            } else {
                match found {
                    Some(j) => {
                        let child = &es[j].1;
                        proof {
                            lemma_under_member(es0, ka, Seq::empty());
                            assert(s.take(1) =~= seq![ka] + Seq::<Seq<char>>::empty());
                            assert(m.contains_key(s.take(1)));
                            assert(cn == tree_nodes(*child));
                            assert forall|q: Seq<Seq<char>>| #[trigger] cn.contains_key(q) && is_prefix(sub, q) implies q == sub by {
                                lemma_under_member(es0, ka, q);
                                assert(m.contains_key(seq![ka] + q));
                                assert((seq![ka] + q).take(s.len() as int) =~= seq![ka] + q.take(sub.len() as int));
                                assert(is_prefix(s, seq![ka] + q));
                                assert(seq![ka] + q == s);
                                assert(q =~= (seq![ka] + q).drop_first());
                            }
                            assert forall|jj: int| 0 <= jj < sub.len() && #[trigger] cn.contains_key(sub.take(jj)) implies cn[sub.take(jj)] is Object by {
                                lemma_under_member(es0, ka, sub.take(jj));
                                assert(seq![ka] + sub.take(jj) =~= s.take(jj + 1));
                                assert(m.contains_key(s.take(jj + 1)));
                            }
                            if cn.contains_key(sub) {
                                lemma_under_member(es0, ka, sub);
                                assert(seq![ka] + sub =~= s);
                            }
                        }
                        let (_, old_child) = es.remove(j);
                        c2 = insert_leaf(old_child, path, i + 1, leaf);
                    },
                    None => {
                        let empty: Vec<(String, JsonTree)> = Vec::new();
                        let fresh = JsonTree::Object(empty);
                        proof {
                            assert_maps_equal!(tree_nodes(fresh), cn, q => {
                                if q.len() > 0 {
                                    assert(last_member(empty@, q[0]) is None);
                                } else {
                                    assert(q =~= Seq::<Seq<char>>::empty());
                                    assert(cn.contains_key(q));
                                }
                            });
                        }
                        c2 = insert_leaf(fresh, path, i + 1, leaf);
                    },
                }
            }
            match found {
                Some(j) => {
                    es.insert(j, (key, c2));
                    assert(es@ =~= es0@.update(j as int, (key, c2)));
                    proof {
                        lemma_level(es0, es, (key, c2), ka, sub, v);
                    }
                },
                None => {
                    es.push((key, c2));
                    proof {
                        lemma_level(es0, es, (key, c2), ka, sub, v);
                    }
                },
            }
            JsonTree::Object(es)
        },
    }
}

/// Whether the path of leaf `i` is the path of no later leaf.
pub open spec fn last_with_path(l: Seq<(Seq<Seq<char>>, LeafModel)>, i: int) -> bool {
    forall|j: int| i < j < l.len() ==> #[trigger] l[j].0 != l[i].0
}

proof fn lemma_prefix_trans(p: Seq<Seq<char>>, q: Seq<Seq<char>>, r: Seq<Seq<char>>)
    requires
        is_prefix(p, q),
        is_prefix(q, r),
    ensures
        is_prefix(p, r),
{
    assert(r.take(p.len() as int) =~= r.take(q.len() as int).take(p.len() as int));
}

/// The nodes of the leaves' tree: the root and every beginning of a leaf's
/// path; at each leaf's path a leaf, the value of the last leaf there; a
/// leaf only at a leaf's path.
#[verifier::rlimit(80)]
pub proof fn lemma_leaves_nodes(l: Seq<(Seq<Seq<char>>, LeafModel)>)
    ensures
        forall|q: Seq<Seq<char>>| #[trigger] leaves_nodes(l).contains_key(q)
            <==> (q.len() == 0 || exists|i: int| 0 <= i < l.len() && is_prefix(q, #[trigger] l[i].0)),
        forall|q: Seq<Seq<char>>| #[trigger] leaves_nodes(l).contains_key(q) && leaves_nodes(l)[q] is Leaf
            ==> exists|i: int| 0 <= i < l.len() && #[trigger] l[i].0 == q,
        forall|i: int| 0 <= i < l.len() ==> leaves_nodes(l).contains_key(#[trigger] l[i].0) && leaves_nodes(l)[l[i].0] is Leaf,
        forall|i: int| 0 <= i < l.len() && last_with_path(l, i) ==> leaves_nodes(l)[#[trigger] l[i].0] == NodeModel::Leaf(l[i].1),
    decreases l.len(),
{
    let m = leaves_nodes(l);
    if l.len() == 0 {
        assert forall|q: Seq<Seq<char>>| #[trigger] m.contains_key(q) <==> (q.len() == 0 || exists|i: int| 0 <= i < l.len() && is_prefix(q, #[trigger] l[i].0)) by {
            if q.len() == 0 {
                assert(q =~= Seq::<Seq<char>>::empty());
            }
        }
    } else {
        let d = l.drop_last();
        let p = l.last().0;
        let v = l.last().1;
        let m0 = leaves_nodes(d);
        lemma_leaves_nodes(d);
        let n = l.len() - 1;
        assert(l[n] == l.last());
        assert forall|q: Seq<Seq<char>>| #[trigger] m.contains_key(q) <==> (q.len() == 0 || exists|i: int| 0 <= i < l.len() && is_prefix(q, #[trigger] l[i].0)) by {
            if m0.contains_key(q) && q.len() > 0 {
                let i = choose|i: int| 0 <= i < d.len() && is_prefix(q, #[trigger] d[i].0);
                assert(l[i] == d[i]);
            }
            if exists|i: int| 0 <= i < l.len() && is_prefix(q, #[trigger] l[i].0) {
                let i = choose|i: int| 0 <= i < l.len() && is_prefix(q, #[trigger] l[i].0);
                if i < n {
                    assert(d[i] == l[i]);
                }
            }
        }
        assert forall|q: Seq<Seq<char>>| #[trigger] m.contains_key(q) && m[q] is Leaf implies exists|i: int| 0 <= i < l.len() && #[trigger] l[i].0 == q by {
            if q == p {
            } else {
                assert(m0.contains_key(q));
                let i = choose|i: int| 0 <= i < d.len() && #[trigger] d[i].0 == q;
                assert(l[i] == d[i]);
            }
        }
        assert forall|i: int| 0 <= i < l.len() implies m.contains_key(#[trigger] l[i].0) && m[l[i].0] is Leaf by {
            if i < n {
                assert(d[i] == l[i]);
            } else {
                assert(l[i].0.take(l[i].0.len() as int) =~= l[i].0);
            }
        }
        assert forall|i: int| 0 <= i < l.len() && last_with_path(l, i) implies m[#[trigger] l[i].0] == NodeModel::Leaf(l[i].1) by {
            if i < n {
                assert(d[i] == l[i]);
                assert(l[n].0 != l[i].0);
                assert forall|j: int| i < j < d.len() implies #[trigger] d[j].0 != d[i].0 by {
                    assert(d[j] == l[j]);
                }
                assert(last_with_path(d, i));
            }
        }
    }
}

/// The path of leaf `n` has a key, and no other leaf's path begins it or
/// goes on from it.
pub open spec fn apart_at(l: Seq<(Seq<Seq<char>>, LeafModel)>, n: int) -> bool {
    &&& l[n].0.len() >= 1
    &&& forall|i: int| 0 <= i < l.len() ==> !strict_prefix(#[trigger] l[i].0, l[n].0) && !strict_prefix(l[n].0, l[i].0)
}

/// Leaves that stand apart can be put one after the other.
#[verifier::rlimit(80)]
proof fn lemma_insert_ok(l: Seq<(Seq<Seq<char>>, LeafModel)>, n: int)
    requires
        0 <= n < l.len(),
        apart_at(l, n),
    ensures
        insert_ok(leaves_nodes(l.take(n)), l[n].0),
{
    let d = l.take(n);
    let m = leaves_nodes(d);
    let p = l[n].0;
    lemma_nodes_domain(d);
    lemma_nodes_leaves(d);
    assert(p.len() >= 1);
    assert forall|j: int| 0 <= j < p.len() && #[trigger] m.contains_key(p.take(j)) implies m[p.take(j)] is Object by {
        if m[p.take(j)] is Leaf {
            let i = choose|i: int| 0 <= i < d.len() && #[trigger] d[i].0 == p.take(j);
            assert(d[i] == l[i]);
            assert(strict_prefix(l[i].0, l[n].0));
        }
    }
    if m.contains_key(p) {
        let i = choose|i: int| 0 <= i < d.len() && is_prefix(p, #[trigger] d[i].0);
        assert(d[i] == l[i]);
        lemma_nodes_path(d, i);
        if d[i].0 != p {
            assert(d[i].0.len() > p.len()) by {
                if d[i].0.len() == p.len() {
                    assert(d[i].0 =~= d[i].0.take(p.len() as int));
                }
            }
            assert(strict_prefix(l[n].0, l[i].0));
        }
        assert(m[p] is Leaf);
    }
    assert forall|q: Seq<Seq<char>>| #[trigger] m.contains_key(q) && is_prefix(p, q) implies q == p by {
        if q.len() > 0 {
            let i = choose|i: int| 0 <= i < d.len() && is_prefix(q, #[trigger] d[i].0);
            assert(d[i] == l[i]);
            lemma_prefix_trans(p, q, d[i].0);
            if q != p {
                assert(q.len() > p.len()) by {
                    if q.len() == p.len() {
                        assert(q =~= q.take(p.len() as int));
                    }
                }
                assert(strict_prefix(l[n].0, l[i].0));
            }
        }
    }
}

/// A copy of a leaf value.
fn copy_leaf(l: &LeafValue) -> (c: LeafValue)
    ensures
        c@ == l@,
{
    match l {
        LeafValue::Bytes(b) => LeafValue::Bytes(vstd::slice::slice_to_vec(b.as_slice())),
        LeafValue::Text(t) => LeafValue::Text(t.clone()),
    }
}

/// The tree the leaves make, one after the other, in an empty object.
pub fn build_tree(leaves: &[(Vec<String>, LeafValue)]) -> (t: JsonTree)
    requires
        leaves_apart(leaf_models(leaves@)),
    ensures
        tree_nodes(t) == leaves_nodes(leaf_models(leaves@)),
{
    let ghost l = leaf_models(leaves@);
    let empty: Vec<(String, JsonTree)> = Vec::new();
    let mut t = JsonTree::Object(empty);
    proof {
        assert_maps_equal!(tree_nodes(t), leaves_nodes(l.take(0)), q => {
            if q.len() > 0 {
                assert(last_member(empty@, q[0]) is None);
            } else {
                assert(q =~= Seq::<Seq<char>>::empty());
            }
        });
    }
    let mut i: usize = 0;
    while i < leaves.len()
        invariant
            i <= leaves@.len(),
            l == leaf_models(leaves@),
            leaves_apart(l),
            t is Object,
            tree_nodes(t) == leaves_nodes(l.take(i as int)),
        decreases leaves@.len() - i,
    {
        proof {
            assert(apart_at(l, i as int));
            lemma_insert_ok(l, i as int);
            assert(path_views(leaves@[i as int].0@).skip(0) =~= l[i as int].0);
            assert(l.take(i + 1).drop_last() =~= l.take(i as int));
            assert(l.take(i + 1).last() == l[i as int]);
        }
        let leaf = copy_leaf(&leaves[i].1);
        t = insert_leaf(t, &leaves[i].0, 0, leaf);
        i = i + 1;
    }
    assert(l.take(l.len() as int) =~= l);
    t
}

proof fn lemma_nodes_domain(l: Seq<(Seq<Seq<char>>, LeafModel)>)
    ensures
        forall|q: Seq<Seq<char>>| #[trigger] leaves_nodes(l).contains_key(q)
            <==> (q.len() == 0 || exists|i: int| 0 <= i < l.len() && is_prefix(q, #[trigger] l[i].0)),
{
    lemma_leaves_nodes(l);
}

proof fn lemma_nodes_leaves(l: Seq<(Seq<Seq<char>>, LeafModel)>)
    ensures
        forall|q: Seq<Seq<char>>| #[trigger] leaves_nodes(l).contains_key(q) && leaves_nodes(l)[q] is Leaf
            ==> exists|i: int| 0 <= i < l.len() && #[trigger] l[i].0 == q,
{
    lemma_leaves_nodes(l);
}

proof fn lemma_nodes_path(l: Seq<(Seq<Seq<char>>, LeafModel)>, i: int)
    requires
        0 <= i < l.len(),
    ensures
        leaves_nodes(l).contains_key(l[i].0),
        leaves_nodes(l)[l[i].0] is Leaf,
{
    lemma_leaves_nodes(l);
}

proof fn lemma_nodes_last(l: Seq<(Seq<Seq<char>>, LeafModel)>, i: int)
    requires
        0 <= i < l.len(),
        last_with_path(l, i),
    ensures
        leaves_nodes(l).contains_key(l[i].0),
        leaves_nodes(l)[l[i].0] == NodeModel::Leaf(l[i].1),
{
    lemma_leaves_nodes(l);
}

/// The nodes under path `p`, by their path from there.
pub open spec fn subtree(m: Map<Seq<Seq<char>>, NodeModel>, p: Seq<Seq<char>>) -> Map<Seq<Seq<char>>, NodeModel> {
    Map::new(|q: Seq<Seq<char>>| m.contains_key(p + q), |q: Seq<Seq<char>>| m[p + q])
}

/// A tree that is a single leaf.
pub open spec fn leaf_nodes(v: LeafModel) -> Map<Seq<Seq<char>>, NodeModel> {
    map![Seq::<Seq<char>>::empty() => NodeModel::Leaf(v)]
}

/// The nodes on the way to `p` are objects.
pub open spec fn objects_on_way(m: Map<Seq<Seq<char>>, NodeModel>, p: Seq<Seq<char>>) -> bool {
    forall|j: int| 0 <= j < p.len() ==> #[trigger] m.contains_key(p.take(j)) && m[p.take(j)] is Object
}

/// The last leaf at a path that stands apart is found at that path, alone,
/// behind objects.
#[verifier::rlimit(80)]
pub proof fn lemma_leaf_found(l: Seq<(Seq<Seq<char>>, LeafModel)>, i: int)
    requires
        0 <= i < l.len(),
        apart_at(l, i),
        last_with_path(l, i),
    ensures
        leaves_nodes(l).contains_key(l[i].0),
        objects_on_way(leaves_nodes(l), l[i].0),
        subtree(leaves_nodes(l), l[i].0) == leaf_nodes(l[i].1),
{
    let m = leaves_nodes(l);
    let p = l[i].0;
    lemma_nodes_domain(l);
    lemma_nodes_leaves(l);
    lemma_nodes_last(l, i);
    assert forall|j: int| 0 <= j < p.len() implies #[trigger] m.contains_key(p.take(j)) && m[p.take(j)] is Object by {
        assert(is_prefix(p.take(j), l[i].0));
        if m[p.take(j)] is Leaf {
            let k = choose|k: int| 0 <= k < l.len() && #[trigger] l[k].0 == p.take(j);
            assert(strict_prefix(l[k].0, l[i].0));
        }
    }
    assert_maps_equal!(subtree(m, p), leaf_nodes(l[i].1), q => {
        if q.len() == 0 {
            assert(p + q =~= p);
            assert(q =~= Seq::<Seq<char>>::empty());
        } else if m.contains_key(p + q) {
            let k = choose|k: int| 0 <= k < l.len() && is_prefix(p + q, #[trigger] l[k].0);
            assert(l[k].0.take(p.len() as int) =~= (p + q).take(p.len() as int));
            assert((p + q).take(p.len() as int) =~= p);
            assert(strict_prefix(l[i].0, l[k].0));
        }
    });
}

/// When no leaf's path starts with the empty key, the root has no member
/// named so.
#[verifier::rlimit(40)]
pub proof fn lemma_no_empty_member(l: Seq<(Seq<Seq<char>>, LeafModel)>)
    requires
        first_keys_named(l),
    ensures
        leaves_nodes(l).contains_key(Seq::<Seq<char>>::empty()),
        leaves_nodes(l)[Seq::<Seq<char>>::empty()] is Object,
        !leaves_nodes(l).contains_key(seq![Seq::<char>::empty()]),
{
    let m = leaves_nodes(l);
    lemma_nodes_domain(l);
    lemma_nodes_leaves(l);
    let e = Seq::<Seq<char>>::empty();
    assert(m.contains_key(e));
    if m[e] is Leaf {
        let k = choose|k: int| 0 <= k < l.len() && #[trigger] l[k].0 == e;
        assert(l[k].0.len() > 0);
        assert(false);
    }
    let p = seq![Seq::<char>::empty()];
    if m.contains_key(p) {
        let k = choose|k: int| 0 <= k < l.len() && is_prefix(p, #[trigger] l[k].0);
        assert(l[k].0.take(1)[0] == l[k].0[0]);
        assert(l[k].0[0].len() > 0);
    }
}

} // verus!
