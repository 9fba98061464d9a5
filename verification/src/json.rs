//! The text of a JSON reply: serde_json writes the object tree that the
//! leaves make, and the value that a pointer leads to in it; which of them
//! answers the request is decided here.
use vstd::prelude::*;

use crate::store::{
    has_dotted_child, leaves_of, sorted_keys, split_dots, with_prefix, Entries, JsonLeaf, JsonRequest, JsonRequestModel, Store,
    StoreValue,
};
use crate::keys::{first_diff, has_prefix, key_lt, lemma_first_diff_is};
use crate::text::string_of;
use crate::tree::{
    apart_at, build_tree, last_with_path, leaf_nodes, leaves_nodes, lemma_leaf_found, lemma_no_empty_member,
    objects_on_way, subtree, tree_nodes, JsonTree, NodeModel,
};

verus! {

/// A leaf's value as JSON takes it: bytes become an array of numbers, text a
/// string.
pub enum LeafValue {
    Bytes(Vec<u8>),
    Text(String),
}

pub enum LeafModel {
    Bytes(Seq<u8>),
    Text(Seq<char>),
}

impl View for LeafValue {
    type V = LeafModel;

    open spec fn view(&self) -> LeafModel {
        match self {
            LeafValue::Bytes(b) => LeafModel::Bytes(b@),
            LeafValue::Text(s) => LeafModel::Text(s@),
        }
    }
}

/// A stored value that can stand in a JSON tree.
pub trait JsonValue: StoreValue {
    spec fn leaf_model(v: Self::V) -> LeafModel;

    fn to_leaf(&self) -> (l: LeafValue)
        ensures
            l@ == Self::leaf_model(self@),
    ;
}

impl JsonValue for Vec<u8> {
    open spec fn leaf_model(v: Seq<u8>) -> LeafModel {
        LeafModel::Bytes(v)
    }

    fn to_leaf(&self) -> (l: LeafValue) {
        LeafValue::Bytes(vstd::slice::slice_to_vec(self.as_slice()))
    }
}

impl JsonValue for String {
    open spec fn leaf_model(v: Seq<char>) -> LeafModel {
        LeafModel::Text(v)
    }

    fn to_leaf(&self) -> (l: LeafValue) {
        LeafValue::Text(self.clone())
    }
}

pub open spec fn path_views(v: Seq<String>) -> Seq<Seq<char>> {
    v.map_values(|s: String| s@)
}

pub open spec fn leaf_models(v: Seq<(Vec<String>, LeafValue)>) -> Seq<(Seq<Seq<char>>, LeafModel)> {
    v.map_values(|x: (Vec<String>, LeafValue)| (path_views(x.0@), x.1@))
}

/// `p` is a proper beginning of `q`.
pub open spec fn strict_prefix<T>(p: Seq<T>, q: Seq<T>) -> bool {
    p.len() < q.len() && q.take(p.len() as int) == p
}

/// Every path has a key, and no leaf stands where another's path goes on
/// (there the tree needs an object).
pub open spec fn leaves_apart(l: Seq<(Seq<Seq<char>>, LeafModel)>) -> bool {
    &&& forall|i: int| 0 <= i < l.len() ==> (#[trigger] l[i]).0.len() >= 1
    &&& forall|i: int, j: int| 0 <= i < l.len() && 0 <= j < l.len() ==> !strict_prefix(#[trigger] l[i].0, #[trigger] l[j].0)
}

/// Every leaf's path starts with a key that is not empty.
pub open spec fn first_keys_named(l: Seq<(Seq<Seq<char>>, LeafModel)>) -> bool {
    forall|i: int| 0 <= i < l.len() ==> (#[trigger] l[i]).0.len() > 0 && l[i].0[0].len() > 0
}

#[verifier::external_type_specification]
#[verifier::external_body]
pub struct ExJsonValue(serde_json::Value);

/// What a serde_json value holds: the node at each path of object keys, an
/// object or a leaf (a string, or the array of numbers that bytes make).
pub uninterp spec fn value_nodes(v: serde_json::Value) -> Map<Seq<Seq<char>>, NodeModel>;

/// What serde_json writes (`Display`) for the tree with these nodes.
pub uninterp spec fn json_text(nodes: Map<Seq<Seq<char>>, NodeModel>) -> Seq<char>;

/// What serde_json finds (`Value::pointer`) at a JSON pointer in the tree
/// with these nodes, as text; none when the pointer leads nowhere.
pub uninterp spec fn json_text_at(nodes: Map<Seq<Seq<char>>, NodeModel>, pointer: Seq<char>) -> Option<Seq<char>>;

/// The JSON pointer of a path: `/` before each key.
pub open spec fn pointer_of(path: Seq<Seq<char>>) -> Seq<char>
    decreases path.len(),
{
    if path.len() == 0 {
        Seq::empty()
    } else {
        pointer_of(path.drop_last()) + seq!['/'] + path.last()
    }
}

/// No key of the path holds `/` or `~`, which a pointer would escape.
pub open spec fn plain_keys(path: Seq<Seq<char>>) -> bool {
    forall|i: int, c: int| 0 <= i < path.len() && 0 <= c < path[i].len() ==> #[trigger] path[i][c] != '/' && path[i][c] != '~'
}

/// The walk along `path` meets an object without the next key.
pub open spec fn walk_misses(m: Map<Seq<Seq<char>>, NodeModel>, path: Seq<Seq<char>>) -> bool {
    exists|j: int|
        0 <= j < path.len() && objects_on_way(m, path.take(j + 1)) && !m.contains_key(#[trigger] path.take(j + 1))
}

/// serde_json: the tree as a `Value`, each object a map of its members (a
/// later member with the same key replaces an earlier one), each text leaf
/// a string and each byte leaf an array of numbers.
#[verifier::external_body]
fn tree_value(t: &JsonTree) -> (v: serde_json::Value)
    ensures
        value_nodes(v) == tree_nodes(*t),
{
    match t {
        JsonTree::Leaf(LeafValue::Bytes(b)) => serde_json::Value::from(b.clone()),
        JsonTree::Leaf(LeafValue::Text(s)) => serde_json::Value::from(s.clone()),
        JsonTree::Object(members) => {
            let mut map = serde_json::Map::new();
            for (k, c) in members {
                map.insert(k.clone(), tree_value(c));
            }
            serde_json::Value::Object(map)
        },
    }
}

/// serde_json: the text of a value (`Display`). serde_json writes and drops
/// a tree one nesting level at a time on the stack, so a path deeper than
/// the thread's stack allows is left unsaid here.
#[verifier::external_body]
fn value_text(v: &serde_json::Value) -> (t: String)
    ensures
        t@ == json_text(value_nodes(*v)),
{
    v.to_string()
}

/// serde_json: the text of what a JSON pointer finds in a value. A pointer
/// made of plain keys walks the objects from the top: it finds the subtree
/// at its path when the objects on the way lead there, and nothing when an
/// object on the way lacks the next key. As for `value_text`, a path deeper
/// than the thread's stack allows is left unsaid.
#[verifier::external_body]
fn value_pointer(v: &serde_json::Value, pointer: &str) -> (t: Option<String>)
    ensures
        match t {
            Some(s) => json_text_at(value_nodes(*v), pointer@) == Some(s@),
            None => json_text_at(value_nodes(*v), pointer@) is None,
        },
        forall|path: Seq<Seq<char>>|
            #[trigger] pointer_of(path) == pointer@ && plain_keys(path) && value_nodes(*v).contains_key(path)
                && objects_on_way(value_nodes(*v), path) ==> match t {
                Some(s) => s@ == json_text(subtree(value_nodes(*v), path)),
                None => false,
            },
        forall|path: Seq<Seq<char>>|
            #[trigger] pointer_of(path) == pointer@ && plain_keys(path) && walk_misses(value_nodes(*v), path) ==> t is None,
{
    match v.pointer(pointer) {
        Some(x) => Some(x.to_string()),
        None => None,
    }
}

/// The answer to a JSON request, given the text at its pointer (if the
/// pointer leads somewhere) and the whole tree's text: with `trim` the value
/// at the pointer, else the whole tree; when the pointer leads nowhere, the
/// whole tree for an empty key, else an empty object.
pub open spec fn reply_spec(at: Option<Seq<char>>, whole: Seq<char>, trim: bool, whole_on_miss: bool) -> Seq<char> {
    match at {
        Some(t) => if trim {
            t
        } else {
            whole
        },
        None => if whole_on_miss {
            whole
        } else {
            seq!['{', '}']
        },
    }
}

pub fn choose_reply(at: Option<String>, whole: String, trim: bool, whole_on_miss: bool) -> (r: String)
    ensures
        r@ == reply_spec(
            match at {
                Some(t) => Some(t@),
                None => None,
            },
            whole@,
            trim,
            whole_on_miss,
        ),
{
    match at {
        Some(t) => if trim {
            t
        } else {
            whole
        },
        None => if whole_on_miss {
            whole
        } else {
            let e = vec!['{', '}'];
            assert(e@ =~= seq!['{', '}']);
            string_of(e.as_slice())
        },
    }
}

/// The leaves of a request, their values as JSON takes them.
pub open spec fn request_leaves<V: JsonValue>(l: Seq<(Seq<Seq<char>>, V::V)>) -> Seq<(Seq<Seq<char>>, LeafModel)> {
    l.map_values(|x: (Seq<Seq<char>>, V::V)| (x.0, V::leaf_model(x.1)))
}

/// The text that answers a JSON request.
pub open spec fn request_text<V: JsonValue>(r: JsonRequestModel<V::V>) -> Seq<char> {
    let n = leaves_nodes(request_leaves::<V>(r.leaves));
    reply_spec(json_text_at(n, r.pointer), json_text(n), r.trim, r.whole_on_miss)
}

/// The text that answers a `j` (`trim`) or `js` query of key `k` on the
/// entries `e`.
pub open spec fn json_answer<V: JsonValue>(e: Entries<V::V>, k: Seq<char>, trim: bool) -> Seq<char> {
    request_text::<V>(crate::store::json_request(e, k, trim, 0, 0))
}

impl<V: JsonValue> Store<V> {
    /// The text that answers a `j` (`trim`) or `js` query of a key.
    /// With an empty key the answer is the whole tree, as long as no key
    /// starts with a dot (or is empty): the pointer `/` then finds nothing.
    pub fn json_text(&self, key: String, trim: bool) -> (t: String)
        requires
            self.wf(),
        ensures
            t@ == json_answer::<V>(self@, key@, trim),
            key@.len() == 0 && (forall|i: int| 0 <= i < self@.len() ==> (#[trigger] split_dots(self@[i].0))[0].len() > 0)
                ==> t@ == json_text(leaves_nodes(request_leaves::<V>(crate::store::json_leaves_spec(self@)))),
            forall|x: int|
                0 <= x < self@.len() && #[trigger] self@[x].0 == key@ && trim && !has_dotted_child(self@, key@) && (
                forall|c: int| 0 <= c < key@.len() ==> #[trigger] key@[c] != '/' && key@[c] != '~')
                    ==> t@ == json_text(leaf_nodes(V::leaf_model(self@[x].1))),
    {
        let ghost k = key@;
        let req = self.json_reply(key, trim, 0, 0);
        proof {
            lemma_json_leaves_apart::<V>(crate::store::with_prefix(self@, k));
            if k.len() == 0 && (forall|i: int| 0 <= i < self@.len() ==> (#[trigger] split_dots(self@[i].0))[0].len() > 0) {
                lemma_with_nothing(self@);
                assert(crate::store::pointer_spec(k) =~= seq!['/']);
                let e = self@;
                let lv = leaves_of(e, e);
                lemma_leaves_of_members(e, e);
                let l = request_leaves::<V>(crate::store::json_leaves_spec(e));
                assert(k =~= Seq::<char>::empty());
                assert(req@.leaves == crate::store::json_leaves_spec(e));
                assert forall|i: int| 0 <= i < l.len() implies (#[trigger] l[i]).0.len() > 0 && l[i].0[0].len() > 0 by {
                    lemma_split_dots_len(lv[i].0);
                    assert(l[i].0 == split_dots(lv[i].0));
                    assert(e.contains(lv[i]));
                    let j = choose|j: int| 0 <= j < e.len() && e[j] == lv[i];
                    assert(split_dots(e[j].0)[0].len() > 0);
                }
                assert(first_keys_named(l));
            }
        }
        let t = reply_text(&req);
        proof {
            assert forall|x: int|
                0 <= x < self@.len() && #[trigger] self@[x].0 == k && trim && !has_dotted_child(self@, k) && (
                forall|c: int| 0 <= c < k.len() ==> #[trigger] k[c] != '/' && k[c] != '~')
                    implies t@ == json_text(leaf_nodes(V::leaf_model(self@[x].1))) by {
                self.lemma_leaf_query(k, x, req@);
            }
        }
        t
    }

    /// The request for a key that holds a leaf finds that leaf, last of its
    /// path, behind the key's own pointer.
    proof fn lemma_leaf_query(&self, k: Seq<char>, x: int, r: JsonRequestModel<V::V>)
        requires
            self.wf(),
            0 <= x < self@.len(),
            self@[x].0 == k,
            !has_dotted_child(self@, k),
            forall|c: int| 0 <= c < k.len() ==> #[trigger] k[c] != '/' && k[c] != '~',
            r.leaves == crate::store::json_leaves_spec(with_prefix(self@, k)),
            r.pointer == crate::store::pointer_spec(k),
        ensures
            exists|i: int|
                0 <= i < r.leaves.len() && last_with_path(request_leaves::<V>(r.leaves), i) && plain_keys(
                    #[trigger] r.leaves[i].0,
                ) && r.pointer == pointer_of(r.leaves[i].0) && r.leaves[i].1 == self@[x].1,
    {
        let e = self@;
        let w = with_prefix(e, k);
        lemma_with_prefix_sorted(e, k);
        lemma_with_prefix_members(e, k);
        assert(k.take(k.len() as int) =~= k);
        assert(w.contains(e[x]));
        let y = choose|y: int| 0 <= y < w.len() && w[y] == e[x];
        assert(!has_dotted_child(w, k)) by {
            if has_dotted_child(w, k) {
                let j = choose|j: int| 0 <= j < w.len() && has_prefix(#[trigger] w[j].0, k.push('.'));
                assert(e.contains(w[j]));
                let z = choose|z: int| 0 <= z < e.len() && e[z] == w[j];
                assert(has_prefix(e[z].0, k.push('.')));
            }
        }
        lemma_leaves_of_sorted(w, w);
        let lv = leaves_of(w, w);
        assert(lv.contains(w[y]));
        let i = choose|i: int| 0 <= i < lv.len() && lv[i] == w[y];
        let l = request_leaves::<V>(r.leaves);
        assert(r.leaves[i] == (split_dots(k), e[x].1));
        law_key_pointer(k);
        lemma_join_split(k);
        assert forall|j: int| i < j < l.len() implies #[trigger] l[j].0 != l[i].0 by {
            assert(key_lt(lv[i].0, lv[j].0));
            lemma_key_lt_irreflexive(k);
            lemma_join_split(lv[j].0);
            assert(l[j].0 == split_dots(lv[j].0));
        }
        assert(last_with_path(l, i));
        assert(0 <= i < r.leaves.len());
        assert(plain_keys(split_dots(k)));
        assert(plain_keys(r.leaves[i].0));
        assert(r.pointer == pointer_of(r.leaves[i].0));
        assert(r.leaves[i].1 == self@[x].1);
    }
}

/// The text that answers a JSON request: serde_json renders the tree and
/// looks up the pointer.
pub fn reply_text<V: JsonValue>(req: &JsonRequest<V>) -> (t: String)
    requires
        leaves_apart(request_leaves::<V>(req@.leaves)),
    ensures
        t@ == request_text::<V>(req@),
        req@.pointer == seq!['/'] && req@.whole_on_miss && first_keys_named(request_leaves::<V>(req@.leaves))
            ==> t@ == json_text(leaves_nodes(request_leaves::<V>(req@.leaves))),
        forall|i: int|
            0 <= i < req@.leaves.len() && last_with_path(request_leaves::<V>(req@.leaves), i) && plain_keys(
                #[trigger] req@.leaves[i].0,
            ) && req@.pointer == pointer_of(req@.leaves[i].0) && req@.trim
                ==> t@ == json_text(leaf_nodes(V::leaf_model(req@.leaves[i].1))),
{
    let ghost target = request_leaves::<V>(req@.leaves);
    let mut leaves: Vec<(Vec<String>, LeafValue)> = Vec::new();
    let mut i: usize = 0;
    while i < req.leaves.len()
        invariant
            i <= req.leaves@.len(),
            target == request_leaves::<V>(req@.leaves),
            leaf_models(leaves@) == target.take(i as int),
        decreases req.leaves@.len() - i,
    {
        let leaf: &JsonLeaf<V> = &req.leaves[i];
        let mut path: Vec<String> = Vec::new();
        let mut j: usize = 0;
        while j < leaf.path.len()
            invariant
                j <= leaf.path@.len(),
                path_views(path@) == path_views(leaf.path@).take(j as int),
            decreases leaf.path@.len() - j,
        {
            let ghost before = path_views(path@);
            let piece = leaf.path[j].clone();
            assert(piece@ == leaf.path@[j as int]@);
            path.push(piece);
            assert(path_views(path@) =~= before.push(leaf.path@[j as int]@));
            assert(path_views(leaf.path@).take(j + 1) =~= path_views(leaf.path@).take(j as int).push(leaf.path@[j as int]@));
            j = j + 1;
        }
        assert(path_views(leaf.path@).take(leaf.path@.len() as int) =~= path_views(leaf.path@));
        let value = leaf.value.to_leaf();
        let ghost before = leaf_models(leaves@);
        let ghost pv = path_views(path@);
        proof {
            assert(pv =~= crate::store::string_views(leaf.path@));
            assert(req@.leaves[i as int] == (crate::store::string_views(leaf.path@), leaf.value@));
            assert(target[i as int] == (pv, value@));
        }
        leaves.push((path, value));
        assert(leaf_models(leaves@) =~= before.push((pv, value@)));
        assert(target.take(i + 1) =~= target.take(i as int).push(target[i as int]));
        i = i + 1;
    }
    assert(target.take(target.len() as int) =~= target);
    let tree = build_tree(leaves.as_slice());
    let value = tree_value(&tree);
    let at = value_pointer(&value, req.pointer.as_str());
    let whole = value_text(&value);
    proof {
        let n = leaves_nodes(target);
        assert(value_nodes(value) == n);
        if req@.pointer == seq!['/'] && first_keys_named(target) {
            lemma_no_empty_member(target);
            let path = seq![Seq::<char>::empty()];
            assert(pointer_of(path.drop_last()) =~= Seq::<char>::empty());
            assert(pointer_of(path) =~= seq!['/']);
            assert(path.take(1) =~= path);
            assert(objects_on_way(n, path.take(1))) by {
                assert forall|j: int| 0 <= j < path.take(1).len() implies #[trigger] n.contains_key(path.take(1).take(j)) && n[path.take(1).take(j)] is Object by {
                    assert(path.take(1).take(j) =~= Seq::<Seq<char>>::empty());
                }
            }
            assert(walk_misses(n, path));
        }
        assert forall|i: int|
            0 <= i < req@.leaves.len() && last_with_path(target, i) && plain_keys(#[trigger] req@.leaves[i].0)
                && req@.pointer == pointer_of(req@.leaves[i].0) && req@.trim implies at is Some && at->0@ == json_text(
                leaf_nodes(V::leaf_model(req@.leaves[i].1)),
            ) by {
            assert(target[i] == (req@.leaves[i].0, V::leaf_model(req@.leaves[i].1)));
            assert(apart_at(target, i));
            lemma_leaf_found(target, i);
            assert(pointer_of(target[i].0) == req@.pointer);
        }
    }
    choose_reply(at, whole, req.trim, req.whole_on_miss)
}

/// The pointer of a key is the pointer of its path of dotted pieces (`/`
/// and the key, its dots made slashes), and a key without `/` or `~` has
/// plain pieces, which the pointer walks one by one.
pub proof fn law_key_pointer(k: Seq<char>)
    ensures
        crate::store::pointer_spec(k) == pointer_of(split_dots(k)),
        (forall|c: int| 0 <= c < k.len() ==> #[trigger] k[c] != '/' && k[c] != '~') ==> plain_keys(split_dots(k)),
    decreases k.len(),
{
    let f = |c: char| if c == '.' { '/' } else { c };
    if k.len() == 0 {
        let s = split_dots(k);
        assert(s == seq![Seq::<char>::empty()]);
        assert(s.drop_last() =~= Seq::<Seq<char>>::empty());
        assert(pointer_of(Seq::<Seq<char>>::empty()) == Seq::<char>::empty());
        assert(s.last() == Seq::<char>::empty());
        assert(pointer_of(s) =~= seq!['/']);
        assert(k.map_values(f) =~= Seq::<char>::empty());
        assert(crate::store::pointer_spec(k) =~= seq!['/']);
    } else {
        let k0 = k.drop_last();
        let c = k.last();
        law_key_pointer(k0);
        lemma_split_dots_len(k0);
        let prev = split_dots(k0);
        let s = split_dots(k);
        assert(k.map_values(f) =~= k0.map_values(f).push(f(c)));
        assert(crate::store::pointer_spec(k) =~= crate::store::pointer_spec(k0).push(f(c)));
        if c == '.' {
            assert(s == prev.push(Seq::<char>::empty()));
            assert(s.drop_last() =~= prev);
            assert(pointer_of(s) =~= pointer_of(prev) + seq!['/'] + Seq::<char>::empty());
            assert(pointer_of(s) =~= pointer_of(prev).push('/'));
        } else {
            assert(s == prev.update(prev.len() - 1, prev.last().push(c)));
            assert(s.drop_last() =~= prev.drop_last());
            assert(pointer_of(prev) == pointer_of(prev.drop_last()) + seq!['/'] + prev.last());
            assert(pointer_of(s) =~= pointer_of(prev).push(c));
        }
        if forall|x: int| 0 <= x < k.len() ==> #[trigger] k[x] != '/' && k[x] != '~' {
            assert forall|x: int| 0 <= x < k0.len() implies #[trigger] k0[x] != '/' && k0[x] != '~' by {
                assert(k0[x] == k[x]);
            }
            assert(k[k.len() - 1] == c);
            assert forall|i: int, x: int| 0 <= i < s.len() && 0 <= x < s[i].len() implies #[trigger] s[i][x] != '/' && s[i][x] != '~' by {
                if c == '.' {
                    if i < prev.len() {
                        assert(s[i] == prev[i]);
                    }
                } else {
                    if i < prev.len() - 1 {
                        assert(s[i] == prev[i]);
                    } else {
                        assert(s[i] == prev.last().push(c));
                        if x < prev.last().len() {
                            assert(s[i][x] == prev[prev.len() - 1][x]);
                        }
                    }
                }
            }
        }
    }
}

/// No key comes before itself.
proof fn lemma_key_lt_irreflexive(a: Seq<char>)
    ensures
        !key_lt(a, a),
{
    lemma_first_diff_is(a, a, a.len() as int);
}

/// A sorted list stays sorted when an entry after all of its keys joins it.
proof fn lemma_sorted_push<W>(s: Entries<W>, x: (Seq<char>, W))
    requires
        sorted_keys(s),
        forall|i: int| 0 <= i < s.len() ==> key_lt(#[trigger] s[i].0, x.0),
    ensures
        sorted_keys(s.push(x)),
{
    assert forall|i: int, j: int| 0 <= i < j < s.push(x).len() implies key_lt(#[trigger] s.push(x)[i].0, #[trigger] s.push(x)[j].0) by {
        if j < s.len() {
            assert(s.push(x)[i] == s[i] && s.push(x)[j] == s[j]);
        } else {
            assert(s.push(x)[i] == s[i]);
        }
    }
}

proof fn lemma_with_prefix_members<W>(e: Entries<W>, p: Seq<char>)
    ensures
        forall|i: int| 0 <= i < with_prefix(e, p).len() ==> e.contains(#[trigger] with_prefix(e, p)[i]),
        forall|i: int| 0 <= i < e.len() && has_prefix(e[i].0, p) ==> with_prefix(e, p).contains(#[trigger] e[i]),
    decreases e.len(),
{
    if e.len() > 0 {
        let d = e.drop_last();
        lemma_with_prefix_members(d, p);
        let w0 = with_prefix(d, p);
        assert forall|i: int| 0 <= i < with_prefix(e, p).len() implies e.contains(#[trigger] with_prefix(e, p)[i]) by {
            if i < w0.len() {
                let x = w0[i];
                assert(with_prefix(e, p)[i] == x);
                let j = choose|j: int| 0 <= j < d.len() && d[j] == x;
                assert(e[j] == x);
            } else {
                assert(e[e.len() - 1] == e.last());
            }
        }
        assert forall|i: int| 0 <= i < e.len() && has_prefix(e[i].0, p) implies with_prefix(e, p).contains(#[trigger] e[i]) by {
            if i < d.len() {
                assert(d[i] == e[i]);
                let j = choose|j: int| 0 <= j < w0.len() && w0[j] == d[i];
                assert(with_prefix(e, p)[j] == e[i]);
            } else {
                assert(e[i] == e.last());
                assert(with_prefix(e, p)[w0.len() as int] == e.last());
            }
        }
    }
}

proof fn lemma_with_prefix_sorted<W>(e: Entries<W>, p: Seq<char>)
    requires
        sorted_keys(e),
    ensures
        sorted_keys(with_prefix(e, p)),
    decreases e.len(),
{
    if e.len() > 0 {
        let d = e.drop_last();
        assert(sorted_keys(d)) by {
            assert forall|i: int, j: int| 0 <= i < j < d.len() implies key_lt(#[trigger] d[i].0, #[trigger] d[j].0) by {
                assert(d[i] == e[i] && d[j] == e[j]);
            }
        }
        lemma_with_prefix_sorted(d, p);
        lemma_with_prefix_members(d, p);
        if has_prefix(e.last().0, p) {
            let w0 = with_prefix(d, p);
            assert forall|i: int| 0 <= i < w0.len() implies key_lt(#[trigger] w0[i].0, e.last().0) by {
                assert(d.contains(w0[i]));
                let j = choose|j: int| 0 <= j < d.len() && d[j] == w0[i];
                assert(e[j] == w0[i]);
                assert(e[e.len() - 1] == e.last());
            }
            lemma_sorted_push(w0, e.last());
        }
    }
}

proof fn lemma_leaves_of_sorted<W>(all: Entries<W>, e: Entries<W>)
    requires
        sorted_keys(e),
    ensures
        sorted_keys(leaves_of(all, e)),
        forall|i: int| 0 <= i < e.len() && !has_dotted_child(all, e[i].0) ==> leaves_of(all, e).contains(#[trigger] e[i]),
    decreases e.len(),
{
    if e.len() > 0 {
        let d = e.drop_last();
        assert(sorted_keys(d)) by {
            assert forall|i: int, j: int| 0 <= i < j < d.len() implies key_lt(#[trigger] d[i].0, #[trigger] d[j].0) by {
                assert(d[i] == e[i] && d[j] == e[j]);
            }
        }
        lemma_leaves_of_sorted(all, d);
        lemma_leaves_of_members(all, d);
        let l0 = leaves_of(all, d);
        if !has_dotted_child(all, e.last().0) {
            assert forall|i: int| 0 <= i < l0.len() implies key_lt(#[trigger] l0[i].0, e.last().0) by {
                assert(d.contains(l0[i]));
                let j = choose|j: int| 0 <= j < d.len() && d[j] == l0[i];
                assert(e[j] == l0[i]);
                assert(e[e.len() - 1] == e.last());
            }
            lemma_sorted_push(l0, e.last());
        }
        assert forall|i: int| 0 <= i < e.len() && !has_dotted_child(all, e[i].0) implies leaves_of(all, e).contains(#[trigger] e[i]) by {
            if i < d.len() {
                assert(d[i] == e[i]);
                let j = choose|j: int| 0 <= j < l0.len() && l0[j] == d[i];
                if !has_dotted_child(all, e.last().0) {
                    assert(leaves_of(all, e)[j] == e[i]);
                } else {
                    assert(leaves_of(all, e)[j] == e[i]);
                }
            } else {
                assert(e[i] == e.last());
                assert(leaves_of(all, e)[l0.len() as int] == e.last());
            }
        }
    }
}

/// Every key starts with nothing.
proof fn lemma_with_nothing<W>(e: Entries<W>)
    ensures
        crate::store::with_prefix(e, Seq::<char>::empty()) == e,
    decreases e.len(),
{
    if e.len() > 0 {
        lemma_with_nothing(e.drop_last());
        assert(e.last().0.take(0) =~= Seq::<char>::empty());
        assert(has_prefix(e.last().0, Seq::<char>::empty()));
        assert(e.drop_last().push(e.last()) =~= e);
    }
}

/// Joins pieces with dots (`[..].join(".")`).
pub open spec fn join_dots(s: Seq<Seq<char>>) -> Seq<char>
    decreases s.len(),
{
    if s.len() == 0 {
        Seq::empty()
    } else if s.len() == 1 {
        s[0]
    } else {
        join_dots(s.drop_last()) + seq!['.'] + s.last()
    }
}

proof fn lemma_split_dots_len(k: Seq<char>)
    ensures
        split_dots(k).len() >= 1,
    decreases k.len(),
{
    if k.len() > 0 {
        lemma_split_dots_len(k.drop_last());
    }
}

/// Joining the pieces of a key gives the key back.
proof fn lemma_join_split(k: Seq<char>)
    ensures
        join_dots(split_dots(k)) == k,
    decreases k.len(),
{
    if k.len() > 0 {
        let k0 = k.drop_last();
        let c = k.last();
        lemma_join_split(k0);
        lemma_split_dots_len(k0);
        let prev = split_dots(k0);
        if c == '.' {
            let s = prev.push(Seq::<char>::empty());
            assert(s.drop_last() =~= prev);
            assert(join_dots(s) == join_dots(prev) + seq!['.'] + Seq::<char>::empty());
            assert(k =~= k0 + seq!['.'] + Seq::<char>::empty());
        } else {
            let s = prev.update(prev.len() - 1, prev.last().push(c));
            if prev.len() == 1 {
                assert(join_dots(prev) == prev[0]);
                assert(join_dots(s) == s[0]);
                assert(k =~= prev[0].push(c));
            } else {
                assert(s.drop_last() =~= prev.drop_last());
                assert(join_dots(s) == join_dots(prev.drop_last()) + seq!['.'] + prev.last().push(c));
                assert(join_dots(prev) == join_dots(prev.drop_last()) + seq!['.'] + prev.last());
                assert(k =~= (join_dots(prev.drop_last()) + seq!['.'] + prev.last()).push(c));
                assert(join_dots(prev.drop_last()) + seq!['.'] + prev.last().push(c)
                    =~= (join_dots(prev.drop_last()) + seq!['.'] + prev.last()).push(c));
            }
        }
    }
}

/// When the pieces of `a` begin the pieces of `b` and `b` has more, `b` is
/// `a`, a dot, and more.
proof fn lemma_pieces_prefix(a: Seq<char>, b: Seq<char>)
    requires
        strict_prefix(split_dots(a), split_dots(b)),
    ensures
        has_prefix(b, a.push('.')),
    decreases b.len(),
{
    lemma_split_dots_len(a);
    if b.len() == 0 {
        assert(split_dots(b).len() == 1);
    } else {
        let b0 = b.drop_last();
        let c = b.last();
        let pa = split_dots(a);
        let prev = split_dots(b0);
        lemma_split_dots_len(b0);
        let n = pa.len() as int;
        if c == '.' {
            assert(split_dots(b) == prev.push(Seq::<char>::empty()));
            if n < prev.len() {
                assert(prev.take(n) =~= split_dots(b).take(n));
                lemma_pieces_prefix(a, b0);
                assert(b0.take(a.len() + 1int) =~= b.take(a.len() + 1int));
            } else {
                assert(prev =~= split_dots(b).take(n));
                lemma_join_split(a);
                lemma_join_split(b0);
                assert(a == b0);
                assert(b =~= a.push('.'));
                assert(b.take(a.len() + 1int) =~= a.push('.'));
            }
        } else {
            assert(split_dots(b) == prev.update(prev.len() - 1, prev.last().push(c)));
            assert(prev.take(n) =~= split_dots(b).take(n));
            lemma_pieces_prefix(a, b0);
            assert(b0.take(a.len() + 1int) =~= b.take(a.len() + 1int));
        }
    }
}

proof fn lemma_leaves_of_members<W>(all: Entries<W>, e: Entries<W>)
    ensures
        forall|i: int| 0 <= i < leaves_of(all, e).len() ==> e.contains(#[trigger] leaves_of(all, e)[i])
            && !has_dotted_child(all, leaves_of(all, e)[i].0),
    decreases e.len(),
{
    if e.len() > 0 {
        lemma_leaves_of_members(all, e.drop_last());
        let prev = leaves_of(all, e.drop_last());
        assert forall|i: int| 0 <= i < leaves_of(all, e).len() implies e.contains(#[trigger] leaves_of(all, e)[i])
            && !has_dotted_child(all, leaves_of(all, e)[i].0) by {
            if i < prev.len() {
                let x = prev[i];
                assert(leaves_of(all, e)[i] == x);
                let j = choose|j: int| 0 <= j < e.drop_last().len() && e.drop_last()[j] == x;
                assert(e[j] == x);
            } else {
                assert(leaves_of(all, e)[i] == e.last());
                assert(e[e.len() - 1] == e.last());
            }
        }
    }
}

/// The leaves that a request is built from stand apart: no key that has
/// dotted children is a leaf, so no leaf stands where another's path goes on.
pub proof fn lemma_json_leaves_apart<V: JsonValue>(e: Entries<V::V>)
    ensures
        leaves_apart(request_leaves::<V>(crate::store::json_leaves_spec(e))),
{
    let lv = leaves_of(e, e);
    let l = request_leaves::<V>(crate::store::json_leaves_spec(e));
    lemma_leaves_of_members(e, e);
    assert forall|i: int| 0 <= i < l.len() implies (#[trigger] l[i]).0.len() >= 1 by {
        lemma_split_dots_len(lv[i].0);
    }
    assert forall|i: int, j: int| 0 <= i < l.len() && 0 <= j < l.len() implies !strict_prefix(#[trigger] l[i].0, #[trigger] l[j].0) by {
        let a = lv[i].0;
        let b = lv[j].0;
        assert(l[i].0 == split_dots(a));
        assert(l[j].0 == split_dots(b));
        if strict_prefix(split_dots(a), split_dots(b)) {
            lemma_pieces_prefix(a, b);
            assert(e.contains(lv[j]));
            let x = choose|x: int| 0 <= x < e.len() && e[x] == lv[j];
            assert(has_prefix(e[x].0, a.push('.')));
            assert(has_dotted_child(e, a));
        }
    }
}

} // verus!
