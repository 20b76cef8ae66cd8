use vstd::prelude::*;
use vstd::std_specs::cmp::PartialEqSpec;

verus! {

/// What the key type must satisfy for the contracts of this module to hold:
/// `==` on keys is equality of values, and `clone` returns an equal key.
pub open spec fn key_laws<K: PartialEq + Clone>() -> bool {
    &&& K::obeys_eq_spec()
    &&& forall|a: K, b: K| (#[trigger] a.eq_spec(&b)) == (a == b)
    &&& forall|a: K, b: K| #[trigger] call_ensures(K::clone, (&a,), b) ==> a == b
}

/// A node of the tree: a payload, its own key, the key of its parent (none
/// for the root) and the keys of its children in the order they were added.
pub struct Node<D, K: PartialEq + Clone> {
    /// The payload the node holds.
    pub data: D,
    children: Vec<K>,
    father_key: Option<K>,
    key: K,
}

/// Why an append was refused.
#[derive(Debug, Clone, Copy, PartialEq, Eq, Structural)]
pub enum StructuralViolation {
    /// The first node of a tree declared a parent.
    RootHasParent,
    /// A node other than the first declared no parent.
    MissingParent,
    /// No node of the tree has the declared parent key.
    ParentNotFound,
    /// A node of the tree already has the key.
    DuplicateKey,
}

impl<D, K: PartialEq + Clone> Node<D, K> {
    /// The payload.
    pub closed spec fn data_spec(&self) -> D {
        self.data
    }

    /// The node's own key.
    pub closed spec fn key_spec(&self) -> K {
        self.key
    }

    /// The key of the node's parent, if it declared one.
    pub closed spec fn parent_spec(&self) -> Option<K> {
        self.father_key
    }

    /// The keys of the node's children, in the order they were appended.
    pub closed spec fn children_spec(&self) -> Seq<K> {
        self.children@
    }

    /// Returns a node without children.
    pub fn new(data: D, key: K, father_key: Option<K>) -> (r: Self)
        ensures
            r.data_spec() == data,
            r.key_spec() == key,
            r.parent_spec() == father_key,
            r.children_spec() == Seq::<K>::empty(),
    {
        Node { data, key, father_key, children: Vec::new() }
    }

    /// Returns true if `key` is among the keys of the node's children.
    pub fn has_child(&self, key: &K) -> (r: bool)
        requires
            key_laws::<K>(),
        ensures
            r == self.children_spec().contains(*key),
    {
        let mut i: usize = 0;
        while i < self.children.len()
            invariant
                key_laws::<K>(),
                i <= self.children@.len(),
                forall|j: int| 0 <= j < i ==> self.children@[j] != *key,
            decreases self.children@.len() - i,
        {
            if self.children[i] == *key {
                return true;
            }
            i += 1;
        }
        false
    }
}


/// Index of the first node whose key is `k`; `s.len()` when there is none.
pub open spec fn key_index<D, K: PartialEq + Clone>(s: Seq<Node<D, K>>, k: K) -> int
    decreases s.len(),
{
    if s.len() == 0 {
        0
    } else if s[0].key_spec() == k {
        0
    } else {
        1 + key_index(s.drop_first(), k)
    }
}

/// Some node has key `k`.
pub open spec fn has_key<D, K: PartialEq + Clone>(s: Seq<Node<D, K>>, k: K) -> bool {
    exists|i: int| 0 <= i < s.len() && s[i].key_spec() == k
}

/// `s` without its first node whose key is `k` (unchanged when there is none).
pub open spec fn delete_key<D, K: PartialEq + Clone>(s: Seq<Node<D, K>>, k: K) -> Seq<Node<D, K>>
    decreases s.len(),
{
    if s.len() == 0 {
        s
    } else if s[0].key_spec() == k {
        s.drop_first()
    } else {
        seq![s[0]] + delete_key(s.drop_first(), k)
    }
}

/// No two nodes share a key.
pub open spec fn unique_keys<D, K: PartialEq + Clone>(s: Seq<Node<D, K>>) -> bool {
    forall|i: int, j: int|
        0 <= i < j < s.len() ==> #[trigger] s[i].key_spec() != #[trigger] s[j].key_spec()
}

/// Every child key names a node that stands after its parent, if it names one.
pub open spec fn children_after<D, K: PartialEq + Clone>(s: Seq<Node<D, K>>) -> bool {
    forall|i: int, j: int, m: int|
        0 <= i < s.len() && 0 <= j < s.len() && 0 <= m < s[i].children_spec().len()
            && #[trigger] s[i].children_spec()[m] == #[trigger] s[j].key_spec() ==> i < j
}

/// The invariant that every operation of the tree keeps.
pub open spec fn well_formed<D, K: PartialEq + Clone>(s: Seq<Node<D, K>>) -> bool {
    unique_keys(s) && children_after(s)
}

/// The first node keyed `k` stands at `i`, and deleting `k` removes it.
pub(crate) proof fn lemma_key_index<D, K: PartialEq + Clone>(s: Seq<Node<D, K>>, k: K, i: int)
    requires
        0 <= i <= s.len(),
        forall|j: int| 0 <= j < i ==> s[j].key_spec() != k,
        i < s.len() ==> s[i].key_spec() == k,
    ensures
        key_index(s, k) == i,
        i < s.len() ==> delete_key(s, k) == s.remove(i),
        i == s.len() ==> delete_key(s, k) == s,
    decreases i,
{
    if s.len() > 0 && i > 0 {
        let t = s.drop_first();
        assert forall|j: int| 0 <= j < i - 1 implies t[j].key_spec() != k by {
            assert(t[j] == s[j + 1]);
        }
        lemma_key_index(t, k, i - 1);
        if i < s.len() {
            assert(seq![s[0]] + t.remove(i - 1) =~= s.remove(i));
        } else {
            assert(seq![s[0]] + t =~= s);
        }
    } else if s.len() > 0 {
        assert(s.drop_first() =~= s.remove(0));
    }
}

/// Where the first node keyed `k` stands, and what removing it leaves.
proof fn lemma_key_index_bounds<D, K: PartialEq + Clone>(s: Seq<Node<D, K>>, k: K)
    ensures
        0 <= key_index(s, k) <= s.len(),
        key_index(s, k) < s.len() <==> has_key(s, k),
        key_index(s, k) < s.len() ==> s[key_index(s, k)].key_spec() == k,
        forall|j: int| 0 <= j < key_index(s, k) ==> s[j].key_spec() != k,
    decreases s.len(),
{
    if s.len() > 0 {
        let t = s.drop_first();
        lemma_key_index_bounds(t, k);
        if s[0].key_spec() != k {
            assert forall|j: int| 0 <= j < key_index(s, k) implies s[j].key_spec() != k by {
                if j > 0 {
                    assert(s[j] == t[j - 1]);
                }
            }
            if has_key(s, k) {
                let w = choose|w: int| 0 <= w < s.len() && s[w].key_spec() == k;
                assert(t[w - 1] == s[w]);
            }
            if has_key(t, k) {
                let w = choose|w: int| 0 <= w < t.len() && t[w].key_spec() == k;
                assert(t[w] == s[w + 1]);
            }
        }
    }
}

/// Returns the first node of `nodes` whose key is `key`.
fn find_node_with_key<'a, D, K: PartialEq + Clone>(nodes: &'a [Node<D, K>], key: &K) -> (r: Option<
    &'a Node<D, K>,
>)
    requires
        key_laws::<K>(),
    ensures
        key_index(nodes@, *key) < nodes@.len() ==> r == Some(&nodes@[key_index(nodes@, *key)]),
        key_index(nodes@, *key) >= nodes@.len() ==> r is None,
{
    proof {
        lemma_key_index_bounds(nodes@, *key);
    }
    let mut i: usize = 0;
    while i < nodes.len()
        invariant
            key_laws::<K>(),
            i <= nodes@.len(),
            forall|j: int| 0 <= j < i ==> nodes@[j].key_spec() != *key,
        decreases nodes@.len() - i,
    {
        if nodes[i].key == *key {
            proof {
                lemma_key_index(nodes@, *key, i as int);
            }
            return Some(&nodes[i]);
        }
        i += 1;
    }
    proof {
        lemma_key_index(nodes@, *key, i as int);
    }
    None
}

/// Removes the first node of `nodes` whose key is `key`; does nothing when
/// there is none.
fn delete_node<D, K: PartialEq + Clone>(nodes: &mut Vec<Node<D, K>>, key: &K)
    requires
        key_laws::<K>(),
    ensures
        final(nodes)@ == delete_key(old(nodes)@, *key),
        well_formed(old(nodes)@) ==> well_formed(final(nodes)@),
{
    let mut i: usize = 0;
    while i < nodes.len()
        invariant
            key_laws::<K>(),
            nodes@ == old(nodes)@,
            i <= nodes@.len(),
            forall|j: int| 0 <= j < i ==> nodes@[j].key_spec() != *key,
        decreases nodes@.len() - i,
    {
        if nodes[i].key == *key {
            proof {
                lemma_key_index(nodes@, *key, i as int);
            }
            let ghost s = nodes@;
            nodes.remove(i);
            proof {
                let t = nodes@;
                if well_formed(s) {
                    assert forall|a: int, b: int, m: int|
                        0 <= a < t.len() && 0 <= b < t.len() && 0 <= m
                            < t[a].children_spec().len() && #[trigger] t[a].children_spec()[m]
                            == #[trigger] t[b].key_spec() implies a < b by {
                        let a2 = if a < i { a } else { a + 1 };
                        let b2 = if b < i { b } else { b + 1 };
                        assert(t[a] == s[a2]);
                        assert(t[b] == s[b2]);
                    }
                    assert forall|a: int, b: int|
                        0 <= a < b < t.len() implies #[trigger] t[a].key_spec()
                        != #[trigger] t[b].key_spec() by {
                        let a2 = if a < i { a } else { a + 1 };
                        let b2 = if b < i { b } else { b + 1 };
                        assert(t[a] == s[a2]);
                        assert(t[b] == s[b2]);
                    }
                }
            }
            return;
        }
        i += 1;
    }
    proof {
        lemma_key_index(nodes@, *key, i as int);
    }
}


/// The keys collected below node `i` from its first `m` children: for each
/// child in order, the keys below the child's node (when it names a later
/// node), then the child's own key.
pub open spec fn walk<D, K: PartialEq + Clone>(s: Seq<Node<D, K>>, i: int, m: int) -> Seq<K>
    decreases s.len() - i, m,
{
    if 0 <= i < s.len() && 0 < m <= s[i].children_spec().len() {
        let c = s[i].children_spec()[m - 1];
        let j = key_index(s, c);
        walk(s, i, m - 1) + (if i < j < s.len() {
            walk(s, j, s[j].children_spec().len() as int)
        } else {
            Seq::<K>::empty()
        }) + seq![c]
    } else {
        Seq::<K>::empty()
    }
}

/// The keys of all transitive descendants of the first node keyed `k`, each
/// after its own descendants; empty when no node has key `k`.
pub open spec fn descendants<D, K: PartialEq + Clone>(s: Seq<Node<D, K>>, k: K) -> Seq<K> {
    let i = key_index(s, k);
    if i < s.len() {
        walk(s, i, s[i].children_spec().len() as int)
    } else {
        Seq::<K>::empty()
    }
}

/// Collects the keys of all transitive descendants of the node keyed `key`,
/// each after its own descendants.
fn find_all_child_nodes<D, K: PartialEq + Clone>(nodes: &Vec<Node<D, K>>, key: &K) -> (r: Vec<K>)
    requires
        key_laws::<K>(),
        well_formed(nodes@),
    ensures
        r@ == descendants(nodes@, *key),
    decreases nodes@.len() - key_index(nodes@, *key),
{
    proof {
        lemma_key_index_bounds(nodes@, *key);
    }
    let mut all_nodes: Vec<K> = Vec::new();
    if let Some(node_to_delete) = find_node_with_key(nodes.as_slice(), key) {
        let ghost i = key_index(nodes@, *key);
        let mut m: usize = 0;
        while m < node_to_delete.children.len()
            invariant
                key_laws::<K>(),
                well_formed(nodes@),
                0 <= i < nodes@.len(),
                *node_to_delete == nodes@[i],
                i == key_index(nodes@, *key),
                m <= node_to_delete.children@.len(),
                all_nodes@ == walk(nodes@, i, m as int),
            decreases node_to_delete.children@.len() - m,
        {
            let child = &node_to_delete.children[m];
            proof {
                lemma_key_index_bounds(nodes@, *child);
                let j = key_index(nodes@, *child);
                if j < nodes@.len() {
                    assert(nodes@[i].children_spec()[m as int] == nodes@[j].key_spec());
                }
            }
            let mut found_childs = find_all_child_nodes(nodes, child);
            all_nodes.append(&mut found_childs);
            all_nodes.push(child.clone());
            m += 1;
        }
    }
    all_nodes
}


/// `s` without the nodes whose key is in `ks`, in the same order.
pub open spec fn keep<D, K: PartialEq + Clone>(s: Seq<Node<D, K>>, ks: Seq<K>) -> Seq<Node<D, K>>
    decreases s.len(),
{
    if s.len() == 0 {
        s
    } else if ks.contains(s[0].key_spec()) {
        keep(s.drop_first(), ks)
    } else {
        seq![s[0]] + keep(s.drop_first(), ks)
    }
}

/// How many nodes of `s` have a key in `ks`.
pub open spec fn count_in<D, K: PartialEq + Clone>(s: Seq<Node<D, K>>, ks: Seq<K>) -> nat
    decreases s.len(),
{
    if s.len() == 0 {
        0
    } else {
        (if ks.contains(s[0].key_spec()) { 1nat } else { 0nat }) + count_in(s.drop_first(), ks)
    }
}

/// How many nodes of `s` are transitive descendants of the node keyed `k`.
pub open spec fn descendant_count<D, K: PartialEq + Clone>(s: Seq<Node<D, K>>, k: K) -> nat {
    count_in(s, descendants(s, k))
}

/// The keys that removing the subtree of `k` deletes, in the order deleted.
pub open spec fn removal_keys<D, K: PartialEq + Clone>(s: Seq<Node<D, K>>, k: K) -> Seq<K> {
    descendants(s, k).push(k)
}

/// Dropping the first node keeps keys unique and frees the first key.
proof fn lemma_unique_tail<D, K: PartialEq + Clone>(s: Seq<Node<D, K>>)
    requires
        s.len() > 0,
        unique_keys(s),
    ensures
        unique_keys(s.drop_first()),
        !has_key(s.drop_first(), s[0].key_spec()),
        forall|x: K| has_key(s, x) <==> (s[0].key_spec() == x || has_key(s.drop_first(), x)),
{
    let t = s.drop_first();
    assert forall|a: int, b: int| 0 <= a < b < t.len() implies #[trigger] t[a].key_spec()
        != #[trigger] t[b].key_spec() by {
        assert(t[a] == s[a + 1] && t[b] == s[b + 1]);
    }
    if has_key(t, s[0].key_spec()) {
        let w = choose|w: int| 0 <= w < t.len() && t[w].key_spec() == s[0].key_spec();
        assert(t[w] == s[w + 1]);
    }
    assert forall|x: K| has_key(s, x) <==> (s[0].key_spec() == x || has_key(t, x)) by {
        if has_key(s, x) {
            let w = choose|w: int| 0 <= w < s.len() && s[w].key_spec() == x;
            if w > 0 {
                assert(t[w - 1] == s[w]);
            }
        }
        if has_key(t, x) {
            let w = choose|w: int| 0 <= w < t.len() && t[w].key_spec() == x;
            assert(t[w] == s[w + 1]);
        }
        if s[0].key_spec() == x {
            assert(s[0].key_spec() == x);
        }
    }
}

/// Naming a key that no node has changes neither what is kept nor the count.
proof fn lemma_keep_absent<D, K: PartialEq + Clone>(s: Seq<Node<D, K>>, ks: Seq<K>, x: K)
    requires
        unique_keys(s),
        !has_key(s, x),
    ensures
        keep(s, ks.push(x)) == keep(s, ks),
        count_in(s, ks.push(x)) == count_in(s, ks),
    decreases s.len(),
{
    if s.len() > 0 {
        lemma_unique_tail(s);
        lemma_keep_absent(s.drop_first(), ks, x);
        assert(ks.push(x).contains(s[0].key_spec()) == ks.contains(s[0].key_spec())) by {
            if ks.push(x).contains(s[0].key_spec()) {
                let w = choose|w: int| 0 <= w < ks.push(x).len() && ks.push(x)[w] == s[0].key_spec();
                assert(w < ks.len());
                assert(ks[w] == ks.push(x)[w]);
            }
            if ks.contains(s[0].key_spec()) {
                let w = choose|w: int| 0 <= w < ks.len() && ks[w] == s[0].key_spec();
                assert(ks.push(x)[w] == ks[w]);
            }
        }
    }
}

/// Membership in a sequence with one more key.
proof fn lemma_push_contains<K>(ks: Seq<K>, x: K, y: K)
    ensures
        ks.push(x).contains(y) == (ks.contains(y) || y == x),
{
    if ks.push(x).contains(y) {
        let w = choose|w: int| 0 <= w < ks.push(x).len() && ks.push(x)[w] == y;
        if w < ks.len() {
            assert(ks[w] == ks.push(x)[w]);
        }
    }
    if ks.contains(y) {
        let w = choose|w: int| 0 <= w < ks.len() && ks[w] == y;
        assert(ks.push(x)[w] == ks[w]);
    }
    assert(ks.push(x)[ks.len() as int] == x);
}

/// Deleting one more key from what is kept is keeping less.
proof fn lemma_delete_keep<D, K: PartialEq + Clone>(s: Seq<Node<D, K>>, ks: Seq<K>, x: K)
    requires
        unique_keys(s),
    ensures
        delete_key(keep(s, ks), x) == keep(s, ks.push(x)),
        count_in(s, ks.push(x)) == count_in(s, ks) + (if has_key(s, x) && !ks.contains(x) {
            1nat
        } else {
            0nat
        }),
    decreases s.len(),
{
    if s.len() > 0 {
        let t = s.drop_first();
        let k0 = s[0].key_spec();
        lemma_unique_tail(s);
        lemma_push_contains(ks, x, k0);
        lemma_delete_keep(t, ks, x);
        if ks.contains(k0) {
        } else if k0 == x {
            lemma_keep_absent(t, ks, x);
            let kt = keep(t, ks);
            assert((seq![s[0]] + kt)[0] == s[0]);
            assert((seq![s[0]] + kt).drop_first() =~= kt);
        } else {
            let kt = keep(t, ks);
            assert((seq![s[0]] + kt)[0] == s[0]);
            assert((seq![s[0]] + kt).drop_first() =~= kt);
        }
    }
}

/// What is kept and what is counted make up the whole sequence.
proof fn lemma_keep_len<D, K: PartialEq + Clone>(s: Seq<Node<D, K>>, ks: Seq<K>)
    ensures
        keep(s, ks).len() + count_in(s, ks) == s.len(),
        ks.len() == 0 ==> keep(s, ks) == s,
    decreases s.len(),
{
    if s.len() > 0 {
        lemma_keep_len(s.drop_first(), ks);
        if ks.len() == 0 {
            assert(seq![s[0]] + s.drop_first() =~= s);
        }
    }
}

/// Every key collected below node `i` names no node at or before `i`.
proof fn lemma_walk_after<D, K: PartialEq + Clone>(s: Seq<Node<D, K>>, i: int, m: int)
    requires
        children_after(s),
        0 <= i < s.len(),
    ensures
        forall|n: int| 0 <= n < walk(s, i, m).len() ==> key_index(s, #[trigger] walk(s, i, m)[n]) > i,
    decreases s.len() - i, m,
{
    if 0 < m <= s[i].children_spec().len() {
        let c = s[i].children_spec()[m - 1];
        let j = key_index(s, c);
        lemma_key_index_bounds(s, c);
        lemma_walk_after(s, i, m - 1);
        let a = walk(s, i, m - 1);
        let b = if i < j < s.len() {
            lemma_walk_after(s, j, s[j].children_spec().len() as int);
            walk(s, j, s[j].children_spec().len() as int)
        } else {
            Seq::<K>::empty()
        };
        assert(walk(s, i, m) == a + b + seq![c]);
        if j < s.len() {
            assert(s[i].children_spec()[m - 1] == s[j].key_spec());
        }
        assert forall|n: int| 0 <= n < walk(s, i, m).len() implies key_index(
            s,
            #[trigger] walk(s, i, m)[n],
        ) > i by {
            if n < a.len() {
                assert(walk(s, i, m)[n] == a[n]);
            } else if n < a.len() + b.len() {
                assert(walk(s, i, m)[n] == b[n - a.len()]);
            } else {
                assert(walk(s, i, m)[n] == c);
            }
        }
    }
}

/// The first `m` children of node `i` are among the keys collected below it.
proof fn lemma_child_in_walk<D, K: PartialEq + Clone>(s: Seq<Node<D, K>>, i: int, m: int, n: int)
    requires
        0 <= i < s.len(),
        0 <= n < m <= s[i].children_spec().len(),
    ensures
        walk(s, i, m).contains(s[i].children_spec()[n]),
    decreases m,
{
    let w = walk(s, i, m);
    if n == m - 1 {
        assert(w[w.len() - 1] == s[i].children_spec()[n]);
    } else {
        lemma_child_in_walk(s, i, m - 1, n);
        let a = walk(s, i, m - 1);
        let k = choose|k: int| 0 <= k < a.len() && a[k] == s[i].children_spec()[n];
        assert(w[k] == a[k]);
    }
}

/// The keys collected below node `i` include every child of each node they
/// name.
proof fn lemma_walk_closed<D, K: PartialEq + Clone>(s: Seq<Node<D, K>>, i: int, m: int)
    requires
        children_after(s),
        0 <= i < s.len(),
    ensures
        forall|x: K, n: int|
            #![trigger walk(s, i, m).contains(x), s[key_index(s, x)].children_spec()[n]]
            walk(s, i, m).contains(x) && key_index(s, x) < s.len() && 0 <= n
                < s[key_index(s, x)].children_spec().len() ==> walk(s, i, m).contains(
                s[key_index(s, x)].children_spec()[n],
            ),
    decreases s.len() - i, m,
{
    if 0 < m <= s[i].children_spec().len() {
        let c = s[i].children_spec()[m - 1];
        let j = key_index(s, c);
        lemma_key_index_bounds(s, c);
        lemma_walk_closed(s, i, m - 1);
        let a = walk(s, i, m - 1);
        let b = if i < j < s.len() {
            lemma_walk_closed(s, j, s[j].children_spec().len() as int);
            walk(s, j, s[j].children_spec().len() as int)
        } else {
            Seq::<K>::empty()
        };
        let w = walk(s, i, m);
        assert(w == a + b + seq![c]);
        if j < s.len() {
            assert(s[i].children_spec()[m - 1] == s[j].key_spec());
        }
        assert forall|x: K, n: int|
            w.contains(x) && key_index(s, x) < s.len() && 0 <= n < s[key_index(
                s,
                x,
            )].children_spec().len() implies #[trigger] w.contains(
            s[key_index(s, x)].children_spec()[n],
        ) by {
            let y = s[key_index(s, x)].children_spec()[n];
            let k = choose|k: int| 0 <= k < w.len() && w[k] == x;
            if k < a.len() {
                assert(a[k] == x);
                assert(a.contains(x));
                let q = choose|q: int| 0 <= q < a.len() && a[q] == y;
                assert(w[q] == y);
            } else if k < a.len() + b.len() {
                assert(b[k - a.len()] == x);
                assert(b.contains(x));
                let q = choose|q: int| 0 <= q < b.len() && b[q] == y;
                assert(w[q + a.len()] == y);
            } else {
                assert(x == c);
                lemma_child_in_walk(s, j, s[j].children_spec().len() as int, n);
                let q = choose|q: int| 0 <= q < b.len() && b[q] == y;
                assert(w[q + a.len()] == y);
            }
        }
    }
}

/// A node whose parent removal deletes is deleted too.
proof fn lemma_removal_closed<D, K: PartialEq + Clone>(s: Seq<Node<D, K>>, k: K, i: int, j: int)
    requires
        well_formed(s),
        linked(s),
        0 <= i < s.len(),
        0 <= j < s.len(),
        s[i].parent_spec() == Some(s[j].key_spec()),
        removal_keys(s, k).contains(s[j].key_spec()),
    ensures
        removal_keys(s, k).contains(s[i].key_spec()),
{
    let d = descendants(s, k);
    let x = s[j].key_spec();
    lemma_push_contains(d, k, x);
    lemma_push_contains(d, k, s[i].key_spec());
    assert(s[j].children_spec().contains(s[i].key_spec()));
    let n = choose|n: int|
        0 <= n < s[j].children_spec().len() && s[j].children_spec()[n] == s[i].key_spec();
    lemma_key_index(s, x, j);
    lemma_key_index_bounds(s, k);
    let ki = key_index(s, k);
    if x == k {
        lemma_child_in_walk(s, j, s[j].children_spec().len() as int, n);
    } else {
        lemma_walk_closed(s, ki, s[ki].children_spec().len() as int);
        assert(s[key_index(s, x)].children_spec()[n] == s[i].key_spec());
    }
}

/// A node is never among its own descendants.
proof fn lemma_not_own_descendant<D, K: PartialEq + Clone>(s: Seq<Node<D, K>>, k: K)
    requires
        children_after(s),
    ensures
        !descendants(s, k).contains(k),
{
    lemma_key_index_bounds(s, k);
    let i = key_index(s, k);
    if i < s.len() {
        lemma_walk_after(s, i, s[i].children_spec().len() as int);
    }
}

/// What appending `n` to `s` gives: the first rule broken, in the order
/// root-has-parent, missing-parent, parent-not-found, duplicate-key.
pub open spec fn append_check<D, K: PartialEq + Clone>(s: Seq<Node<D, K>>, n: Node<D, K>) -> Result<
    (),
    StructuralViolation,
> {
    if s.len() == 0 {
        if n.parent_spec() is Some {
            Err(StructuralViolation::RootHasParent)
        } else {
            Ok(())
        }
    } else {
        match n.parent_spec() {
            None => Err(StructuralViolation::MissingParent),
            Some(p) => if !has_key(s, p) {
                Err(StructuralViolation::ParentNotFound)
            } else if has_key(s, n.key_spec()) {
                Err(StructuralViolation::DuplicateKey)
            } else {
                Ok(())
            },
        }
    }
}

/// Node `b` is node `a` with `c` added at the end of its children.
pub open spec fn gains_child<D, K: PartialEq + Clone>(a: Node<D, K>, b: Node<D, K>, c: K) -> bool {
    &&& b.data_spec() == a.data_spec()
    &&& b.key_spec() == a.key_spec()
    &&& b.parent_spec() == a.parent_spec()
    &&& b.children_spec() == a.children_spec().push(c)
}

/// `t` is `s` with `n` appended at the end and, when `n` names a parent, the
/// key of `n` added to the children of the first node keyed as that parent.
pub open spec fn appended<D, K: PartialEq + Clone>(
    s: Seq<Node<D, K>>,
    t: Seq<Node<D, K>>,
    n: Node<D, K>,
) -> bool {
    &&& t.len() == s.len() + 1
    &&& t.last() == n
    &&& match n.parent_spec() {
        None => t.drop_last() == s,
        Some(p) => {
            let i = key_index(s, p);
            &&& forall|j: int| 0 <= j < s.len() && j != i ==> t[j] == s[j]
            &&& gains_child(s[i], t[i], n.key_spec())
        },
    }
}

/// The first node has no parent, and every later node names as parent a node
/// that stands before it.
pub open spec fn rooted<D, K: PartialEq + Clone>(s: Seq<Node<D, K>>) -> bool {
    s.len() > 0 ==> {
        &&& s[0].parent_spec() is None
        &&& forall|i: int|
            0 < i < s.len() ==> exists|j: int|
                0 <= j < i && #[trigger] s[i].parent_spec() == Some(#[trigger] s[j].key_spec())
    }
}

/// Every node's key is among the children of each node keyed as its parent.
pub open spec fn linked<D, K: PartialEq + Clone>(s: Seq<Node<D, K>>) -> bool {
    forall|i: int, j: int|
        0 <= i < s.len() && 0 <= j < s.len() && #[trigger] s[i].parent_spec() == Some(
            #[trigger] s[j].key_spec(),
        ) ==> s[j].children_spec().contains(s[i].key_spec())
}

/// A tree proper: exactly one root, first, and each other node listed by its
/// parent, which stands before it.
pub open spec fn tree_shaped<D, K: PartialEq + Clone>(s: Seq<Node<D, K>>) -> bool {
    rooted(s) && linked(s)
}

/// Returns the index of the first node of `nodes` whose key is `key`, or
/// `nodes.len()` when there is none.
fn position_of_key<D, K: PartialEq + Clone>(nodes: &Vec<Node<D, K>>, key: &K) -> (r: usize)
    requires
        key_laws::<K>(),
    ensures
        r == key_index(nodes@, *key),
{
    let mut i: usize = 0;
    while i < nodes.len()
        invariant
            key_laws::<K>(),
            i <= nodes@.len(),
            forall|j: int| 0 <= j < i ==> nodes@[j].key_spec() != *key,
        decreases nodes@.len() - i,
    {
        if nodes[i].key == *key {
            proof {
                lemma_key_index(nodes@, *key, i as int);
            }
            return i;
        }
        i += 1;
    }
    proof {
        lemma_key_index(nodes@, *key, i as int);
    }
    i
}

/// Index of the first node without a parent; `s.len()` when there is none.
pub open spec fn root_index<D, K: PartialEq + Clone>(s: Seq<Node<D, K>>) -> int
    decreases s.len(),
{
    if s.len() == 0 {
        0
    } else if s[0].parent_spec() is None {
        0
    } else {
        1 + root_index(s.drop_first())
    }
}

/// The index of the node that `route` leads to from the root: each key of the
/// route must be a child key of the node reached so far and name a node.
pub open spec fn travel<D, K: PartialEq + Clone>(s: Seq<Node<D, K>>, route: Seq<K>) -> Option<int>
    decreases route.len(),
{
    if route.len() == 0 {
        if root_index(s) < s.len() {
            Some(root_index(s))
        } else {
            None
        }
    } else {
        match travel(s, route.drop_last()) {
            None => None,
            Some(i) => {
                let k = route.last();
                if s[i].children_spec().contains(k) && key_index(s, k) < s.len() {
                    Some(key_index(s, k))
                } else {
                    None
                }
            },
        }
    }
}

/// The first node without a parent stands at `i`.
pub(crate) proof fn lemma_root_index<D, K: PartialEq + Clone>(s: Seq<Node<D, K>>, i: int)
    requires
        0 <= i <= s.len(),
        forall|j: int| 0 <= j < i ==> s[j].parent_spec() is Some,
        i < s.len() ==> s[i].parent_spec() is None,
    ensures
        root_index(s) == i,
    decreases i,
{
    if s.len() > 0 && i > 0 {
        let t = s.drop_first();
        assert forall|j: int| 0 <= j < i - 1 implies t[j].parent_spec() is Some by {
            assert(t[j] == s[j + 1]);
        }
        lemma_root_index(t, i - 1);
    }
}

/// Once a route leads nowhere, no longer route does.
proof fn lemma_travel_none<D, K: PartialEq + Clone>(s: Seq<Node<D, K>>, route: Seq<K>, n: int)
    requires
        0 <= n <= route.len(),
        travel(s, route.take(n)) is None,
    ensures
        travel(s, route) is None,
    decreases route.len() - n,
{
    if n < route.len() {
        assert(route.take(n + 1).drop_last() =~= route.take(n));
        lemma_travel_none(s, route, n + 1);
    } else {
        assert(route.take(n) =~= route);
    }
}

/// Every node kept from `s` is a node of `s`.
proof fn lemma_keep_sub<D, K: PartialEq + Clone>(s: Seq<Node<D, K>>, ks: Seq<K>)
    ensures
        forall|a: int|
            0 <= a < keep(s, ks).len() ==> exists|j: int|
                0 <= j < s.len() && #[trigger] keep(s, ks)[a] == s[j],
    decreases s.len(),
{
    if s.len() > 0 {
        let t = s.drop_first();
        lemma_keep_sub(t, ks);
        assert forall|a: int| 0 <= a < keep(s, ks).len() implies exists|j: int|
            0 <= j < s.len() && #[trigger] keep(s, ks)[a] == s[j] by {
            if ks.contains(s[0].key_spec()) {
                let j = choose|j: int| 0 <= j < t.len() && #[trigger] keep(t, ks)[a] == t[j];
                assert(t[j] == s[j + 1]);
            } else if a == 0 {
                assert(keep(s, ks)[0] == s[0]);
            } else {
                assert(keep(s, ks)[a] == keep(t, ks)[a - 1]);
                let j = choose|j: int| 0 <= j < t.len() && #[trigger] keep(t, ks)[a - 1] == t[j];
                assert(t[j] == s[j + 1]);
            }
        }
    }
}

/// The parent of each kept node is a key of `e` or of a kept node before it,
/// and a node without parent comes first, and only when `e` is empty.
pub open spec fn parents_kept<D, K: PartialEq + Clone>(
    s: Seq<Node<D, K>>,
    ks: Seq<K>,
    e: Seq<K>,
) -> bool {
    forall|i: int|
        0 <= i < s.len() && !ks.contains(#[trigger] s[i].key_spec()) ==> match s[i].parent_spec() {
            None => i == 0 && e.len() == 0,
            Some(p) => e.contains(p) || exists|j: int|
                0 <= j < i && !ks.contains(s[j].key_spec()) && s[j].key_spec() == p,
        }
}

/// Keeping what `parents_kept` speaks of leaves a sequence where each node's
/// parent is a key of `e` or of a node before it.
proof fn lemma_keep_rooted<D, K: PartialEq + Clone>(s: Seq<Node<D, K>>, ks: Seq<K>, e: Seq<K>)
    requires
        parents_kept(s, ks, e),
    ensures
        parents_kept(keep(s, ks), Seq::<K>::empty(), e),
    decreases s.len(),
{
    let r = keep(s, ks);
    let none = Seq::<K>::empty();
    if s.len() > 0 {
        let t = s.drop_first();
        let k0 = s[0].key_spec();
        let e2 = if ks.contains(k0) { e } else { e.push(k0) };
        assert forall|i: int|
            0 <= i < t.len() && !ks.contains(#[trigger] t[i].key_spec()) implies match t[i].parent_spec() {
                None => i == 0 && e2.len() == 0,
                Some(p) => e2.contains(p) || exists|j: int|
                    0 <= j < i && !ks.contains(t[j].key_spec()) && t[j].key_spec() == p,
            } by {
            assert(t[i] == s[i + 1]);
            assert(!ks.contains(s[i + 1].key_spec()));
            if let Some(p) = t[i].parent_spec() {
                if !e.contains(p) {
                    let j = choose|j: int|
                        0 <= j < i + 1 && !ks.contains(s[j].key_spec()) && s[j].key_spec() == p;
                    if j == 0 {
                        lemma_push_contains(e, k0, p);
                    } else {
                        assert(t[j - 1] == s[j]);
                    }
                } else if !ks.contains(k0) {
                    lemma_push_contains(e, k0, p);
                }
            }
        }
        lemma_keep_rooted(t, ks, e2);
        let rt = keep(t, ks);
        assert forall|a: int|
            0 <= a < r.len() && !none.contains(#[trigger] r[a].key_spec()) implies match r[a].parent_spec() {
                None => a == 0 && e.len() == 0,
                Some(p) => e.contains(p) || exists|b: int|
                    0 <= b < a && !none.contains(r[b].key_spec()) && r[b].key_spec() == p,
            } by {
            if ks.contains(k0) {
                assert(!none.contains(rt[a].key_spec()));
                if let Some(p) = r[a].parent_spec() {
                    if !e.contains(p) {
                        let b = choose|b: int|
                            0 <= b < a && !none.contains(rt[b].key_spec()) && rt[b].key_spec() == p;
                        assert(!none.contains(r[b].key_spec()));
                    }
                }
            } else if a == 0 {
                assert(r[0] == s[0]);
                assert(!ks.contains(s[0].key_spec()));
            } else {
                assert(r[a] == rt[a - 1]);
                assert(!none.contains(rt[a - 1].key_spec()));
                assert(e2.len() > 0);
                if let Some(p) = r[a].parent_spec() {
                    if !e.contains(p) {
                        lemma_push_contains(e, k0, p);
                        if p == k0 {
                            assert(r[0] == s[0]);
                            assert(!none.contains(r[0].key_spec()));
                        } else {
                            let b = choose|b: int|
                                0 <= b < a - 1 && !none.contains(rt[b].key_spec()) && rt[b].key_spec()
                                    == p;
                            assert(r[b + 1] == rt[b]);
                            assert(!none.contains(r[b + 1].key_spec()));
                        }
                    }
                }
            }
        }
    }
}

/// Removing a subtree leaves a tree proper.
proof fn lemma_shape_after_removal<D, K: PartialEq + Clone>(s: Seq<Node<D, K>>, k: K)
    requires
        well_formed(s),
        tree_shaped(s),
    ensures
        tree_shaped(keep(s, removal_keys(s, k))),
{
    let l = removal_keys(s, k);
    let none = Seq::<K>::empty();
    assert forall|i: int|
        0 <= i < s.len() && !l.contains(#[trigger] s[i].key_spec()) implies match s[i].parent_spec() {
            None => i == 0 && none.len() == 0,
            Some(p) => none.contains(p) || exists|j: int|
                0 <= j < i && !l.contains(s[j].key_spec()) && s[j].key_spec() == p,
        } by {
        if i > 0 {
            let j = choose|j: int|
                0 <= j < i && #[trigger] s[i].parent_spec() == Some(#[trigger] s[j].key_spec());
            if l.contains(s[j].key_spec()) {
                lemma_removal_closed(s, k, i, j);
            }
        }
    }
    lemma_keep_rooted(s, l, none);
    lemma_keep_sub(s, l);
    let r = keep(s, l);
    if r.len() > 0 {
        assert(!none.contains(r[0].key_spec()));
        assert forall|a: int| 0 < a < r.len() implies exists|b: int|
            0 <= b < a && #[trigger] r[a].parent_spec() == Some(#[trigger] r[b].key_spec()) by {
            assert(!none.contains(r[a].key_spec()));
            let p = r[a].parent_spec().unwrap();
            let b = choose|b: int| 0 <= b < a && !none.contains(r[b].key_spec()) && r[b].key_spec() == p;
        }
    }
    assert forall|a: int, b: int|
        0 <= a < r.len() && 0 <= b < r.len() && #[trigger] r[a].parent_spec() == Some(
            #[trigger] r[b].key_spec(),
        ) implies r[b].children_spec().contains(r[a].key_spec()) by {
        let ja = choose|j: int| 0 <= j < s.len() && #[trigger] keep(s, l)[a] == s[j];
        let jb = choose|j: int| 0 <= j < s.len() && #[trigger] keep(s, l)[b] == s[j];
        assert(s[ja].parent_spec() == Some(s[jb].key_spec()));
    }
}

/// A tree of keyed nodes linked by parent keys.
pub struct Graph<D, K: PartialEq + Clone> {
    nodes: Vec<Node<D, K>>,
}

impl<D, K: PartialEq + Clone> View for Graph<D, K> {
    type V = Seq<Node<D, K>>;

    /// The nodes of the tree in the order they were appended.
    closed spec fn view(&self) -> Seq<Node<D, K>> {
        self.nodes@
    }
}

impl<D, K: PartialEq + Clone> Graph<D, K> {
    /// The invariant the tree keeps.
    pub open spec fn wf(&self) -> bool {
        well_formed(self@)
    }

    /// Returns an empty tree.
    pub fn new() -> (r: Self)
        ensures
            r@ == Seq::<Node<D, K>>::empty(),
            r.wf(),
            tree_shaped(r@),
    {
        Graph { nodes: Vec::new() }
    }

    /// Walks `route` from the root, each key naming a child of the node
    /// reached so far, and returns the node reached. The empty route leads to
    /// the root.
    pub fn travel_to_node(&self, route: &[K]) -> (r: Option<&Node<D, K>>)
        requires
            key_laws::<K>(),
        ensures
            travel(self@, route@) is None ==> r is None,
            travel(self@, route@) matches Some(i) ==> r == Some(&self@[i]),
    {
        let ghost s = self.nodes@;
        let mut i: usize = 0;
        while i < self.nodes.len() && self.nodes[i].father_key.is_some()
            invariant
                i <= s.len(),
                s == self.nodes@,
                forall|j: int| 0 <= j < i ==> s[j].parent_spec() is Some,
            decreases s.len() - i,
        {
            i += 1;
        }
        proof {
            lemma_root_index(s, i as int);
        }
        let mut start_node: Option<&Node<D, K>> = if i < self.nodes.len() {
            Some(&self.nodes[i])
        } else {
            None
        };
        let mut n: usize = 0;
        while n < route.len()
            invariant
                key_laws::<K>(),
                s == self.nodes@,
                n <= route@.len(),
                travel(s, route@.take(n as int)) is None ==> start_node is None,
                travel(s, route@.take(n as int)) matches Some(c) ==> 0 <= c < s.len()
                    && start_node == Some(&s[c]),
            decreases route@.len() - n,
        {
            let key = &route[n];
            proof {
                assert(route@.take(n + 1).drop_last() =~= route@.take(n as int));
                assert(route@.take(n + 1).last() == route@[n as int]);
                lemma_key_index_bounds(s, *key);
            }
            if let Some(current_node) = start_node {
                let mut found_node = false;
                if current_node.has_child(key) {
                    if let Some(new_start_node) = find_node_with_key(self.nodes.as_slice(), key) {
                        start_node = Some(new_start_node);
                        found_node = true;
                    }
                }
                if !found_node {
                    proof {
                        lemma_travel_none(s, route@, n + 1);
                    }
                    return None;
                }
            }
            n += 1;
        }
        proof {
            assert(route@.take(route@.len() as int) =~= route@);
        }
        start_node
    }

    /// Returns the number of nodes in the tree.
    pub fn len(&self) -> (r: usize)
        ensures
            r == self@.len(),
    {
        self.nodes.len()
    }

    /// Returns whether the tree holds no node.
    pub fn is_empty(&self) -> (r: bool)
        ensures
            r == (self@.len() == 0),
    {
        self.nodes.is_empty()
    }

    /// Appends `node`. The first node must declare no parent; every later one
    /// must declare the key of a node already in the tree, and its key must be
    /// new. The key of `node` is added to the children of its parent. On a
    /// refusal the tree is unchanged.
    pub fn append_node(&mut self, node: Node<D, K>) -> (r: Result<(), StructuralViolation>)
        requires
            key_laws::<K>(),
            old(self).wf(),
            node.children_spec().len() == 0,
        ensures
            final(self).wf(),
            r == append_check(old(self)@, node),
            r is Ok ==> appended(old(self)@, final(self)@, node),
            r is Ok ==> final(self)@.len() == old(self)@.len() + 1,
            r is Err ==> final(self)@ == old(self)@,
            r is Ok && rooted(old(self)@) ==> rooted(final(self)@),
            tree_shaped(old(self)@) ==> tree_shaped(final(self)@),
    {
        let ghost s = self.nodes@;
        if self.nodes.is_empty() {
            if node.father_key.is_some() {
                return Err(StructuralViolation::RootHasParent);
            }
            self.nodes.push(node);
            proof {
                assert(self.nodes@.drop_last() =~= s);
                assert(self.nodes@[0] == node);
            }
            return Ok(());
        }
        let index = match &node.father_key {
            None => {
                return Err(StructuralViolation::MissingParent);
            },
            Some(father_key) => position_of_key(&self.nodes, father_key),
        };
        proof {
            lemma_key_index_bounds(s, node.parent_spec().unwrap());
            lemma_key_index_bounds(s, node.key_spec());
        }
        if index == self.nodes.len() {
            return Err(StructuralViolation::ParentNotFound);
        }
        if position_of_key(&self.nodes, &node.key) < self.nodes.len() {
            return Err(StructuralViolation::DuplicateKey);
        }
        let mut father = self.nodes.remove(index);
        father.children.push(node.key.clone());
        self.nodes.insert(index, father);
        self.nodes.push(node);
        proof {
            let t = self.nodes@;
            let i = index as int;
            assert forall|j: int| 0 <= j < s.len() && j != i implies t[j] == s[j] by {}
            assert(t.last() == node);
            assert forall|a: int, b: int| 0 <= a < b < t.len() implies #[trigger] t[a].key_spec()
                != #[trigger] t[b].key_spec() by {
                if b == s.len() {
                    assert(s[a].key_spec() == t[a].key_spec());
                }
            }
            assert forall|a: int, b: int, m: int|
                0 <= a < t.len() && 0 <= b < t.len() && 0 <= m < t[a].children_spec().len()
                    && #[trigger] t[a].children_spec()[m] == #[trigger] t[b].key_spec() implies a
                < b by {
                if a == s.len() {
                } else if b == s.len() {
                } else if a == i {
                    if m < s[i].children_spec().len() {
                        assert(t[a].children_spec()[m] == s[a].children_spec()[m]);
                        assert(t[b].key_spec() == s[b].key_spec());
                    } else {
                        assert(t[a].children_spec()[m] == node.key_spec());
                        assert(s[b].key_spec() == t[b].key_spec());
                    }
                } else {
                    assert(t[b].key_spec() == s[b].key_spec());
                }
            }
            if tree_shaped(s) {
                assert forall|a: int, b: int|
                    0 <= a < t.len() && 0 <= b < t.len() && #[trigger] t[a].parent_spec() == Some(
                        #[trigger] t[b].key_spec(),
                    ) implies t[b].children_spec().contains(t[a].key_spec()) by {
                    if a == s.len() {
                        assert(t[i].key_spec() == t[b].key_spec());
                        assert(t[i].children_spec()[s[i].children_spec().len() as int]
                            == node.key_spec());
                    } else if b == s.len() {
                        if a > 0 {
                            let j = choose|j: int|
                                0 <= j < a && #[trigger] s[a].parent_spec() == Some(
                                    #[trigger] s[j].key_spec(),
                                );
                            assert(t[a] == s[a]);
                        } else {
                            assert(t[a].parent_spec() == s[0].parent_spec());
                        }
                    } else {
                        assert(t[a].parent_spec() == s[a].parent_spec());
                        assert(t[a].key_spec() == s[a].key_spec());
                        assert(t[b].key_spec() == s[b].key_spec());
                        assert(s[b].children_spec().contains(s[a].key_spec()));
                        if b == i {
                            let w = choose|w: int|
                                0 <= w < s[b].children_spec().len() && s[b].children_spec()[w]
                                    == s[a].key_spec();
                            assert(t[b].children_spec()[w] == s[a].key_spec());
                        }
                    }
                }
            }
            if rooted(s) {
                assert(t[0].parent_spec() == s[0].parent_spec());
                assert forall|a: int| 0 < a < t.len() implies exists|j: int|
                    0 <= j < a && #[trigger] t[a].parent_spec() == Some(
                        #[trigger] t[j].key_spec(),
                    ) by {
                    if a == s.len() {
                        assert(t[i].key_spec() == s[i].key_spec());
                    } else {
                        let j = choose|j: int|
                            0 <= j < a && #[trigger] s[a].parent_spec() == Some(
                                #[trigger] s[j].key_spec(),
                            );
                        assert(t[a].parent_spec() == s[a].parent_spec());
                        assert(t[j].key_spec() == s[j].key_spec());
                    }
                }
            }
        }
        Ok(())
    }

    /// Removes the node keyed `key` together with all its transitive
    /// descendants; does nothing when no node has that key. The children list
    /// of the removed node's parent keeps the removed key.
    pub fn remove_node_with_childs(&mut self, key: K)
        requires
            key_laws::<K>(),
            old(self).wf(),
        ensures
            final(self).wf(),
            final(self)@ == keep(old(self)@, removal_keys(old(self)@, key)),
            !has_key(old(self)@, key) ==> final(self)@ == old(self)@,
            tree_shaped(old(self)@) ==> tree_shaped(final(self)@),
            has_key(old(self)@, key) ==> final(self)@.len() == old(self)@.len() - 1
                - descendant_count(old(self)@, key),
    {
        let ghost s = self.nodes@;
        let ghost k = key;
        let mut all_nodes_to_remove = find_all_child_nodes(&self.nodes, &key);
        all_nodes_to_remove.push(key);
        let ghost l = all_nodes_to_remove@;
        proof {
            lemma_keep_len(s, l.take(0));
        }
        let mut n: usize = 0;
        while n < all_nodes_to_remove.len()
            invariant
                key_laws::<K>(),
                unique_keys(s),
                l == all_nodes_to_remove@,
                n <= l.len(),
                self.nodes@ == keep(s, l.take(n as int)),
                well_formed(self.nodes@),
            decreases l.len() - n,
        {
            delete_node(&mut self.nodes, &all_nodes_to_remove[n]);
            proof {
                lemma_delete_keep(s, l.take(n as int), l[n as int]);
                assert(l.take(n + 1) =~= l.take(n as int).push(l[n as int]));
            }
            n += 1;
        }
        proof {
            assert(l.take(l.len() as int) =~= l);
            let d = descendants(s, k);
            lemma_keep_len(s, l);
            lemma_delete_keep(s, d, k);
            lemma_not_own_descendant(s, k);
            if tree_shaped(s) {
                lemma_shape_after_removal(s, k);
            }
            if !has_key(s, k) {
                lemma_keep_absent(s, d, k);
                if d.len() > 0 {
                    lemma_key_index_bounds(s, k);
                }
                lemma_keep_len(s, d);
            }
        }
    }
}

impl<D, K: PartialEq + Clone> Default for Graph<D, K> {
    fn default() -> (r: Self)
        ensures
            r@ == Seq::<Node<D, K>>::empty(),
            r.wf(),
            tree_shaped(r@),
    {
        Graph::new()
    }
}

} // verus!
