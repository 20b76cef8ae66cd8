use vstd::prelude::*;

use crate::graph::{
    append_check, appended, has_key, lemma_key_index, lemma_root_index, rooted, travel, Node,
};

verus! {

/// A non-empty tree built from the empty tree by successful appends has
/// exactly one node without a parent key: the first one. (`Graph::new` gives a
/// rooted tree, and `append_node` and `remove_node_with_childs` keep it so.)
pub proof fn lemma_single_root<D, K: PartialEq + Clone>(s: Seq<Node<D, K>>)
    requires
        rooted(s),
        s.len() > 0,
    ensures
        forall|i: int| 0 <= i < s.len() ==> (#[trigger] s[i].parent_spec() is None <==> i == 0),
{
    assert forall|i: int| 0 <= i < s.len() implies (#[trigger] s[i].parent_spec() is None <==> i
        == 0) by {
        if i > 0 {
            let j = choose|j: int|
                0 <= j < i && #[trigger] s[i].parent_spec() == Some(#[trigger] s[j].key_spec());
        }
    }
}

/// Root `r`, then `a` under `r`, then `b` under `a`, appended in turn to the
/// empty tree: the route of the keys of `a` and `b` leads to `b`, the empty
/// route to the root, and a route of one key that no node has leads nowhere.
pub proof fn lemma_travel_chain<D, K: PartialEq + Clone>(
    s1: Seq<Node<D, K>>,
    s2: Seq<Node<D, K>>,
    s3: Seq<Node<D, K>>,
    r: Node<D, K>,
    a: Node<D, K>,
    b: Node<D, K>,
    unknown: K,
)
    requires
        append_check(Seq::empty(), r) is Ok,
        appended(Seq::empty(), s1, r),
        a.parent_spec() == Some(r.key_spec()),
        append_check(s1, a) is Ok,
        appended(s1, s2, a),
        b.parent_spec() == Some(a.key_spec()),
        append_check(s2, b) is Ok,
        appended(s2, s3, b),
        r.children_spec().len() == 0,
        a.children_spec().len() == 0,
        b.children_spec().len() == 0,
        !has_key(s3, unknown),
    ensures
        travel(s3, seq![a.key_spec(), b.key_spec()]) == Some(2int),
        s3[2] == b,
        travel(s3, Seq::<K>::empty()) == Some(0int),
        s3[0].key_spec() == r.key_spec(),
        travel(s3, seq![unknown]) is None,
{
    let (rk, ak, bk) = (r.key_spec(), a.key_spec(), b.key_spec());
    assert(s1[0] == r);
    lemma_key_index(s1, rk, 0);
    assert(s2[0].children_spec() =~= seq![ak]);
    assert(s2[1] == a);
    assert(rk != ak) by {
        assert(s1[0].key_spec() == rk);
    }
    lemma_key_index(s2, ak, 1);
    assert(s3[0] == s2[0]);
    assert(s3[1].children_spec() =~= seq![bk]);
    assert(s3[2] == b);
    assert(rk != bk && ak != bk) by {
        assert(s2[0].key_spec() == rk);
        assert(s2[1].key_spec() == ak);
    }
    lemma_key_index(s3, ak, 1);
    lemma_key_index(s3, bk, 2);
    lemma_root_index(s3, 0);
    let route = seq![ak, bk];
    assert(route.drop_last() =~= seq![ak]);
    assert(seq![ak].drop_last() =~= Seq::<K>::empty());
    assert(seq![unknown].drop_last() =~= Seq::<K>::empty());
    assert(s3[0].children_spec()[0] == ak);
    assert(s3[1].children_spec()[0] == bk);
    assert(s3[1].key_spec() == ak);
    assert(!s3[0].children_spec().contains(unknown));
    assert(s3[0].children_spec().contains(ak));
    assert(s3[1].children_spec().contains(bk));
    assert(travel(s3, Seq::<K>::empty()) == Some(0int));
    assert(travel(s3, seq![ak]) == Some(1int));
    assert(route.last() == bk);
}

} // verus!
