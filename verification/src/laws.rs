//! The library's stated laws: rank containment along every trie path, the
//! partition of the universe into present and leaked ranks, and the
//! insertion-order independence of the trie.

use vstd::prelude::*;

use crate::rankset::lemma_seq_diff_contains;
use crate::rankset::lemma_sorted_insert_contains;
use crate::rankset::seq_diff;
use crate::rankset::sorted_insert;
use crate::rankset::strictly_ascending;
use crate::trie::SpecNode;
use crate::trie::SpecTrie;
use crate::trie::find_key;
use crate::trie::insert_all;
use crate::trie::kids_insert;
use crate::trie::lemma_find_key_found;
use crate::trie::lemma_find_key_none;
use crate::trie::lemma_find_key_present;
use crate::trie::lemma_spec_insert_wf;
use crate::trie::lemma_sorted_insert_member;
use crate::trie::ranks_bounded;
use crate::trie::seq_subset;
use crate::trie::spec_insert;
use crate::trie::subtree_chain;
use crate::trie::trie_wf;

verus! {

/// The node reached from `n` by following `path`, one child key per step.
pub open spec fn node_at(n: SpecNode, path: Seq<Seq<u8>>) -> Option<SpecNode>
    decreases path.len(),
{
    if path.len() == 0 {
        Option::Some(n)
    } else {
        let i = find_key(n.children, path[0]);
        if i >= 0 {
            node_at(n.children[i].1, path.drop_first())
        } else {
            Option::None
        }
    }
}

/// Within a subtree whose rank sets are bounded by `u`, every reachable
/// node's rank set is bounded by `u`.
proof fn lemma_node_at_bounded(n: SpecNode, u: Seq<u32>, path: Seq<Seq<u8>>)
    requires
        ranks_bounded(n, u),
        node_at(n, path) is Some,
    ensures
        seq_subset(node_at(n, path)->0.ranks, u),
    decreases path.len(),
{
    if path.len() > 0 {
        let i = find_key(n.children, path[0]);
        lemma_find_key_found(n.children, path[0]);
        assert(ranks_bounded(n.children[i].1, u));
        lemma_node_at_bounded(n.children[i].1, u, path.drop_first());
    }
}

/// The chain property descends to every reachable node.
proof fn lemma_node_at_chain(n: SpecNode, path: Seq<Seq<u8>>)
    requires
        subtree_chain(n),
        node_at(n, path) is Some,
    ensures
        subtree_chain(node_at(n, path)->0),
    decreases path.len(),
{
    if path.len() > 0 {
        let i = find_key(n.children, path[0]);
        lemma_find_key_found(n.children, path[0]);
        assert(subtree_chain(n.children[i].1));
        lemma_node_at_chain(n.children[i].1, path.drop_first());
    }
}

/// In a well-formed trie, every node's rank set lies within the universe:
/// no node ever mentions an undeclared worker.
pub proof fn lemma_ranks_within_universe(t: SpecTrie, path: Seq<Seq<u8>>)
    requires
        trie_wf(t),
        node_at(t.root, path) is Some,
    ensures
        seq_subset(node_at(t.root, path)->0.ranks, t.universe),
{
    lemma_node_at_bounded(t.root, t.universe, path);
}

/// In a well-formed trie, rank sets only shrink while descending: below the
/// root, every child's rank set lies within its parent's. The root itself is
/// excluded: it carries no frame label and collects ranks only from empty
/// stacks, so its own rank set need not contain its children's.
pub proof fn lemma_child_ranks_within_parent(t: SpecTrie, path: Seq<Seq<u8>>, key: Seq<u8>)
    requires
        trie_wf(t),
        path.len() >= 1,
        node_at(t.root, path) is Some,
        find_key(node_at(t.root, path)->0.children, key) >= 0,
    ensures
        seq_subset(
            node_at(t.root, path)->0.children[find_key(node_at(t.root, path)->0.children, key)].1.ranks,
            node_at(t.root, path)->0.ranks,
        ),
{
    let i = find_key(t.root.children, path[0]);
    lemma_find_key_found(t.root.children, path[0]);
    assert(subtree_chain(t.root.children[i].1));
    lemma_node_at_chain(t.root.children[i].1, path.drop_first());
    let m = node_at(t.root, path)->0;
    lemma_find_key_found(m.children, key);
    assert(seq_subset(m.children[find_key(m.children, key)].1.ranks, m.ranks));
}

/// A node's present set and its leaked set split the universe exactly: they
/// are disjoint, and together they give back the whole universe.
pub proof fn lemma_present_leaked_partition(present: Seq<u32>, universe: Seq<u32>)
    requires
        seq_subset(present, universe),
    ensures
        forall|x: u32|
            !(#[trigger] present.contains(x) && seq_diff(universe, present).contains(x)),
        forall|x: u32|
            #[trigger] universe.contains(x) <==> (present.contains(x) || seq_diff(
                universe,
                present,
            ).contains(x)),
{
    assert forall|x: u32|
        !(#[trigger] present.contains(x) && seq_diff(universe, present).contains(x)) by {
        lemma_seq_diff_contains(universe, present, x);
    }
    assert forall|x: u32|
        #[trigger] universe.contains(x) <==> (present.contains(x) || seq_diff(
            universe,
            present,
        ).contains(x)) by {
        lemma_seq_diff_contains(universe, present, x);
    }
}

} // verus!

verus! {

/// Keys strictly ascending within a child list.
pub open spec fn kids_sorted(cs: Seq<(Seq<u8>, SpecNode)>) -> bool {
    forall|a: int, b: int|
        0 <= a < b < cs.len() ==> crate::bytes::bytes_lt(
            (#[trigger] cs[a]).0,
            (#[trigger] cs[b]).0,
        )
}

/// A node with one rank added to its own set.
pub open spec fn touch(m: SpecNode, rank: u32) -> SpecNode {
    SpecNode { children: m.children, is_end: m.is_end, ranks: sorted_insert(m.ranks, rank) }
}

/// One insertion, optionally preceded by adding the rank to the node itself,
/// which is how an insertion reaches the children it descends through.
pub open spec fn gen_insert(m: SpecNode, keys: Seq<Seq<u8>>, rank: u32, touched: bool) -> SpecNode {
    spec_insert(
        if touched {
            touch(m, rank)
        } else {
            m
        },
        keys,
        rank,
    )
}

/// The child under `key`, or a fresh node when there is none.
pub open spec fn child_of(cs: Seq<(Seq<u8>, SpecNode)>, key: Seq<u8>) -> SpecNode {
    if find_key(cs, key) >= 0 {
        cs[find_key(cs, key)].1
    } else {
        SpecNode::empty()
    }
}

/// Two sorted child lists with the same pairs are the same list.
proof fn lemma_kids_canonical(cs1: Seq<(Seq<u8>, SpecNode)>, cs2: Seq<(Seq<u8>, SpecNode)>)
    requires
        kids_sorted(cs1),
        kids_sorted(cs2),
        forall|p: (Seq<u8>, SpecNode)| cs1.contains(p) <==> cs2.contains(p),
    ensures
        cs1 == cs2,
    decreases cs1.len(),
{
    if cs1.len() == 0 {
        if cs2.len() > 0 {
            assert(cs2.contains(cs2[0]));
        }
        assert(cs1 =~= cs2);
    } else {
        assert(cs1.contains(cs1[0]));
        assert(cs2.contains(cs1[0]));
        let j = choose|j: int| 0 <= j < cs2.len() && cs2[j] == cs1[0];
        assert(cs2.contains(cs2[0]));
        assert(cs1.contains(cs2[0]));
        let i = choose|i: int| 0 <= i < cs1.len() && cs1[i] == cs2[0];
        if i > 0 && j > 0 {
            assert(crate::bytes::bytes_lt(cs1[0].0, cs1[i].0));
            assert(crate::bytes::bytes_lt(cs2[0].0, cs2[j].0));
            crate::bytes::lemma_bytes_lt_trichotomy(cs1[0].0, cs2[0].0);
            assert(false);
        }
        assert(cs1[0] == cs2[0]);
        let t1 = cs1.drop_first();
        let t2 = cs2.drop_first();
        assert(kids_sorted(t1)) by {
            assert(forall|a: int, b: int|
                0 <= a < b < t1.len() ==> #[trigger] t1[a] == cs1[a + 1] && #[trigger] t1[b]
                    == cs1[b + 1]);
        }
        assert(kids_sorted(t2)) by {
            assert(forall|a: int, b: int|
                0 <= a < b < t2.len() ==> #[trigger] t2[a] == cs2[a + 1] && #[trigger] t2[b]
                    == cs2[b + 1]);
        }
        assert forall|p: (Seq<u8>, SpecNode)| t1.contains(p) <==> t2.contains(p) by {
            lemma_tail_membership(cs1, p);
            lemma_tail_membership(cs2, p);
        }
        lemma_kids_canonical(t1, t2);
        assert forall|k: int| 0 <= k < cs1.len() implies cs1[k] == cs2[k] by {
            if k > 0 {
                assert(cs1[k] == t1[k - 1]);
                assert(cs2[k] == t2[k - 1]);
            }
        }
        assert(cs1 =~= cs2);
    }
}

/// Membership in the tail of a sorted child list: the pairs of the whole
/// list whose key is not the head's.
proof fn lemma_tail_membership(cs: Seq<(Seq<u8>, SpecNode)>, p: (Seq<u8>, SpecNode))
    requires
        kids_sorted(cs),
        cs.len() > 0,
    ensures
        cs.drop_first().contains(p) <==> (cs.contains(p) && p != cs[0]),
{
    let t = cs.drop_first();
    if t.contains(p) {
        let k = choose|k: int| 0 <= k < t.len() && t[k] == p;
        assert(cs[k + 1] == p);
        assert(crate::bytes::bytes_lt(cs[0].0, cs[k + 1].0));
        crate::bytes::lemma_bytes_lt_trichotomy(cs[0].0, p.0);
    }
    if cs.contains(p) && p != cs[0] {
        let k = choose|k: int| 0 <= k < cs.len() && cs[k] == p;
        assert(k > 0);
        assert(t[k - 1] == p);
    }
}

/// Membership after replacing the child under one key.
proof fn lemma_update_membership(
    cs: Seq<(Seq<u8>, SpecNode)>,
    i: int,
    x: (Seq<u8>, SpecNode),
    p: (Seq<u8>, SpecNode),
)
    requires
        kids_sorted(cs),
        0 <= i < cs.len(),
        cs[i].0 == x.0,
    ensures
        cs.update(i, x).contains(p) <==> (p == x || (cs.contains(p) && p.0 != x.0)),
{
    let r = cs.update(i, x);
    if r.contains(p) {
        let k = choose|k: int| 0 <= k < r.len() && r[k] == p;
        if k != i {
            assert(cs[k] == p);
            crate::bytes::lemma_bytes_lt_trichotomy(cs[k].0, cs[i].0);
        }
    }
    if p == x {
        assert(r[i] == p);
    }
    if cs.contains(p) && p.0 != x.0 {
        let k = choose|k: int| 0 <= k < cs.len() && cs[k] == p;
        assert(k != i);
        assert(r[k] == p);
    }
}

/// Membership after inserting a child under a fresh key.
proof fn lemma_kids_insert_membership(
    cs: Seq<(Seq<u8>, SpecNode)>,
    key: Seq<u8>,
    child: SpecNode,
    p: (Seq<u8>, SpecNode),
)
    ensures
        kids_insert(cs, key, child).contains(p) <==> (p == (key, child) || cs.contains(p)),
    decreases cs.len(),
{
    let r = kids_insert(cs, key, child);
    if cs.len() == 0 {
        if r.contains(p) {
            let k = choose|k: int| 0 <= k < r.len() && r[k] == p;
            assert(r[0] == (key, child));
        }
        if p == (key, child) {
            assert(r[0] == p);
        }
    } else if crate::bytes::bytes_lt(key, cs[0].0) {
        if r.contains(p) {
            let k = choose|k: int| 0 <= k < r.len() && r[k] == p;
            if k > 0 {
                assert(cs[k - 1] == p);
            }
        }
        if p == (key, child) {
            assert(r[0] == p);
        }
        if cs.contains(p) {
            let k = choose|k: int| 0 <= k < cs.len() && cs[k] == p;
            assert(r[k + 1] == p);
        }
    } else {
        let t = cs.drop_first();
        let rt = kids_insert(t, key, child);
        lemma_kids_insert_membership(t, key, child, p);
        if r.contains(p) {
            let k = choose|k: int| 0 <= k < r.len() && r[k] == p;
            if k == 0 {
                assert(cs[0] == p);
            } else {
                assert(rt[k - 1] == p);
                assert(rt.contains(p));
                if t.contains(p) {
                    let m = choose|m: int| 0 <= m < t.len() && t[m] == p;
                    assert(cs[m + 1] == p);
                }
            }
        }
        if p == (key, child) {
            assert(rt.contains(p));
            let k = choose|k: int| 0 <= k < rt.len() && rt[k] == p;
            assert(r[k + 1] == p);
        }
        if cs.contains(p) {
            let k = choose|k: int| 0 <= k < cs.len() && cs[k] == p;
            if k == 0 {
                assert(r[0] == p);
            } else {
                assert(t[k - 1] == p);
                assert(rt.contains(p));
                let m = choose|m: int| 0 <= m < rt.len() && rt[m] == p;
                assert(r[m + 1] == p);
            }
        }
    }
}

/// A pair present in a sorted child list is the one its key finds.
proof fn lemma_child_of_pair(cs: Seq<(Seq<u8>, SpecNode)>, key: Seq<u8>, c: SpecNode)
    requires
        kids_sorted(cs),
        cs.contains((key, c)),
    ensures
        find_key(cs, key) >= 0,
        child_of(cs, key) == c,
{
    let k = choose|k: int| 0 <= k < cs.len() && cs[k] == (key, c);
    lemma_find_key_present(cs, key, k);
    lemma_find_key_found(cs, key);
    let f = find_key(cs, key);
    if f != k {
        crate::bytes::lemma_bytes_lt_trichotomy(cs[f].0, cs[k].0);
        assert(false);
    }
}

/// The children of one insertion with a non-empty key list: the child under
/// the head key is replaced by the inserted child; all other pairs stay.
proof fn lemma_insert_children_membership(
    n: SpecNode,
    keys: Seq<Seq<u8>>,
    rank: u32,
    p: (Seq<u8>, SpecNode),
)
    requires
        n.wf(),
        keys.len() > 0,
    ensures
        spec_insert(n, keys, rank).children.contains(p) <==> (p == (
            keys[0],
            gen_insert(child_of(n.children, keys[0]), keys.drop_first(), rank, true),
        ) || (n.children.contains(p) && p.0 != keys[0])),
{
    let key = keys[0];
    let i = find_key(n.children, key);
    let child_new = gen_insert(child_of(n.children, key), keys.drop_first(), rank, true);
    assert(spec_insert(n, keys, rank).children == (if i >= 0 {
        n.children.update(i, (key, child_new))
    } else {
        kids_insert(n.children, key, child_new)
    }));
    if i >= 0 {
        lemma_find_key_found(n.children, key);
        lemma_update_membership(n.children, i, (key, child_new), p);
    } else {
        lemma_kids_insert_membership(n.children, key, child_new, p);
        if n.children.contains(p) && p.0 == key {
            let k = choose|k: int| 0 <= k < n.children.len() && n.children[k] == p;
            lemma_find_key_present(n.children, key, k);
        }
    }
}

/// `gen_insert`, field by field: the terminal flag is set exactly when the
/// key list is empty; the rank set gains the rank exactly when the node is
/// touched or terminal; the children change only for a non-empty key list,
/// and independently of the touch.
proof fn lemma_gen_parts(m: SpecNode, keys: Seq<Seq<u8>>, rank: u32, touched: bool)
    requires
        strictly_ascending(m.ranks),
    ensures
        gen_insert(m, keys, rank, touched).is_end == (m.is_end || keys.len() == 0),
        gen_insert(m, keys, rank, touched).ranks == (if touched || keys.len() == 0 {
            sorted_insert(m.ranks, rank)
        } else {
            m.ranks
        }),
        keys.len() == 0 ==> gen_insert(m, keys, rank, touched).children == m.children,
        keys.len() > 0 ==> gen_insert(m, keys, rank, touched).children == spec_insert(
            m,
            keys,
            rank,
        ).children,
{
    if touched && keys.len() == 0 {
        crate::rankset::lemma_sorted_insert_ascending(m.ranks, rank);
        lemma_sorted_insert_contains(m.ranks, rank, rank);
        lemma_sorted_insert_member(sorted_insert(m.ranks, rank), rank);
    }
}

/// A touched node stays well-formed.
proof fn lemma_touch_wf(m: SpecNode, rank: u32)
    requires
        m.wf(),
    ensures
        touch(m, rank).wf(),
{
    crate::rankset::lemma_sorted_insert_ascending(m.ranks, rank);
}

/// `gen_insert` preserves well-formedness.
proof fn lemma_gen_wf(m: SpecNode, keys: Seq<Seq<u8>>, rank: u32, touched: bool)
    requires
        m.wf(),
    ensures
        gen_insert(m, keys, rank, touched).wf(),
{
    if touched {
        lemma_touch_wf(m, rank);
        lemma_spec_insert_wf(touch(m, rank), keys, rank);
    } else {
        lemma_spec_insert_wf(m, keys, rank);
    }
}

/// The child under a key is well-formed.
proof fn lemma_child_of_wf(cs: Seq<(Seq<u8>, SpecNode)>, key: Seq<u8>, n: SpecNode)
    requires
        n.wf(),
        cs == n.children,
    ensures
        child_of(cs, key).wf(),
{
    if find_key(cs, key) >= 0 {
        lemma_find_key_found(cs, key);
        assert(n.children[find_key(cs, key)].1.wf());
    }
}

} // verus!

verus! {

/// The children produced by one insertion depend only on the node's
/// children.
proof fn lemma_insert_children_same(n1: SpecNode, n2: SpecNode, keys: Seq<Seq<u8>>, rank: u32)
    requires
        n1.children == n2.children,
        keys.len() > 0,
    ensures
        spec_insert(n1, keys, rank).children == spec_insert(n2, keys, rank).children,
{
}

/// Two insertions into one well-formed node commute, whether or not either
/// of them also deposits its rank at the node itself.
proof fn lemma_gen_commutes(
    m: SpecNode,
    k1: Seq<Seq<u8>>,
    r1: u32,
    t1: bool,
    k2: Seq<Seq<u8>>,
    r2: u32,
    t2: bool,
)
    requires
        m.wf(),
    ensures
        gen_insert(gen_insert(m, k1, r1, t1), k2, r2, t2) == gen_insert(
            gen_insert(m, k2, r2, t2),
            k1,
            r1,
            t1,
        ),
    decreases k1.len() + k2.len(),
{
    let a1 = gen_insert(m, k1, r1, t1);
    let a2 = gen_insert(m, k2, r2, t2);
    let lhs = gen_insert(a1, k2, r2, t2);
    let rhs = gen_insert(a2, k1, r1, t1);
    lemma_gen_wf(m, k1, r1, t1);
    lemma_gen_wf(m, k2, r2, t2);
    lemma_gen_wf(a1, k2, r2, t2);
    lemma_gen_wf(a2, k1, r1, t1);
    lemma_gen_parts(m, k1, r1, t1);
    lemma_gen_parts(m, k2, r2, t2);
    lemma_gen_parts(a1, k2, r2, t2);
    lemma_gen_parts(a2, k1, r1, t1);
    // the rank sets agree: at most one copy of each rank is deposited
    assert(lhs.ranks == rhs.ranks) by {
        crate::rankset::lemma_sorted_insert_commutes(m.ranks, r1, r2);
    }
    // the terminal flags agree
    assert(lhs.is_end == rhs.is_end);
    // the children agree
    if k1.len() == 0 && k2.len() == 0 {
        assert(lhs.children == m.children);
        assert(rhs.children == m.children);
    } else if k1.len() == 0 {
        lemma_insert_children_same(a1, m, k2, r2);
        assert(lhs.children == spec_insert(m, k2, r2).children);
        assert(rhs.children == a2.children);
        assert(rhs.children == spec_insert(m, k2, r2).children);
    } else if k2.len() == 0 {
        lemma_insert_children_same(a2, m, k1, r1);
        assert(rhs.children == spec_insert(m, k1, r1).children);
        assert(lhs.children == a1.children);
        assert(lhs.children == spec_insert(m, k1, r1).children);
    } else {
        let key1 = k1[0];
        let key2 = k2[0];
        let c01 = child_of(m.children, key1);
        let c02 = child_of(m.children, key2);
        lemma_child_of_wf(m.children, key1, m);
        lemma_child_of_wf(m.children, key2, m);
        let c1 = gen_insert(c01, k1.drop_first(), r1, true);
        let c2 = gen_insert(c02, k2.drop_first(), r2, true);
        // children after the first insertion of each order
        assert(a1.children == spec_insert(m, k1, r1).children);
        assert(a2.children == spec_insert(m, k2, r2).children);
        assert(lhs.children == spec_insert(a1, k2, r2).children);
        assert(rhs.children == spec_insert(a2, k1, r1).children);
        assert(kids_sorted(a1.children) && kids_sorted(a2.children) && kids_sorted(lhs.children)
            && kids_sorted(rhs.children) && kids_sorted(m.children));
        if key1 == key2 {
            // both descend into the same child
            assert((key1, c1) == (key1, c1));
            assert(a1.children.contains((key1, c1))) by {
                lemma_insert_children_membership(m, k1, r1, (key1, c1));
            }
            lemma_child_of_pair(a1.children, key1, c1);
            assert(a2.children.contains((key2, c2))) by {
                lemma_insert_children_membership(m, k2, r2, (key2, c2));
            }
            lemma_child_of_pair(a2.children, key2, c2);
            let c12 = gen_insert(c1, k2.drop_first(), r2, true);
            let c21 = gen_insert(c2, k1.drop_first(), r1, true);
            assert(c12 == gen_insert(
                gen_insert(c01, k1.drop_first(), r1, true),
                k2.drop_first(),
                r2,
                true,
            ));
            lemma_gen_commutes(c01, k1.drop_first(), r1, true, k2.drop_first(), r2, true);
            assert(c12 == c21);
            assert forall|p: (Seq<u8>, SpecNode)|
                lhs.children.contains(p) <==> rhs.children.contains(p) by {
                lemma_insert_children_membership(a1, k2, r2, p);
                lemma_insert_children_membership(a2, k1, r1, p);
                lemma_insert_children_membership(m, k1, r1, p);
                lemma_insert_children_membership(m, k2, r2, p);
            }
            lemma_kids_canonical(lhs.children, rhs.children);
        } else {
            // the two insertions touch different children
            assert(a1.children.contains((key1, c1))) by {
                lemma_insert_children_membership(m, k1, r1, (key1, c1));
            }
            assert(a2.children.contains((key2, c2))) by {
                lemma_insert_children_membership(m, k2, r2, (key2, c2));
            }
            // the child each second insertion starts from is unchanged by the first
            assert(child_of(a1.children, key2) == c02) by {
                lemma_child_same_after_other(m, k1, r1, key2);
            }
            assert(child_of(a2.children, key1) == c01) by {
                lemma_child_same_after_other(m, k2, r2, key1);
            }
            assert forall|p: (Seq<u8>, SpecNode)|
                lhs.children.contains(p) <==> rhs.children.contains(p) by {
                lemma_insert_children_membership(a1, k2, r2, p);
                lemma_insert_children_membership(a2, k1, r1, p);
                lemma_insert_children_membership(m, k1, r1, p);
                lemma_insert_children_membership(m, k2, r2, p);
                lemma_insert_children_membership(a1, k2, r2, (key1, c1));
                lemma_insert_children_membership(m, k1, r1, (key1, c1));
                lemma_insert_children_membership(a2, k1, r1, (key2, c2));
                lemma_insert_children_membership(m, k2, r2, (key2, c2));
            }
            lemma_kids_canonical(lhs.children, rhs.children);
        }
    }
    assert(lhs =~= rhs);
}

/// After inserting under one key, the child under any other key is
/// unchanged.
proof fn lemma_child_same_after_other(n: SpecNode, keys: Seq<Seq<u8>>, rank: u32, other: Seq<u8>)
    requires
        n.wf(),
        keys.len() > 0,
        keys[0] != other,
    ensures
        child_of(spec_insert(n, keys, rank).children, other) == child_of(n.children, other),
{
    let cs1 = spec_insert(n, keys, rank).children;
    lemma_spec_insert_wf(n, keys, rank);
    assert(kids_sorted(cs1));
    assert(kids_sorted(n.children));
    if find_key(n.children, other) >= 0 {
        lemma_find_key_found(n.children, other);
        let q = n.children[find_key(n.children, other)];
        assert(n.children.contains(q));
        assert(cs1.contains(q)) by {
            lemma_insert_children_membership(n, keys, rank, q);
        }
        lemma_child_of_pair(cs1, other, q.1);
        lemma_child_of_pair(n.children, other, q.1);
    } else {
        assert forall|j: int| 0 <= j < n.children.len() implies (#[trigger] n.children[j]).0
            != other by {
            if n.children[j].0 == other {
                lemma_find_key_present(n.children, other, j);
            }
        }
        assert forall|j: int| 0 <= j < cs1.len() implies (#[trigger] cs1[j]).0 != other by {
            assert(cs1.contains(cs1[j]));
            lemma_insert_children_membership(n, keys, rank, cs1[j]);
            if cs1[j].0 == other {
                if cs1[j] == (keys[0], gen_insert(
                    child_of(n.children, keys[0]),
                    keys.drop_first(),
                    rank,
                    true,
                )) {
                    assert(cs1[j].0 == keys[0]);
                } else {
                    let k = choose|k: int|
                        0 <= k < n.children.len() && n.children[k] == cs1[j];
                    lemma_find_key_present(n.children, other, k);
                }
            }
        }
        lemma_find_key_none(cs1, other);
        lemma_find_key_none(n.children, other);
    }
}

} // verus!

verus! {

/// Two insertions into a well-formed trie node commute.
pub proof fn lemma_insert_commutes(
    n: SpecNode,
    k1: Seq<Seq<u8>>,
    r1: u32,
    k2: Seq<Seq<u8>>,
    r2: u32,
)
    requires
        n.wf(),
    ensures
        spec_insert(spec_insert(n, k1, r1), k2, r2) == spec_insert(spec_insert(n, k2, r2), k1, r1),
{
    lemma_gen_commutes(n, k1, r1, false, k2, r2, false);
}

/// Any one element of a batch may be applied first.
proof fn lemma_insert_all_pull(n: SpecNode, b: Seq<(Seq<Seq<u8>>, u32)>, i: int)
    requires
        n.wf(),
        0 <= i < b.len(),
    ensures
        insert_all(n, b) == insert_all(spec_insert(n, b[i].0, b[i].1), b.remove(i)),
    decreases i,
{
    if i == 0 {
        assert(b.remove(0) =~= b.drop_first());
    } else {
        let n1 = spec_insert(n, b[0].0, b[0].1);
        lemma_spec_insert_wf(n, b[0].0, b[0].1);
        assert(b.drop_first()[i - 1] == b[i]);
        lemma_insert_all_pull(n1, b.drop_first(), i - 1);
        lemma_insert_commutes(n, b[0].0, b[0].1, b[i].0, b[i].1);
        let m = spec_insert(n, b[i].0, b[i].1);
        assert(spec_insert(n1, b[i].0, b[i].1) == spec_insert(m, b[0].0, b[0].1));
        assert(b.remove(i)[0] == b[0]);
        assert(b.remove(i).drop_first() =~= b.drop_first().remove(i - 1));
        assert(insert_all(m, b.remove(i)) == insert_all(
            spec_insert(m, b[0].0, b[0].1),
            b.remove(i).drop_first(),
        ));
    }
}

/// The built trie does not depend on the order of the insertions: any two
/// batches holding the same (stack, rank) pairs, each the same number of
/// times, build the same trie. Trie shape and every node's rank set are
/// therefore invariant under permutation of the insertion order.
pub proof fn lemma_insert_order_irrelevant(
    n: SpecNode,
    b1: Seq<(Seq<Seq<u8>>, u32)>,
    b2: Seq<(Seq<Seq<u8>>, u32)>,
)
    requires
        n.wf(),
        b1.to_multiset() == b2.to_multiset(),
    ensures
        insert_all(n, b1) == insert_all(n, b2),
    decreases b1.len(),
{
    broadcast use vstd::seq_lib::group_to_multiset_ensures;

    if b1.len() == 0 {
        assert(b2.to_multiset().len() == 0);
        assert(b2.len() == 0);
        assert(b1 =~= b2);
    } else {
        let x = b1[0];
        assert(b1.contains(x));
        assert(b1.to_multiset().contains(x));
        assert(b2.to_multiset().contains(x));
        assert(b2.contains(x));
        let j = choose|j: int| 0 <= j < b2.len() && b2[j] == x;
        lemma_insert_all_pull(n, b2, j);
        let m = spec_insert(n, x.0, x.1);
        lemma_spec_insert_wf(n, x.0, x.1);
        assert(b1.drop_first() =~= b1.remove(0));
        assert(b1.remove(0).to_multiset() == b1.to_multiset().remove(x));
        assert(b2.remove(j).to_multiset() == b2.to_multiset().remove(x));
        lemma_insert_order_irrelevant(m, b1.drop_first(), b2.remove(j));
    }
}

} // verus!
