//! The stack trie: a rooted tree keyed by canonical frame strings, each node
//! carrying the set of worker ranks whose stack passes through it.

use vstd::prelude::*;

use crate::bytes::bytes_lt;
use crate::bytes::bytes_less;
use crate::bytes::bytes_eq;
use crate::frames::views_of;
use crate::bytes::lemma_bytes_lt_trichotomy;
use crate::bytes::lemma_bytes_lt_transitive;
use crate::rankset::RankSet;
use crate::rankset::sorted_insert;
use crate::rankset::strictly_ascending;
use crate::rankset::lemma_sorted_insert_ascending;
use crate::rankset::lemma_sorted_insert_contains;
use crate::rankset::seq_diff;

verus! {

/// Mathematical model of a trie node: children ordered by key, a terminal
/// flag, and the ranks that reached the node (ascending, duplicate-free).
#[verifier::ext_equal]
pub struct SpecNode {
    pub children: Seq<(Seq<u8>, SpecNode)>,
    pub is_end: bool,
    pub ranks: Seq<u32>,
}

impl SpecNode {
    /// The empty node: no children, not terminal, no ranks.
    pub open spec fn empty() -> SpecNode {
        SpecNode { children: Seq::empty(), is_end: false, ranks: Seq::empty() }
    }

    /// Well-formed: child keys strictly ascending lexicographically, ranks
    /// strictly ascending, and every child well-formed.
    pub open spec fn wf(self) -> bool
        decreases self,
    {
        &&& crate::rankset::strictly_ascending(self.ranks)
        &&& forall|i: int, j: int|
            0 <= i < j < self.children.len() ==> bytes_lt(
                #[trigger] self.children[i].0,
                #[trigger] self.children[j].0,
            )
        &&& forall|i: int|
            0 <= i < self.children.len() ==> (#[trigger] self.children[i].1).wf()
    }
}

/// A trie node as executed: children kept sorted by key.
#[derive(Debug, PartialEq, Eq)]
pub struct TrieNode {
    children: Vec<(Vec<u8>, TrieNode)>,
    is_end_of_stack: bool,
    ranks: RankSet,
}

/// The model of a vector of keyed children.
pub closed spec fn kids_view(cs: Seq<(Vec<u8>, TrieNode)>) -> Seq<(Seq<u8>, SpecNode)>
    decreases cs,
{
    if cs.len() == 0 {
        Seq::empty()
    } else {
        seq![(cs[0].0@, cs[0].1.model())] + kids_view(cs.drop_first())
    }
}

impl TrieNode {
    /// The mathematical model of this node and its whole subtree.
    pub closed spec fn model(self) -> SpecNode
        decreases self,
    {
        SpecNode {
            children: kids_view(self.children@),
            is_end: self.is_end_of_stack,
            ranks: self.ranks@,
        }
    }
}

impl View for TrieNode {
    type V = SpecNode;

    open spec fn view(&self) -> SpecNode {
        self.model()
    }
}

/// Pointwise description of `kids_view`.
pub proof fn lemma_kids_view(cs: Seq<(Vec<u8>, TrieNode)>)
    ensures
        kids_view(cs).len() == cs.len(),
        forall|i: int|
            0 <= i < cs.len() ==> #[trigger] kids_view(cs)[i] == (cs[i].0@, cs[i].1@),
    decreases cs,
{
    if cs.len() > 0 {
        lemma_kids_view(cs.drop_first());
        assert forall|i: int| 0 <= i < cs.len() implies #[trigger] kids_view(cs)[i] == (
        cs[i].0@,
        cs[i].1@,
        ) by {
            if i > 0 {
                assert(kids_view(cs)[i] == kids_view(cs.drop_first())[i - 1]);
                assert(cs.drop_first()[i - 1] == cs[i]);
            }
        }
    }
}

impl TrieNode {
    /// A fresh node with no children, no ranks, and no terminal flag.
    pub fn new() -> (node: TrieNode)
        ensures
            node@ == SpecNode::empty(),
    {
        let node = TrieNode { children: Vec::new(), is_end_of_stack: false, ranks: RankSet::new() };
        proof {
            assert(node@ =~= SpecNode::empty());
        }
        node
    }
}

} // verus!

verus! {

/// `a` is contained in `b`, elementwise.
pub open spec fn seq_subset(a: Seq<u32>, b: Seq<u32>) -> bool {
    forall|x: u32| a.contains(x) ==> b.contains(x)
}

/// Index of `key` among the children, or -1 when absent.
pub open spec fn find_key(cs: Seq<(Seq<u8>, SpecNode)>, key: Seq<u8>) -> int
    decreases cs.len(),
{
    if cs.len() == 0 {
        -1
    } else if cs[0].0 == key {
        0
    } else {
        let r = find_key(cs.drop_first(), key);
        if r == -1 {
            -1
        } else {
            r + 1
        }
    }
}

/// A new child placed at its sorted position among the children.
pub open spec fn kids_insert(
    cs: Seq<(Seq<u8>, SpecNode)>,
    key: Seq<u8>,
    child: SpecNode,
) -> Seq<(Seq<u8>, SpecNode)>
    decreases cs.len(),
{
    if cs.len() == 0 {
        seq![(key, child)]
    } else if bytes_lt(key, cs[0].0) {
        seq![(key, child)] + cs
    } else {
        seq![cs[0]] + kids_insert(cs.drop_first(), key, child)
    }
}

/// One stack inserted into the trie below `n`: descend along `keys`, adding
/// `rank` to each child passed through (creating absent children in sorted
/// key order), and mark the node where the stack ends, adding `rank` there
/// too.
pub open spec fn spec_insert(n: SpecNode, keys: Seq<Seq<u8>>, rank: u32) -> SpecNode
    decreases keys.len(),
{
    if keys.len() == 0 {
        SpecNode { children: n.children, is_end: true, ranks: sorted_insert(n.ranks, rank) }
    } else {
        let key = keys[0];
        let i = find_key(n.children, key);
        let child_old = if i >= 0 {
            n.children[i].1
        } else {
            SpecNode::empty()
        };
        let child_mid = SpecNode {
            children: child_old.children,
            is_end: child_old.is_end,
            ranks: sorted_insert(child_old.ranks, rank),
        };
        let child_new = spec_insert(child_mid, keys.drop_first(), rank);
        SpecNode {
            children: if i >= 0 {
                n.children.update(i, (key, child_new))
            } else {
                kids_insert(n.children, key, child_new)
            },
            is_end: n.is_end,
            ranks: n.ranks,
        }
    }
}

/// A whole batch of (stack, rank) pairs inserted in order.
pub open spec fn insert_all(n: SpecNode, batch: Seq<(Seq<Seq<u8>>, u32)>) -> SpecNode
    decreases batch.len(),
{
    if batch.len() == 0 {
        n
    } else {
        insert_all(spec_insert(n, batch[0].0, batch[0].1), batch.drop_first())
    }
}

/// Every rank set in the subtree is within `u`.
pub open spec fn ranks_bounded(n: SpecNode, u: Seq<u32>) -> bool
    decreases n,
{
    &&& seq_subset(n.ranks, u)
    &&& forall|i: int|
        0 <= i < n.children.len() ==> ranks_bounded(#[trigger] n.children[i].1, u)
}

/// Below `n`, every child's rank set is within its parent's.
pub open spec fn subtree_chain(n: SpecNode) -> bool
    decreases n,
{
    forall|i: int|
        0 <= i < n.children.len() ==> seq_subset((#[trigger] n.children[i].1).ranks, n.ranks)
            && subtree_chain(n.children[i].1)
}

/// Rank containment below the root: within every child's subtree, rank sets
/// only shrink while descending. The root itself is excluded: it carries no
/// frame and collects ranks only from empty stacks.
pub open spec fn root_chain(n: SpecNode) -> bool {
    forall|i: int| 0 <= i < n.children.len() ==> subtree_chain(#[trigger] n.children[i].1)
}

/// When everything before position `i` differs from `key` and position `i`
/// holds it, `find_key` finds exactly `i`.
pub proof fn lemma_find_key_at(cs: Seq<(Seq<u8>, SpecNode)>, key: Seq<u8>, i: int)
    requires
        0 <= i < cs.len(),
        cs[i].0 == key,
        forall|j: int| 0 <= j < i ==> (#[trigger] cs[j]).0 != key,
    ensures
        find_key(cs, key) == i,
    decreases i,
{
    if i > 0 {
        lemma_find_key_at(cs.drop_first(), key, i - 1);
        assert(cs.drop_first()[i - 1] == cs[i]);
        assert(cs[0].0 != key);
    }
}

/// When no child carries `key`, `find_key` reports -1.
pub proof fn lemma_find_key_none(cs: Seq<(Seq<u8>, SpecNode)>, key: Seq<u8>)
    requires
        forall|j: int| 0 <= j < cs.len() ==> (#[trigger] cs[j]).0 != key,
    ensures
        find_key(cs, key) == -1,
    decreases cs.len(),
{
    if cs.len() > 0 {
        assert forall|j: int| 0 <= j < cs.drop_first().len() implies (#[trigger] cs.drop_first()[j]).0
            != key by {
            assert(cs.drop_first()[j] == cs[j + 1]);
        }
        lemma_find_key_none(cs.drop_first(), key);
    }
}

/// `find_key` returns a position that holds the key.
pub proof fn lemma_find_key_found(cs: Seq<(Seq<u8>, SpecNode)>, key: Seq<u8>)
    requires
        find_key(cs, key) >= 0,
    ensures
        find_key(cs, key) < cs.len(),
        cs[find_key(cs, key)].0 == key,
    decreases cs.len(),
{
    if cs.len() > 0 && cs[0].0 != key {
        lemma_find_key_found(cs.drop_first(), key);
        assert(cs.drop_first()[find_key(cs.drop_first(), key)] == cs[find_key(cs, key)]);
    }
}

/// Inserting at the position found by a sorted scan is a positional insert.
pub proof fn lemma_kids_insert_at(
    cs: Seq<(Seq<u8>, SpecNode)>,
    key: Seq<u8>,
    child: SpecNode,
    p: int,
)
    requires
        0 <= p <= cs.len(),
        forall|j: int| 0 <= j < p ==> bytes_lt((#[trigger] cs[j]).0, key),
        p < cs.len() ==> bytes_lt(key, cs[p].0),
    ensures
        kids_insert(cs, key, child) == cs.insert(p, (key, child)),
    decreases p,
{
    if cs.len() == 0 {
        assert(kids_insert(cs, key, child) =~= cs.insert(0, (key, child)));
    } else if p == 0 {
        assert(seq![(key, child)] + cs =~= cs.insert(0, (key, child)));
        lemma_bytes_lt_trichotomy(key, cs[0].0);
    } else {
        lemma_bytes_lt_trichotomy(key, cs[0].0);
        assert forall|j: int| 0 <= j < p - 1 implies bytes_lt(
            (#[trigger] cs.drop_first()[j]).0,
            key,
        ) by {
            assert(cs.drop_first()[j] == cs[j + 1]);
        }
        if p - 1 < cs.drop_first().len() {
            assert(cs.drop_first()[p - 1] == cs[p]);
        }
        lemma_kids_insert_at(cs.drop_first(), key, child, p - 1);
        assert(seq![cs[0]] + cs.drop_first().insert(p - 1, (key, child)) =~= cs.insert(
            p,
            (key, child),
        ));
    }
}

} // verus!

verus! {

/// Locates `key` among children sorted by key: either its index, or the
/// position at which it would be inserted.
fn search_children(children: &Vec<(Vec<u8>, TrieNode)>, key: &Vec<u8>) -> (r: (bool, usize))
    requires
        forall|i: int, j: int|
            0 <= i < j < kids_view(children@).len() ==> bytes_lt(
                (#[trigger] kids_view(children@)[i]).0,
                (#[trigger] kids_view(children@)[j]).0,
            ),
    ensures
        r.1 <= children@.len(),
        r.0 ==> r.1 < children@.len() && kids_view(children@)[r.1 as int].0 == key@ && find_key(
            kids_view(children@),
            key@,
        ) == r.1 as int,
        !r.0 ==> find_key(kids_view(children@), key@) == -1 && (forall|j: int|
            0 <= j < r.1 ==> bytes_lt((#[trigger] kids_view(children@)[j]).0, key@)) && (r.1
            < children@.len() ==> bytes_lt(key@, kids_view(children@)[r.1 as int].0)),
{
    let ghost cs = kids_view(children@);
    proof {
        lemma_kids_view(children@);
    }
    let n = children.len();
    let mut i: usize = 0;
    while i < n && bytes_less(&children[i].0, key)
        invariant
            0 <= i <= n,
            n == children@.len(),
            cs == kids_view(children@),
            cs.len() == n,
            forall|k: int| 0 <= k < n ==> (#[trigger] cs[k]).0 == children@[k].0@,
            forall|j: int| 0 <= j < i ==> bytes_lt((#[trigger] cs[j]).0, key@),
        decreases n - i,
    {
        i = i + 1;
    }
    if i < n && bytes_eq(&children[i].0, key) {
        proof {
            assert forall|j: int| 0 <= j < i implies (#[trigger] cs[j]).0 != key@ by {
                lemma_bytes_lt_trichotomy(cs[j].0, key@);
            }
            lemma_find_key_at(cs, key@, i as int);
        }
        (true, i)
    } else {
        proof {
            if i < n {
                lemma_bytes_lt_trichotomy(cs[i as int].0, key@);
            }
            assert forall|j: int| 0 <= j < cs.len() implies (#[trigger] cs[j]).0 != key@ by {
                lemma_bytes_lt_trichotomy(cs[j].0, key@);
                if j > i {
                    lemma_bytes_lt_transitive(key@, cs[i as int].0, cs[j].0);
                }
            }
            lemma_find_key_none(cs, key@);
        }
        (false, i)
    }
}

impl TrieNode {
    /// Adds `rank` to this node's rank set (idempotent).
    pub fn add_rank(&mut self, rank: u32)
        requires
            old(self)@.wf(),
        ensures
            final(self)@ == (SpecNode {
                ranks: sorted_insert(old(self)@.ranks, rank),
                ..old(self)@
            }),
            final(self)@.wf(),
    {
        self.ranks.insert(rank);
        proof {
            lemma_sorted_insert_ascending(old(self)@.ranks, rank);
            assert(self@ =~= (SpecNode { ranks: sorted_insert(old(self)@.ranks, rank), ..old(
                self,
            )@ }));
        }
    }

    /// Inserts the tail of `keys` that begins at `i`, attributing it to
    /// `rank`, below this node.
    fn insert_node(&mut self, keys: &Vec<Vec<u8>>, i: usize, rank: u32)
        requires
            old(self)@.wf(),
            i <= keys@.len(),
        ensures
            final(self)@ == spec_insert(
                old(self)@,
                views_of(keys@).skip(i as int),
                rank,
            ),
        decreases keys@.len() - i,
    {
        let ghost rest = views_of(keys@).skip(i as int);
        if i == keys.len() {
            self.is_end_of_stack = true;
            self.ranks.insert(rank);
            proof {
                assert(rest.len() == 0);
                assert(self@ =~= spec_insert(old(self)@, rest, rank));
            }
        } else {
            proof {
                lemma_kids_view(old(self).children@);
                assert(rest[0] == keys@[i as int]@);
                assert(rest.drop_first() =~= views_of(keys@).skip(i + 1));
                assert(old(self)@.children == kids_view(self.children@));
                assert forall|a: int, b: int|
                    0 <= a < b < kids_view(self.children@).len() implies bytes_lt(
                    (#[trigger] kids_view(self.children@)[a]).0,
                    (#[trigger] kids_view(self.children@)[b]).0,
                ) by {
                    assert(kids_view(self.children@)[a] == old(self)@.children[a]);
                    assert(kids_view(self.children@)[b] == old(self)@.children[b]);
                }
            }
            let (found, j) = search_children(&self.children, &keys[i]);
            let ghost key = keys@[i as int]@;
            let ghost cs0 = kids_view(old(self).children@);
            if found {
                let (k0, mut child) = self.children.remove(j);
                proof {
                    assert(cs0[j as int].1 == child@);
                    assert(cs0[j as int].0 == k0@);
                    assert(cs0[j as int] == old(self)@.children[j as int]);
                    assert(old(self)@.children[j as int].1.wf());
                }
                child.add_rank(rank);
                child.insert_node(keys, i + 1, rank);
                self.children.insert(j, (k0, child));
                proof {
                    lemma_kids_view(self.children@);
                    let target = spec_insert(old(self)@, rest, rank);
                    assert(kids_view(self.children@) =~= cs0.update(j as int, (key, child@)));
                    assert(self@ =~= target);
                }
            } else {
                let mut child = TrieNode::new();
                child.add_rank(rank);
                proof {
                    assert(child@.wf());
                }
                child.insert_node(keys, i + 1, rank);
                let kc = crate::bytes::clone_bytes(&keys[i]);
                self.children.insert(j, (kc, child));
                proof {
                    lemma_kids_view(self.children@);
                    lemma_kids_insert_at(cs0, key, child@, j as int);
                    let target = spec_insert(old(self)@, rest, rank);
                    assert(kids_view(self.children@) =~= cs0.insert(j as int, (key, child@)));
                    assert(self@ =~= target);
                }
            }
        }
    }
}

} // verus!

verus! {

/// A sorted insertion among children with distinct keys: one longer, still
/// sorted, and made of the old pairs plus the new one.
pub proof fn lemma_kids_insert_wf(cs: Seq<(Seq<u8>, SpecNode)>, key: Seq<u8>, child: SpecNode)
    requires
        forall|a: int, b: int|
            0 <= a < b < cs.len() ==> bytes_lt((#[trigger] cs[a]).0, (#[trigger] cs[b]).0),
        forall|j: int| 0 <= j < cs.len() ==> (#[trigger] cs[j]).0 != key,
    ensures
        kids_insert(cs, key, child).len() == cs.len() + 1,
        forall|a: int, b: int|
            0 <= a < b < kids_insert(cs, key, child).len() ==> bytes_lt(
                (#[trigger] kids_insert(cs, key, child)[a]).0,
                (#[trigger] kids_insert(cs, key, child)[b]).0,
            ),
        forall|m: int|
            0 <= m < kids_insert(cs, key, child).len() ==> (#[trigger] kids_insert(
                cs,
                key,
                child,
            )[m] == (key, child) || exists|j: int| 0 <= j < cs.len() && kids_insert(cs, key, child)[m] == #[trigger] cs[j]),
    decreases cs.len(),
{
    let r = kids_insert(cs, key, child);
    if cs.len() == 0 {
        assert(r[0] == (key, child));
    } else if bytes_lt(key, cs[0].0) {
        assert forall|a: int, b: int| 0 <= a < b < r.len() implies bytes_lt(
            (#[trigger] r[a]).0,
            (#[trigger] r[b]).0,
        ) by {
            if a == 0 {
                assert(r[b] == cs[b - 1]);
                if b > 1 {
                    lemma_bytes_lt_transitive(key, cs[0].0, cs[b - 1].0);
                }
            } else {
                assert(r[a] == cs[a - 1]);
                assert(r[b] == cs[b - 1]);
            }
        }
        assert forall|m: int| 0 <= m < r.len() implies (#[trigger] r[m] == (key, child) || exists|
            j: int,
        | 0 <= j < cs.len() && r[m] == #[trigger] cs[j]) by {
            if m > 0 {
                assert(r[m] == cs[m - 1]);
            }
        }
    } else {
        lemma_bytes_lt_trichotomy(key, cs[0].0);
        let t = cs.drop_first();
        assert forall|a: int, b: int| 0 <= a < b < t.len() implies bytes_lt(
            (#[trigger] t[a]).0,
            (#[trigger] t[b]).0,
        ) by {
            assert(t[a] == cs[a + 1]);
            assert(t[b] == cs[b + 1]);
        }
        assert forall|j: int| 0 <= j < t.len() implies (#[trigger] t[j]).0 != key by {
            assert(t[j] == cs[j + 1]);
        }
        lemma_kids_insert_wf(t, key, child);
        let rt = kids_insert(t, key, child);
        assert forall|m: int| 0 <= m < r.len() implies (#[trigger] r[m] == (key, child) || exists|
            j: int,
        | 0 <= j < cs.len() && r[m] == #[trigger] cs[j]) by {
            if m == 0 {
                assert(r[0] == cs[0]);
            } else {
                assert(r[m] == rt[m - 1]);
                if rt[m - 1] == (key, child) {
                } else {
                    let j = choose|j: int| 0 <= j < t.len() && rt[m - 1] == #[trigger] t[j];
                    assert(cs[j + 1] == t[j]);
                }
            }
        }
        assert forall|a: int, b: int| 0 <= a < b < r.len() implies bytes_lt(
            (#[trigger] r[a]).0,
            (#[trigger] r[b]).0,
        ) by {
            if a == 0 {
                assert(r[b] == rt[b - 1]);
                if rt[b - 1] == (key, child) {
                    assert(bytes_lt(cs[0].0, key));
                } else {
                    let j = choose|j: int| 0 <= j < t.len() && rt[b - 1] == #[trigger] t[j];
                    assert(t[j] == cs[j + 1]);
                    assert(bytes_lt(cs[0].0, cs[j + 1].0));
                }
            } else {
                assert(r[a] == rt[a - 1]);
                assert(r[b] == rt[b - 1]);
            }
        }
    }
}

/// Inserting preserves well-formedness of the whole subtree.
pub proof fn lemma_spec_insert_wf(n: SpecNode, keys: Seq<Seq<u8>>, rank: u32)
    requires
        n.wf(),
    ensures
        spec_insert(n, keys, rank).wf(),
    decreases keys.len(),
{
    if keys.len() == 0 {
        lemma_sorted_insert_ascending(n.ranks, rank);
    } else {
        let key = keys[0];
        let i = find_key(n.children, key);
        let child_old = if i >= 0 {
            n.children[i].1
        } else {
            SpecNode::empty()
        };
        let child_mid = SpecNode {
            children: child_old.children,
            is_end: child_old.is_end,
            ranks: sorted_insert(child_old.ranks, rank),
        };
        let child_new = spec_insert(child_mid, keys.drop_first(), rank);
        if i >= 0 {
            lemma_find_key_found(n.children, key);
            assert(0 <= i < n.children.len());
            assert((n.children[i]).1.wf());
            assert(strictly_ascending(child_old.ranks));
            lemma_sorted_insert_ascending(child_old.ranks, rank);
            assert(child_mid.wf());
            lemma_spec_insert_wf(child_mid, keys.drop_first(), rank);
            let r = spec_insert(n, keys, rank);
            assert forall|a: int, b: int| 0 <= a < b < r.children.len() implies bytes_lt(
                (#[trigger] r.children[a]).0,
                (#[trigger] r.children[b]).0,
            ) by {
                assert(r.children[a].0 == n.children[a].0);
                assert(r.children[b].0 == n.children[b].0);
            }
            assert forall|m: int| 0 <= m < r.children.len() implies (#[trigger] r.children[m]).1.wf()
                by {
                if m != i {
                    assert(r.children[m] == n.children[m]);
                }
            }
        } else {
            assert(strictly_ascending(child_mid.ranks)) by {
                lemma_sorted_insert_ascending(Seq::empty(), rank);
            }
            assert(child_mid.wf());
            lemma_spec_insert_wf(child_mid, keys.drop_first(), rank);
            assert forall|j: int| 0 <= j < n.children.len() implies (#[trigger] n.children[j]).0
                != key by {
                if n.children[j].0 == key {
                    lemma_find_key_present(n.children, key, j);
                }
            }
            lemma_kids_insert_wf(n.children, key, child_new);
            let r = spec_insert(n, keys, rank);
            assert forall|m: int| 0 <= m < r.children.len() implies (#[trigger] r.children[m]).1.wf()
                by {
                if r.children[m] == (key, child_new) {
                } else {
                    let j = choose|j: int|
                        0 <= j < n.children.len() && r.children[m] == #[trigger] n.children[j];
                }
            }
        }
    }
}

/// A present key is found.
pub proof fn lemma_find_key_present(cs: Seq<(Seq<u8>, SpecNode)>, key: Seq<u8>, j: int)
    requires
        0 <= j < cs.len(),
        cs[j].0 == key,
    ensures
        find_key(cs, key) >= 0,
    decreases cs.len(),
{
    if cs[0].0 != key {
        assert(cs.drop_first()[j - 1] == cs[j]);
        lemma_find_key_present(cs.drop_first(), key, j - 1);
    }
}

} // verus!

verus! {

/// Inserting a rank drawn from `u` keeps every rank set within `u`.
pub proof fn lemma_spec_insert_bounded(n: SpecNode, keys: Seq<Seq<u8>>, rank: u32, u: Seq<u32>)
    requires
        ranks_bounded(n, u),
        u.contains(rank),
    ensures
        ranks_bounded(spec_insert(n, keys, rank), u),
    decreases keys.len(),
{
    if keys.len() == 0 {
        assert forall|x: u32| sorted_insert(n.ranks, rank).contains(x) implies u.contains(x) by {
            lemma_sorted_insert_contains(n.ranks, rank, x);
        }
    } else {
        let key = keys[0];
        let i = find_key(n.children, key);
        let child_old = if i >= 0 {
            n.children[i].1
        } else {
            SpecNode::empty()
        };
        let child_mid = SpecNode {
            children: child_old.children,
            is_end: child_old.is_end,
            ranks: sorted_insert(child_old.ranks, rank),
        };
        let child_new = spec_insert(child_mid, keys.drop_first(), rank);
        if i >= 0 {
            lemma_find_key_found(n.children, key);
            assert(ranks_bounded(n.children[i].1, u));
        }
        assert(ranks_bounded(child_mid, u)) by {
            assert forall|x: u32| sorted_insert(child_old.ranks, rank).contains(x) implies u.contains(
                x,
            ) by {
                lemma_sorted_insert_contains(child_old.ranks, rank, x);
            }
        }
        lemma_spec_insert_bounded(child_mid, keys.drop_first(), rank, u);
        let r = spec_insert(n, keys, rank);
        if i >= 0 {
            assert forall|m: int| 0 <= m < r.children.len() implies ranks_bounded(
                #[trigger] r.children[m].1,
                u,
            ) by {
                if m != i {
                    assert(r.children[m] == n.children[m]);
                }
            }
        } else {
            lemma_kids_insert_elements(n.children, key, child_new);
            assert forall|m: int| 0 <= m < r.children.len() implies ranks_bounded(
                #[trigger] r.children[m].1,
                u,
            ) by {
                if r.children[m] == (key, child_new) {
                } else {
                    let j = choose|j: int|
                        0 <= j < n.children.len() && r.children[m] == #[trigger] n.children[j];
                }
            }
        }
    }
}

/// The pairs after a sorted insertion: the old pairs plus the new one.
pub proof fn lemma_kids_insert_elements(cs: Seq<(Seq<u8>, SpecNode)>, key: Seq<u8>, child: SpecNode)
    ensures
        kids_insert(cs, key, child).len() == cs.len() + 1,
        forall|m: int|
            0 <= m < kids_insert(cs, key, child).len() ==> (#[trigger] kids_insert(
                cs,
                key,
                child,
            )[m] == (key, child) || exists|j: int| 0 <= j < cs.len() && kids_insert(cs, key, child)[m] == #[trigger] cs[j]),
    decreases cs.len(),
{
    let r = kids_insert(cs, key, child);
    if cs.len() == 0 {
        assert(r[0] == (key, child));
    } else if bytes_lt(key, cs[0].0) {
        assert forall|m: int| 0 <= m < r.len() implies (#[trigger] r[m] == (key, child) || exists|
            j: int,
        | 0 <= j < cs.len() && r[m] == #[trigger] cs[j]) by {
            if m > 0 {
                assert(r[m] == cs[m - 1]);
            }
        }
    } else {
        let t = cs.drop_first();
        lemma_kids_insert_elements(t, key, child);
        let rt = kids_insert(t, key, child);
        assert forall|m: int| 0 <= m < r.len() implies (#[trigger] r[m] == (key, child) || exists|
            j: int,
        | 0 <= j < cs.len() && r[m] == #[trigger] cs[j]) by {
            if m == 0 {
                assert(r[0] == cs[0]);
            } else {
                assert(r[m] == rt[m - 1]);
                if rt[m - 1] != (key, child) {
                    let j = choose|j: int| 0 <= j < t.len() && rt[m - 1] == #[trigger] t[j];
                    assert(cs[j + 1] == t[j]);
                }
            }
        }
    }
}

/// Inserting into a node that already carries the rank keeps the descending
/// rank-set chain and leaves the node's own rank set unchanged.
pub proof fn lemma_spec_insert_chain(n: SpecNode, keys: Seq<Seq<u8>>, rank: u32)
    requires
        n.wf(),
        subtree_chain(n),
        n.ranks.contains(rank),
    ensures
        subtree_chain(spec_insert(n, keys, rank)),
        spec_insert(n, keys, rank).ranks == n.ranks,
    decreases keys.len(),
{
    if keys.len() == 0 {
        lemma_sorted_insert_member(n.ranks, rank);
    } else {
        let key = keys[0];
        let i = find_key(n.children, key);
        let child_old = if i >= 0 {
            n.children[i].1
        } else {
            SpecNode::empty()
        };
        let child_mid = SpecNode {
            children: child_old.children,
            is_end: child_old.is_end,
            ranks: sorted_insert(child_old.ranks, rank),
        };
        let child_new = spec_insert(child_mid, keys.drop_first(), rank);
        if i >= 0 {
            lemma_find_key_found(n.children, key);
            assert(n.children[i].1.wf());
            assert(subtree_chain(n.children[i].1) && seq_subset(n.children[i].1.ranks, n.ranks));
        }
        assert(child_mid.wf()) by {
            lemma_sorted_insert_ascending(child_old.ranks, rank);
        }
        assert(subtree_chain(child_mid)) by {
            assert forall|m: int| 0 <= m < child_mid.children.len() implies seq_subset(
                (#[trigger] child_mid.children[m].1).ranks,
                child_mid.ranks,
            ) && subtree_chain(child_mid.children[m].1) by {
                assert(child_old.children[m] == child_mid.children[m]);
                assert(seq_subset(child_old.children[m].1.ranks, child_old.ranks));
                assert forall|x: u32| child_old.ranks.contains(x) implies child_mid.ranks.contains(
                    x,
                ) by {
                    lemma_sorted_insert_contains(child_old.ranks, rank, x);
                }
            }
        }
        assert(child_mid.ranks.contains(rank)) by {
            lemma_sorted_insert_contains(child_old.ranks, rank, rank);
        }
        lemma_spec_insert_chain(child_mid, keys.drop_first(), rank);
        let r = spec_insert(n, keys, rank);
        assert(seq_subset(child_new.ranks, n.ranks)) by {
            assert(child_new.ranks == child_mid.ranks);
            assert forall|x: u32| child_mid.ranks.contains(x) implies n.ranks.contains(x) by {
                lemma_sorted_insert_contains(child_old.ranks, rank, x);
            }
        }
        if i >= 0 {
            assert forall|m: int| 0 <= m < r.children.len() implies seq_subset(
                (#[trigger] r.children[m].1).ranks,
                r.ranks,
            ) && subtree_chain(r.children[m].1) by {
                if m != i {
                    assert(r.children[m] == n.children[m]);
                }
            }
        } else {
            lemma_kids_insert_elements(n.children, key, child_new);
            assert forall|m: int| 0 <= m < r.children.len() implies seq_subset(
                (#[trigger] r.children[m].1).ranks,
                r.ranks,
            ) && subtree_chain(r.children[m].1) by {
                if r.children[m] == (key, child_new) {
                } else {
                    let j = choose|j: int|
                        0 <= j < n.children.len() && r.children[m] == #[trigger] n.children[j];
                }
            }
        }
    }
}

/// Inserting an element already present in an ascending sequence changes
/// nothing.
pub proof fn lemma_sorted_insert_member(s: Seq<u32>, x: u32)
    requires
        strictly_ascending(s),
        s.contains(x),
    ensures
        sorted_insert(s, x) == s,
{
    let i = choose|i: int| 0 <= i < s.len() && s[i] == x;
    assert forall|k: int| 0 <= k < i implies s[k] < x by {
        assert(s[k] < s[i]);
    }
    crate::rankset::lemma_sorted_insert_found_public(s, x, i);
}

/// Inserting below the root keeps the whole trie invariant: well-formed,
/// rank sets within the universe, and the chain below every root child.
pub proof fn lemma_root_insert(n: SpecNode, keys: Seq<Seq<u8>>, rank: u32, u: Seq<u32>)
    requires
        n.wf(),
        ranks_bounded(n, u),
        root_chain(n),
        u.contains(rank),
    ensures
        spec_insert(n, keys, rank).wf(),
        ranks_bounded(spec_insert(n, keys, rank), u),
        root_chain(spec_insert(n, keys, rank)),
{
    lemma_spec_insert_wf(n, keys, rank);
    lemma_spec_insert_bounded(n, keys, rank, u);
    let r = spec_insert(n, keys, rank);
    if keys.len() == 0 {
        assert forall|m: int| 0 <= m < r.children.len() implies subtree_chain(
            #[trigger] r.children[m].1,
        ) by {
            assert(r.children[m] == n.children[m]);
        }
    } else {
        let key = keys[0];
        let i = find_key(n.children, key);
        let child_old = if i >= 0 {
            n.children[i].1
        } else {
            SpecNode::empty()
        };
        let child_mid = SpecNode {
            children: child_old.children,
            is_end: child_old.is_end,
            ranks: sorted_insert(child_old.ranks, rank),
        };
        let child_new = spec_insert(child_mid, keys.drop_first(), rank);
        if i >= 0 {
            lemma_find_key_found(n.children, key);
            assert(n.children[i].1.wf());
            assert(subtree_chain(n.children[i].1));
        }
        assert(child_mid.wf()) by {
            lemma_sorted_insert_ascending(child_old.ranks, rank);
        }
        assert(subtree_chain(child_mid)) by {
            assert forall|m: int| 0 <= m < child_mid.children.len() implies seq_subset(
                (#[trigger] child_mid.children[m].1).ranks,
                child_mid.ranks,
            ) && subtree_chain(child_mid.children[m].1) by {
                assert(child_old.children[m] == child_mid.children[m]);
                assert(seq_subset(child_old.children[m].1.ranks, child_old.ranks));
                assert forall|x: u32| child_old.ranks.contains(x) implies child_mid.ranks.contains(
                    x,
                ) by {
                    lemma_sorted_insert_contains(child_old.ranks, rank, x);
                }
            }
        }
        assert(child_mid.ranks.contains(rank)) by {
            lemma_sorted_insert_contains(child_old.ranks, rank, rank);
        }
        lemma_spec_insert_chain(child_mid, keys.drop_first(), rank);
        if i >= 0 {
            assert forall|m: int| 0 <= m < r.children.len() implies subtree_chain(
                #[trigger] r.children[m].1,
            ) by {
                if m != i {
                    assert(r.children[m] == n.children[m]);
                }
            }
        } else {
            lemma_kids_insert_elements(n.children, key, child_new);
            assert forall|m: int| 0 <= m < r.children.len() implies subtree_chain(
                #[trigger] r.children[m].1,
            ) by {
                if r.children[m] == (key, child_new) {
                } else {
                    let j = choose|j: int|
                        0 <= j < n.children.len() && r.children[m] == #[trigger] n.children[j];
                }
            }
        }
    }
}

} // verus!

verus! {

/// Mathematical model of a whole trie: its root and the fixed universe of
/// worker ranks.
#[verifier::ext_equal]
pub struct SpecTrie {
    pub root: SpecNode,
    pub universe: Seq<u32>,
}

/// The trie invariant: a well-formed root, an ascending universe, every rank
/// set within the universe, and, below each root child, rank sets that only
/// shrink while descending.
pub open spec fn trie_wf(t: SpecTrie) -> bool {
    &&& t.root.wf()
    &&& strictly_ascending(t.universe)
    &&& ranks_bounded(t.root, t.universe)
    &&& root_chain(t.root)
}

/// The ascending duplicate-free sequence carrying the same values as `s`.
pub open spec fn ranks_from(s: Seq<u32>) -> Seq<u32>
    decreases s.len(),
{
    if s.len() == 0 {
        Seq::empty()
    } else {
        sorted_insert(ranks_from(s.drop_last()), s.last())
    }
}

/// The rank annotation of a node: `@<present>|<leaked>` with both sets in
/// compressed range form, the leaked set being the universe minus the
/// present set.
pub open spec fn annotation(present: Seq<u32>, universe: Seq<u32>) -> Seq<u8> {
    seq![crate::ranges::AT_SIGN] + crate::ranges::compress(present) + seq![crate::ranges::PIPE]
        + crate::ranges::compress(seq_diff(universe, present))
}

/// A trie for merging per-worker stacks: the root node and the universe of
/// all known worker ranks, fixed at construction.
#[derive(Debug, PartialEq, Eq)]
pub struct StackTrie {
    root: TrieNode,
    all_ranks: RankSet,
}

impl View for StackTrie {
    type V = SpecTrie;

    closed spec fn view(&self) -> SpecTrie {
        SpecTrie { root: self.root.model(), universe: self.all_ranks@ }
    }
}

impl StackTrie {
    /// An empty trie over the universe given by `all_ranks` (duplicates
    /// collapse; order is irrelevant).
    pub fn new(all_ranks: Vec<u32>) -> (t: StackTrie)
        ensures
            t@.root == SpecNode::empty(),
            t@.universe == ranks_from(all_ranks@),
            trie_wf(t@),
    {
        let n = all_ranks.len();
        let mut u = RankSet::new();
        let mut i: usize = 0;
        proof {
            assert(all_ranks@.take(0) =~= Seq::<u32>::empty());
        }
        while i < n
            invariant
                0 <= i <= n,
                n == all_ranks@.len(),
                u@ == ranks_from(all_ranks@.take(i as int)),
                u.wf(),
            decreases n - i,
        {
            u.insert(all_ranks[i]);
            proof {
                assert(all_ranks@.take(i + 1).drop_last() =~= all_ranks@.take(i as int));
                assert(all_ranks@.take(i + 1).last() == all_ranks@[i as int]);
            }
            i = i + 1;
        }
        proof {
            assert(all_ranks@.take(n as int) =~= all_ranks@);
        }
        let t = StackTrie { root: TrieNode::new(), all_ranks: u };
        proof {
            assert(t@.root == SpecNode::empty());
        }
        t
    }

    /// Inserts one worker's normalized stack: each key in root-first order
    /// descends one level, collecting `rank`; the node where the stack ends
    /// is marked terminal. Inserting the same worker twice changes nothing
    /// beyond the first insertion's effect on the terminal flag and sets.
    pub fn insert(&mut self, stack: &Vec<Vec<u8>>, rank: u32)
        requires
            trie_wf(old(self)@),
            old(self)@.universe.contains(rank),
        ensures
            final(self)@.root == spec_insert(old(self)@.root, views_of(stack@), rank),
            final(self)@.universe == old(self)@.universe,
            trie_wf(final(self)@),
    {
        proof {
            assert(views_of(stack@).skip(0) =~= views_of(stack@));
        }
        self.root.insert_node(stack, 0, rank);
        proof {
            lemma_root_insert(
                old(self)@.root,
                views_of(stack@),
                rank,
                old(self)@.universe,
            );
        }
    }

    /// Renders the rank annotation `@<present>|<leaked>` of a rank set
    /// against this trie's universe.
    pub fn format_rank_str(&self, ranks: &RankSet) -> (out: Vec<u8>)
        requires
            ranks.wf(),
            strictly_ascending(self@.universe),
        ensures
            out@ == annotation(ranks@, self@.universe),
    {
        let mut out: Vec<u8> = Vec::new();
        out.push(crate::ranges::AT_SIGN);
        let present = crate::ranges::compress_ranges(ranks.as_vec());
        crate::bytes::append_bytes(&mut out, &present);
        out.push(crate::ranges::PIPE);
        let leaked_set = self.all_ranks.difference(ranks);
        let leaked = crate::ranges::compress_ranges(leaked_set.as_vec());
        crate::bytes::append_bytes(&mut out, &leaked);
        proof {
            assert(out@ =~= annotation(ranks@, self@.universe));
        }
        out
    }
}

} // verus!

verus! {

/// The label a child contributes to a path: its key followed by its rank
/// annotation.
pub open spec fn label_of(c: (Seq<u8>, SpecNode), u: Seq<u32>) -> Seq<u8> {
    c.0 + annotation(c.1.ranks, u)
}

/// The records of a pre-order traversal below `n`, children in key order:
/// one record per terminal node, carrying the annotated labels from the root
/// to that node and the node's own annotation.
pub open spec fn spec_records(n: SpecNode, labels: Seq<Seq<u8>>, u: Seq<u32>) -> Seq<
    (Seq<Seq<u8>>, Seq<u8>),
>
    decreases n,
{
    (if n.is_end {
        seq![(labels, annotation(n.ranks, u))]
    } else {
        Seq::empty()
    }) + kids_records(n.children, labels, u)
}

/// The traversal records of a sequence of children, in order.
pub open spec fn kids_records(
    cs: Seq<(Seq<u8>, SpecNode)>,
    labels: Seq<Seq<u8>>,
    u: Seq<u32>,
) -> Seq<(Seq<Seq<u8>>, Seq<u8>)>
    decreases cs,
{
    if cs.len() == 0 {
        Seq::empty()
    } else {
        spec_records(cs[0].1, labels.push(label_of(cs[0], u)), u) + kids_records(
            cs.drop_first(),
            labels,
            u,
        )
    }
}

/// Number of nodes in the subtree rooted at `n`.
pub open spec fn node_size(n: SpecNode) -> nat
    decreases n,
{
    1 + kids_size(n.children)
}

/// Number of nodes in the subtrees of a sequence of children.
pub open spec fn kids_size(cs: Seq<(Seq<u8>, SpecNode)>) -> nat
    decreases cs,
{
    if cs.len() == 0 {
        0
    } else {
        node_size(cs[0].1) + kids_size(cs.drop_first())
    }
}

/// The view of a traversal record list.
pub open spec fn records_view(v: Seq<(Vec<Vec<u8>>, Vec<u8>)>) -> Seq<(Seq<Seq<u8>>, Seq<u8>)> {
    v.map_values(|p: (Vec<Vec<u8>>, Vec<u8>)| (views_of(p.0@), p.1@))
}

/// The records still owed by a traversal work list (top of the stack first).
pub open spec fn stack_records(st: Seq<(&TrieNode, Vec<Vec<u8>>)>, u: Seq<u32>) -> Seq<
    (Seq<Seq<u8>>, Seq<u8>),
>
    decreases st.len(),
{
    if st.len() == 0 {
        Seq::empty()
    } else {
        spec_records(st.last().0@, views_of(st.last().1@), u) + stack_records(st.drop_last(), u)
    }
}

/// The node count still on a traversal work list.
pub open spec fn stack_size(st: Seq<(&TrieNode, Vec<Vec<u8>>)>) -> nat
    decreases st.len(),
{
    if st.len() == 0 {
        0
    } else {
        node_size(st.last().0@) + stack_size(st.drop_last())
    }
}

/// A fresh copy of a label list.
fn clone_keys(v: &Vec<Vec<u8>>) -> (r: Vec<Vec<u8>>)
    ensures
        views_of(r@) == views_of(v@),
{
    let n = v.len();
    let mut r: Vec<Vec<u8>> = Vec::new();
    let mut i: usize = 0;
    while i < n
        invariant
            0 <= i <= n,
            n == v@.len(),
            views_of(r@) =~= views_of(v@).take(i as int),
        decreases n - i,
    {
        let ghost prev = r@;
        r.push(crate::bytes::clone_bytes(&v[i]));
        proof {
            assert(views_of(r@) =~= views_of(prev).push(v@[i as int]@));
            assert(views_of(v@).take(i as int).push(views_of(v@)[i as int]) =~= views_of(
                v@,
            ).take(i + 1));
        }
        i = i + 1;
    }
    proof {
        assert(views_of(v@).take(n as int) =~= views_of(v@));
    }
    r
}

impl StackTrie {
    /// Walks the trie depth-first in key order with an explicit work list
    /// (no recursion) and returns one record per terminal node: the
    /// annotated labels from the root down to it, and its own annotation.
    /// The output is a deterministic function of the trie alone.
    pub fn traverse_with_all_stack(&self) -> (out: Vec<(Vec<Vec<u8>>, Vec<u8>)>)
        requires
            trie_wf(self@),
        ensures
            records_view(out@) == spec_records(self@.root, Seq::empty(), self@.universe),
    {
        let ghost u = self@.universe;
        let ghost total = spec_records(self@.root, Seq::empty(), u);
        let mut out: Vec<(Vec<Vec<u8>>, Vec<u8>)> = Vec::new();
        let mut stack: Vec<(&TrieNode, Vec<Vec<u8>>)> = Vec::new();
        let root_labels: Vec<Vec<u8>> = Vec::new();
        stack.push((&self.root, root_labels));
        proof {
            assert(stack@.drop_last() =~= Seq::<(&TrieNode, Vec<Vec<u8>>)>::empty());
            assert(stack@.last() == (&self.root, root_labels));
            assert(self@.root == self.root@);
            assert(views_of(root_labels@) =~= Seq::<Seq<u8>>::empty());
            assert(stack_records(stack@, u) == spec_records(self@.root, views_of(root_labels@), u)
                + stack_records(stack@.drop_last(), u));
            assert(records_view(out@) =~= Seq::<(Seq<Seq<u8>>, Seq<u8>)>::empty());
            assert(records_view(out@) + stack_records(stack@, u) =~= total);
        }
        while stack.len() > 0
            invariant
                trie_wf(self@),
                u == self@.universe,
                total == spec_records(self@.root, Seq::empty(), u),
                records_view(out@) + stack_records(stack@, u) == total,
                forall|k: int| 0 <= k < stack@.len() ==> (#[trigger] stack@[k].0)@.wf(),
            decreases stack_size(stack@),
        {
            let ghost st0 = stack@;
            let (node, labels) = stack.pop().unwrap();
            proof {
                assert(st0.last() == (node, labels));
                assert(stack@ =~= st0.drop_last());
                assert(st0[st0.len() - 1].0@.wf());
            }
            let ghost rec_here = spec_records(node@, views_of(labels@), u);
            let ghost rem = stack_records(stack@, u);
            let ghost out0 = out@;
            proof {
                assert(stack_size(st0) == node_size(node@) + stack_size(st0.drop_last()));
            }
            if node.is_end_of_stack {
                let rec_labels = clone_keys(&labels);
                let ann = self.format_rank_str(&node.ranks);
                let ghost prev_out = out@;
                out.push((rec_labels, ann));
                proof {
                    assert(records_view(out@) =~= records_view(prev_out).push(
                        (views_of(labels@), annotation(node@.ranks, u)),
                    ));
                }
            }
            let ghost cs = kids_view(node.children@);
            proof {
                lemma_kids_view(node.children@);
                assert(node@.children == cs);
            }
            let n_kids = node.children.len();
            let mut idx: usize = n_kids;
            proof {
                assert(cs.skip(n_kids as int) =~= Seq::<(Seq<u8>, SpecNode)>::empty());
            }
            while idx > 0
                invariant
                    0 <= idx <= n_kids,
                    n_kids == node.children@.len(),
                    trie_wf(self@),
                    u == self@.universe,
                    node@.wf(),
                    cs == kids_view(node.children@),
                    cs == node@.children,
                    cs.len() == n_kids,
                    stack_records(stack@, u) == kids_records(
                        cs.skip(idx as int),
                        views_of(labels@),
                        u,
                    ) + rem,
                    stack_size(stack@) == kids_size(cs.skip(idx as int)) + stack_size(
                        st0.drop_last(),
                    ),
                    forall|k: int| 0 <= k < stack@.len() ==> (#[trigger] stack@[k].0)@.wf(),
                decreases idx,
            {
                idx = idx - 1;
                let child = &node.children[idx];
                proof {
                    lemma_kids_view(node.children@);
                    assert(cs[idx as int] == (child.0@, child.1@));
                    assert(node@.children[idx as int].1.wf());
                }
                let mut lbl = clone_keys(&labels);
                let mut one = crate::bytes::clone_bytes(&child.0);
                let ann = self.format_rank_str(&child.1.ranks);
                crate::bytes::append_bytes(&mut one, &ann);
                lbl.push(one);
                let ghost st1 = stack@;
                stack.push((&child.1, lbl));
                proof {
                    assert(stack@.drop_last() =~= st1);
                    assert(stack@.last() == (&child.1, lbl));
                    assert(views_of(lbl@) =~= views_of(labels@).push(label_of(cs[idx as int], u)));
                    assert(cs.skip(idx as int)[0] == cs[idx as int]);
                    assert(cs.skip(idx as int).drop_first() =~= cs.skip(idx + 1));
                    assert(stack_records(stack@, u) == spec_records(
                        child.1@,
                        views_of(lbl@),
                        u,
                    ) + stack_records(st1, u));
                }
            }
            proof {
                assert(cs.skip(0) =~= cs);
                assert(stack_records(stack@, u) == kids_records(cs, views_of(labels@), u) + rem);
                assert(rec_here == (if node@.is_end {
                    seq![(views_of(labels@), annotation(node@.ranks, u))]
                } else {
                    Seq::<(Seq<Seq<u8>>, Seq<u8>)>::empty()
                }) + kids_records(cs, views_of(labels@), u));
                assert(total == records_view(out0) + (rec_here + rem));
                if node@.is_end {
                    assert(records_view(out@) =~= records_view(out0).push(
                        (views_of(labels@), annotation(node@.ranks, u)),
                    ));
                    assert(records_view(out@) + stack_records(stack@, u) =~= records_view(out0) + (
                    rec_here + rem));
                } else {
                    assert(records_view(out@) + stack_records(stack@, u) =~= records_view(out0) + (
                    rec_here + rem));
                }
                assert(node_size(node@) == 1 + kids_size(node@.children));
            }
        }
        proof {
            assert(stack_records(stack@, u) =~= Seq::<(Seq<Seq<u8>>, Seq<u8>)>::empty());
            assert(records_view(out@) + Seq::<(Seq<Seq<u8>>, Seq<u8>)>::empty() =~= records_view(
                out@,
            ));
        }
        out
    }
}

} // verus!

verus! {

impl TrieNode {
    /// Whether some worker's stack terminates exactly at this node.
    pub fn is_end(&self) -> (b: bool)
        ensures
            b == self@.is_end,
    {
        self.is_end_of_stack
    }

    /// The ranks whose stacks pass through this node, ascending.
    pub fn ranks(&self) -> (r: &RankSet)
        ensures
            r@ == self@.ranks,
    {
        &self.ranks
    }

    /// Number of children.
    pub fn child_count(&self) -> (n: usize)
        ensures
            n == self@.children.len(),
    {
        proof {
            lemma_kids_view(self.children@);
        }
        self.children.len()
    }

    /// The child under `key`, when there is one.
    pub fn child(&self, key: &Vec<u8>) -> (r: Option<&TrieNode>)
        requires
            self@.wf(),
        ensures
            match r {
                Option::Some(c) => find_key(self@.children, key@) >= 0 && c@
                    == self@.children[find_key(self@.children, key@)].1,
                Option::None => find_key(self@.children, key@) == -1,
            },
    {
        proof {
            lemma_kids_view(self.children@);
            assert forall|a: int, b: int|
                0 <= a < b < kids_view(self.children@).len() implies bytes_lt(
                (#[trigger] kids_view(self.children@)[a]).0,
                (#[trigger] kids_view(self.children@)[b]).0,
            ) by {
                assert(kids_view(self.children@)[a] == self@.children[a]);
                assert(kids_view(self.children@)[b] == self@.children[b]);
            }
        }
        let (found, j) = search_children(&self.children, key);
        if found {
            Option::Some(&self.children[j].1)
        } else {
            Option::None
        }
    }
}

impl StackTrie {
    /// The root node.
    pub fn root(&self) -> (r: &TrieNode)
        ensures
            r@ == self@.root,
    {
        &self.root
    }

    /// The universe of declared worker ranks, ascending.
    pub fn all_ranks(&self) -> (r: &RankSet)
        ensures
            r@ == self@.universe,
    {
        &self.all_ranks
    }
}

} // verus!
