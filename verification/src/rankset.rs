//! An ordered set of worker ranks: a strictly ascending vector of ids,
//! offering insertion, membership, difference, and sorted iteration.

use vstd::prelude::*;

verus! {

/// True when `s` is strictly ascending, hence sorted and duplicate-free.
pub open spec fn strictly_ascending(s: Seq<u32>) -> bool {
    forall|i: int, j: int| 0 <= i < j < s.len() ==> s[i] < s[j]
}

/// `x` placed at its sorted position in `s`; `s` unchanged when `x` is
/// already present. For ascending `s` the result is ascending.
pub open spec fn sorted_insert(s: Seq<u32>, x: u32) -> Seq<u32>
    decreases s.len(),
{
    if s.len() == 0 {
        seq![x]
    } else if x < s[0] {
        seq![x] + s
    } else if x == s[0] {
        s
    } else {
        seq![s[0]] + sorted_insert(s.drop_first(), x)
    }
}

/// The elements of `u` that are not in `r`, in the order they have in `u`.
pub open spec fn seq_diff(u: Seq<u32>, r: Seq<u32>) -> Seq<u32>
    decreases u.len(),
{
    if u.len() == 0 {
        Seq::empty()
    } else if r.contains(u[0]) {
        seq_diff(u.drop_first(), r)
    } else {
        seq![u[0]] + seq_diff(u.drop_first(), r)
    }
}

/// Membership in a sequence with one element placed in front.
pub proof fn lemma_cons_contains(a: u32, s: Seq<u32>, y: u32)
    ensures
        (seq![a] + s).contains(y) <==> (y == a || s.contains(y)),
{
    let t = seq![a] + s;
    if y == a {
        assert(t[0] == y);
    }
    if s.contains(y) {
        let i = choose|i: int| 0 <= i < s.len() && s[i] == y;
        assert(t[i + 1] == y);
    }
    if t.contains(y) {
        let i = choose|i: int| 0 <= i < t.len() && t[i] == y;
        if i > 0 {
            assert(s[i - 1] == y);
        }
    }
}

/// Membership in `sorted_insert(s, x)`: exactly the old elements plus `x`.
pub proof fn lemma_sorted_insert_contains(s: Seq<u32>, x: u32, y: u32)
    ensures
        sorted_insert(s, x).contains(y) <==> (s.contains(y) || y == x),
    decreases s.len(),
{
    if s.len() == 0 {
        lemma_cons_contains(x, Seq::empty(), y);
        assert(seq![x] + Seq::<u32>::empty() =~= seq![x]);
    } else if x < s[0] {
        lemma_cons_contains(x, s, y);
    } else if x == s[0] {
        if y == x {
            assert(s[0] == y);
        }
    } else {
        lemma_sorted_insert_contains(s.drop_first(), x, y);
        lemma_cons_contains(s[0], s.drop_first(), y);
        lemma_cons_contains(s[0], sorted_insert(s.drop_first(), x), y);
        assert(seq![s[0]] + s.drop_first() =~= s);
    }
}

/// `sorted_insert` keeps the sequence strictly ascending.
pub proof fn lemma_sorted_insert_ascending(s: Seq<u32>, x: u32)
    requires
        strictly_ascending(s),
    ensures
        strictly_ascending(sorted_insert(s, x)),
    decreases s.len(),
{
    if s.len() == 0 {
    } else if x < s[0] {
        let t = seq![x] + s;
        assert forall|i: int, j: int| 0 <= i < j < t.len() implies t[i] < t[j] by {
            if i > 0 {
                assert(t[i] == s[i - 1] && t[j] == s[j - 1]);
            }
        }
    } else if x == s[0] {
    } else {
        assert(strictly_ascending(s.drop_first())) by {
            assert(forall|i: int, j: int|
                0 <= i < j < s.drop_first().len() ==> #[trigger] s.drop_first()[i] == s[i + 1]
                    && #[trigger] s.drop_first()[j] == s[j + 1]);
        }
        lemma_sorted_insert_ascending(s.drop_first(), x);
        let u = sorted_insert(s.drop_first(), x);
        let t = seq![s[0]] + u;
        assert forall|y: u32| u.contains(y) implies y > s[0] by {
            lemma_sorted_insert_contains(s.drop_first(), x, y);
            if s.drop_first().contains(y) {
                let i = choose|i: int|
                    0 <= i < s.drop_first().len() && s.drop_first()[i] == y;
                assert(s[i + 1] == y);
            }
        }
        assert forall|i: int, j: int| 0 <= i < j < t.len() implies t[i] < t[j] by {
            if i == 0 {
                assert(u.contains(t[j])) by {
                    assert(t[j] == u[j - 1]);
                }
            } else {
                assert(t[i] == u[i - 1] && t[j] == u[j - 1]);
            }
        }
    }
}

/// Inserting twice, in either order, gives the same sequence.
pub proof fn lemma_sorted_insert_commutes(s: Seq<u32>, x: u32, y: u32)
    ensures
        sorted_insert(sorted_insert(s, x), y) == sorted_insert(sorted_insert(s, y), x),
    decreases s.len(),
{
    if x == y {
    } else if s.len() == 0 {
        reveal_with_fuel(sorted_insert, 3);
        assert(seq![x].drop_first() =~= Seq::<u32>::empty());
        assert(seq![y].drop_first() =~= Seq::<u32>::empty());
        if x < y {
            assert(sorted_insert(sorted_insert(s, x), y) =~= seq![x] + seq![y]);
            assert(sorted_insert(sorted_insert(s, y), x) =~= seq![x] + seq![y]);
        } else {
            assert(sorted_insert(sorted_insert(s, x), y) =~= seq![y] + seq![x]);
            assert(sorted_insert(sorted_insert(s, y), x) =~= seq![y] + seq![x]);
        }
    } else {
        let a = s[0];
        if x > a && y > a {
            lemma_sorted_insert_commutes(s.drop_first(), x, y);
            assert((seq![a] + sorted_insert(s.drop_first(), x)).drop_first() =~= sorted_insert(
                s.drop_first(),
                x,
            ));
            assert((seq![a] + sorted_insert(s.drop_first(), y)).drop_first() =~= sorted_insert(
                s.drop_first(),
                y,
            ));
        } else {
            lemma_sorted_insert_elementwise(s, x, y);
        }
    }
}

/// Helper for the mixed cases of `lemma_sorted_insert_commutes`: both orders
/// of insertion produce the same sequence, shown by an explicit construction
/// when at least one inserted element lands at or before the head.
proof fn lemma_sorted_insert_elementwise(s: Seq<u32>, x: u32, y: u32)
    requires
        s.len() > 0,
        x != y,
        x <= s[0] || y <= s[0],
    ensures
        sorted_insert(sorted_insert(s, x), y) == sorted_insert(sorted_insert(s, y), x),
{
    if x <= s[0] && y <= s[0] {
        lemma_sorted_insert_front_pair(s, if x < y { x } else { y }, if x < y { y } else { x });
    } else if x <= s[0] {
        lemma_sorted_insert_front_other(s, x, y);
    } else {
        lemma_sorted_insert_front_other(s, y, x);
    }
}

/// Both `lo` and `hi` land at or before the head of `s`.
proof fn lemma_sorted_insert_front_pair(s: Seq<u32>, lo: u32, hi: u32)
    requires
        s.len() > 0,
        lo < hi,
        hi <= s[0],
    ensures
        sorted_insert(sorted_insert(s, lo), hi) == sorted_insert(sorted_insert(s, hi), lo),
{
    let t = seq![lo] + s;
    assert(t.drop_first() =~= s);
    assert(t[0] == lo);
    if hi == s[0] {
        assert(sorted_insert(s, hi) == s);
        assert(sorted_insert(s, lo) == t);
        assert(sorted_insert(t, hi) == seq![lo] + sorted_insert(t.drop_first(), hi));
        assert(sorted_insert(t, hi) == seq![lo] + s);
    } else {
        let u = seq![hi] + s;
        assert(u[0] == hi);
        assert(sorted_insert(s, hi) == u);
        assert(sorted_insert(u, lo) == seq![lo] + u);
        assert(sorted_insert(s, lo) == t);
        assert(sorted_insert(t, hi) == seq![lo] + sorted_insert(t.drop_first(), hi));
        assert(sorted_insert(t, hi) == seq![lo] + u);
    }
}

/// `x` lands at or before the head, `y` strictly after it.
proof fn lemma_sorted_insert_front_other(s: Seq<u32>, x: u32, y: u32)
    requires
        s.len() > 0,
        x != y,
        x <= s[0],
        y > s[0],
    ensures
        sorted_insert(sorted_insert(s, x), y) == sorted_insert(sorted_insert(s, y), x),
{
    let t = sorted_insert(s, y);
    assert(t == seq![s[0]] + sorted_insert(s.drop_first(), y));
    assert(t[0] == s[0]);
    if x == s[0] {
        assert(sorted_insert(s, x) == s);
        assert(sorted_insert(t, x) == t);
    } else {
        // x < s[0] < y
        assert(sorted_insert(t, x) == seq![x] + t);
        let u = seq![x] + s;
        assert(sorted_insert(s, x) == u);
        assert(u[0] == x);
        assert(u.drop_first() =~= s);
        assert(sorted_insert(u, y) == seq![x] + sorted_insert(u.drop_first(), y));
        assert(sorted_insert(u, y) == seq![x] + t);
    }
}

/// An ordered set of ranks, kept strictly ascending.
#[derive(Debug, PartialEq, Eq)]
pub struct RankSet {
    ranks: Vec<u32>,
}

impl View for RankSet {
    type V = Seq<u32>;

    closed spec fn view(&self) -> Seq<u32> {
        self.ranks@
    }
}

impl RankSet {
    /// Well-formed: strictly ascending, hence duplicate-free.
    pub open spec fn wf(self) -> bool {
        strictly_ascending(self@)
    }

    /// The empty set.
    pub fn new() -> (s: RankSet)
        ensures
            s@ == Seq::<u32>::empty(),
            s.wf(),
    {
        RankSet { ranks: Vec::new() }
    }

    /// Number of ranks in the set.
    pub fn len(&self) -> (n: usize)
        ensures
            n == self@.len(),
    {
        self.ranks.len()
    }

    /// The ranks in ascending order.
    pub fn as_vec(&self) -> (v: &Vec<u32>)
        ensures
            v@ == self@,
    {
        &self.ranks
    }

    /// Membership test.
    pub fn contains(&self, x: u32) -> (r: bool)
        ensures
            r == self@.contains(x),
    {
        let n = self.ranks.len();
        let mut i: usize = 0;
        while i < n
            invariant
                0 <= i <= n,
                n == self@.len(),
                forall|k: int| 0 <= k < i ==> self@[k] != x,
            decreases n - i,
        {
            if self.ranks[i] == x {
                return true;
            }
            i = i + 1;
        }
        false
    }

    /// Adds `x`, keeping the order; a no-op when `x` is already present.
    pub fn insert(&mut self, x: u32)
        requires
            old(self).wf(),
        ensures
            final(self)@ == sorted_insert(old(self)@, x),
            final(self).wf(),
    {
        let n = self.ranks.len();
        let mut i: usize = 0;
        while i < n && self.ranks[i] < x
            invariant
                0 <= i <= n,
                n == self@.len(),
                self@ == old(self)@,
                forall|k: int| 0 <= k < i ==> self@[k] < x,
            decreases n - i,
        {
            i = i + 1;
        }
        if i < n && self.ranks[i] == x {
            proof {
                lemma_sorted_insert_found(self@, x, i as int);
            }
            return;
        }
        self.ranks.insert(i, x);
        proof {
            lemma_sorted_insert_at(old(self)@, x, i as int);
            lemma_sorted_insert_ascending(old(self)@, x);
        }
    }

    /// The ranks of `self` that are not in `other`, ascending.
    pub fn difference(&self, other: &RankSet) -> (r: RankSet)
        requires
            self.wf(),
        ensures
            r@ == seq_diff(self@, other@),
            r.wf(),
    {
        let n = self.ranks.len();
        let mut out: Vec<u32> = Vec::new();
        let mut i: usize = 0;
        proof {
            assert(self@.skip(0) =~= self@);
            assert(out@ + seq_diff(self@, other@) =~= seq_diff(self@, other@));
        }
        while i < n
            invariant
                0 <= i <= n,
                n == self@.len(),
                seq_diff(self@, other@) == out@ + seq_diff(self@.skip(i as int), other@),
            decreases n - i,
        {
            proof {
                assert(self@.skip(i as int).drop_first() =~= self@.skip(i + 1));
                assert(self@.skip(i as int)[0] == self@[i as int]);
            }
            let ghost prev = out@;
            let ghost e = self@[i as int];
            if !other.contains(self.ranks[i]) {
                out.push(self.ranks[i]);
                proof {
                    assert((prev + seq![e]) + seq_diff(self@.skip(i + 1), other@) =~= prev + (
                    seq![e] + seq_diff(self@.skip(i + 1), other@)));
                }
            }
            i = i + 1;
        }
        proof {
            assert(self@.skip(n as int) =~= Seq::<u32>::empty());
            assert(out@ + seq_diff(self@.skip(n as int), other@) =~= out@);
            lemma_seq_diff_ascending(self@, other@);
        }
        RankSet { ranks: out }
    }
}

/// When position `i` of ascending `s` already holds `x` and everything before
/// it is smaller, inserting `x` changes nothing.
pub proof fn lemma_sorted_insert_found_public(s: Seq<u32>, x: u32, i: int)
    requires
        0 <= i < s.len(),
        s[i] == x,
        forall|k: int| 0 <= k < i ==> s[k] < x,
    ensures
        sorted_insert(s, x) == s,
{
    lemma_sorted_insert_found(s, x, i);
}

/// When position `i` of ascending `s` already holds `x` and everything before
/// it is smaller, inserting `x` changes nothing.
proof fn lemma_sorted_insert_found(s: Seq<u32>, x: u32, i: int)
    requires
        0 <= i < s.len(),
        s[i] == x,
        forall|k: int| 0 <= k < i ==> s[k] < x,
    ensures
        sorted_insert(s, x) == s,
    decreases i,
{
    if i > 0 {
        lemma_sorted_insert_found(s.drop_first(), x, i - 1);
        assert(seq![s[0]] + s.drop_first() =~= s);
    }
}

/// When everything before position `i` is smaller than `x` and the element at
/// `i` (if any) is larger, inserting `x` places it exactly at `i`.
proof fn lemma_sorted_insert_at(s: Seq<u32>, x: u32, i: int)
    requires
        0 <= i <= s.len(),
        forall|k: int| 0 <= k < i ==> s[k] < x,
        i < s.len() ==> s[i] > x,
    ensures
        sorted_insert(s, x) == s.insert(i, x),
    decreases i,
{
    if s.len() == 0 {
        assert(sorted_insert(s, x) =~= s.insert(0, x));
    } else if i == 0 {
        assert(seq![x] + s =~= s.insert(0, x));
    } else {
        lemma_sorted_insert_at(s.drop_first(), x, i - 1);
        assert(seq![s[0]] + s.drop_first().insert(i - 1, x) =~= s.insert(i, x));
    }
}

/// Membership in a difference: in `u` and not in `r`.
pub proof fn lemma_seq_diff_contains(u: Seq<u32>, r: Seq<u32>, y: u32)
    ensures
        seq_diff(u, r).contains(y) <==> (u.contains(y) && !r.contains(y)),
    decreases u.len(),
{
    if u.len() > 0 {
        lemma_seq_diff_contains(u.drop_first(), r, y);
        assert forall|z: u32| #[trigger] u.contains(z) implies z == u[0]
            || u.drop_first().contains(z) by {
            let i = choose|i: int| 0 <= i < u.len() && u[i] == z;
            if i > 0 {
                assert(u.drop_first()[i - 1] == z);
            }
        }
        assert forall|z: u32| u.drop_first().contains(z) implies u.contains(z) by {
            let i = choose|i: int| 0 <= i < u.drop_first().len() && u.drop_first()[i] == z;
            assert(u[i + 1] == z);
        }
        if !r.contains(u[0]) {
            let t = seq![u[0]] + seq_diff(u.drop_first(), r);
            assert forall|z: u32| #[trigger] t.contains(z) implies z == u[0] || seq_diff(
                u.drop_first(),
                r,
            ).contains(z) by {
                let i = choose|i: int| 0 <= i < t.len() && t[i] == z;
                if i > 0 {
                    assert(seq_diff(u.drop_first(), r)[i - 1] == z);
                }
            }
            if seq_diff(u.drop_first(), r).contains(y) {
                let i = choose|i: int|
                    0 <= i < seq_diff(u.drop_first(), r).len() && seq_diff(u.drop_first(), r)[i]
                        == y;
                assert(t[i + 1] == y);
            }
            if y == u[0] {
                assert(t[0] == y);
            }
        }
    }
}

/// A difference of an ascending sequence is ascending.
pub proof fn lemma_seq_diff_ascending(u: Seq<u32>, r: Seq<u32>)
    requires
        strictly_ascending(u),
    ensures
        strictly_ascending(seq_diff(u, r)),
    decreases u.len(),
{
    if u.len() > 0 {
        assert(strictly_ascending(u.drop_first())) by {
            assert(forall|i: int, j: int|
                0 <= i < j < u.drop_first().len() ==> #[trigger] u.drop_first()[i] == u[i + 1]
                    && #[trigger] u.drop_first()[j] == u[j + 1]);
        }
        lemma_seq_diff_ascending(u.drop_first(), r);
        if !r.contains(u[0]) {
            let t = seq![u[0]] + seq_diff(u.drop_first(), r);
            assert forall|y: u32| seq_diff(u.drop_first(), r).contains(y) implies y > u[0] by {
                lemma_seq_diff_contains(u.drop_first(), r, y);
                let i = choose|i: int|
                    0 <= i < u.drop_first().len() && u.drop_first()[i] == y;
                assert(u[i + 1] == y);
            }
            assert forall|i: int, j: int| 0 <= i < j < t.len() implies t[i] < t[j] by {
                if i == 0 {
                    assert(seq_diff(u.drop_first(), r).contains(t[j])) by {
                        assert(t[j] == seq_diff(u.drop_first(), r)[j - 1]);
                    }
                } else {
                    assert(t[i] == seq_diff(u.drop_first(), r)[i - 1] && t[j] == seq_diff(
                        u.drop_first(),
                        r,
                    )[j - 1]);
                }
            }
        }
    }
}

} // verus!
