//! The merge pipeline: a batch of per-worker stacks paired positionally with
//! declared worker ranks becomes one annotated collapsed-path listing.

use vstd::prelude::*;

use crate::frames::Frame;
use crate::frames::SEMICOLON;
use crate::frames::SPACE;
use crate::frames::marker_view;
use crate::frames::normalize_stack;
use crate::frames::spec_normalize;
use crate::frames::views_of;
use crate::rankset::lemma_sorted_insert_contains;
use crate::trie::SpecNode;
use crate::trie::StackTrie;
use crate::trie::annotation;
use crate::trie::insert_all;
use crate::trie::ranks_from;
use crate::trie::records_view;
use crate::trie::spec_insert;
use crate::trie::spec_records;
use crate::trie::trie_wf;

verus! {

/// The ASCII digit one: the constant trailing weight of every output line.
pub const ONE: u8 = 49;

/// Why a merge was refused.
#[derive(Debug, Clone, Copy, PartialEq, Eq, Structural)]
pub enum MergeError {
    /// More stacks were supplied than declared worker ranks: the excess
    /// stacks could not be attributed to any rank.
    CardinalityMismatch,
    /// No stacks at all, or no declared worker ranks.
    EmptyInput,
}

/// The rest of a joined label list: each further part preceded by `;`.
pub open spec fn rest_join(parts: Seq<Seq<u8>>) -> Seq<u8>
    decreases parts.len(),
{
    if parts.len() == 0 {
        Seq::empty()
    } else {
        seq![SEMICOLON] + parts[0] + rest_join(parts.drop_first())
    }
}

/// Label lists joined with `;`.
pub open spec fn join_labels(parts: Seq<Seq<u8>>) -> Seq<u8> {
    if parts.len() == 0 {
        Seq::empty()
    } else {
        parts[0] + rest_join(parts.drop_first())
    }
}

/// One output line: the `;`-joined annotated labels, a space, the terminal
/// node's own annotation as a trailing summary, and the constant weight `1`.
pub open spec fn line_of(rec: (Seq<Seq<u8>>, Seq<u8>)) -> Seq<u8> {
    join_labels(rec.0) + seq![SPACE] + rec.1 + seq![SPACE, ONE]
}

/// The lines of a record list.
pub open spec fn lines_of(recs: Seq<(Seq<Seq<u8>>, Seq<u8>)>) -> Seq<Seq<u8>> {
    recs.map_values(|r: (Seq<Seq<u8>>, Seq<u8>)| line_of(r))
}

/// The batch handed to the trie: each stack normalized, paired positionally
/// with its rank.
pub open spec fn batch_of(
    stacks: Seq<Vec<Frame>>,
    ranks: Seq<u32>,
    marker: Option<Seq<u8>>,
) -> Seq<(Seq<Seq<u8>>, u32)> {
    Seq::new(stacks.len(), |i: int| (spec_normalize(stacks[i]@, marker), ranks[i]))
}

/// The whole merge as a function of its inputs: reject a batch larger than
/// the declared universe, reject an empty batch or an empty universe, and
/// otherwise emit the traversal records of the fully built trie as lines.
pub open spec fn spec_merge(
    stacks: Seq<Vec<Frame>>,
    ranks: Seq<u32>,
    marker: Option<Seq<u8>>,
) -> Result<Seq<Seq<u8>>, MergeError> {
    if stacks.len() > ranks.len() {
        Result::Err(MergeError::CardinalityMismatch)
    } else if stacks.len() == 0 || ranks.len() == 0 {
        Result::Err(MergeError::EmptyInput)
    } else {
        let universe = ranks_from(ranks);
        let root = insert_all(SpecNode::empty(), batch_of(stacks, ranks, marker));
        Result::Ok(lines_of(spec_records(root, Seq::empty(), universe)))
    }
}

/// The view of a merge result.
pub open spec fn merge_result_view(r: Result<Vec<Vec<u8>>, MergeError>) -> Result<
    Seq<Seq<u8>>,
    MergeError,
> {
    match r {
        Result::Ok(v) => Result::Ok(views_of(v@)),
        Result::Err(e) => Result::Err(e),
    }
}

/// Collapsing a sequence to its ascending set keeps exactly its members.
proof fn lemma_ranks_from_contains(s: Seq<u32>, x: u32)
    ensures
        ranks_from(s).contains(x) <==> s.contains(x),
    decreases s.len(),
{
    if s.len() > 0 {
        lemma_ranks_from_contains(s.drop_last(), x);
        lemma_sorted_insert_contains(ranks_from(s.drop_last()), s.last(), x);
        if s.contains(x) {
            let i = choose|i: int| 0 <= i < s.len() && s[i] == x;
            if i < s.len() - 1 {
                assert(s.drop_last()[i] == x);
            }
        }
        if s.drop_last().contains(x) {
            let i = choose|i: int| 0 <= i < s.drop_last().len() && s.drop_last()[i] == x;
            assert(s[i] == x);
        }
    }
}

/// Appending one insertion to a batch applies it last.
proof fn lemma_insert_all_snoc(n: SpecNode, b: Seq<(Seq<Seq<u8>>, u32)>, x: (Seq<Seq<u8>>, u32))
    ensures
        insert_all(n, b.push(x)) == spec_insert(insert_all(n, b), x.0, x.1),
    decreases b.len(),
{
    if b.len() == 0 {
        reveal_with_fuel(insert_all, 3);
        assert(b.push(x).drop_first() =~= Seq::<(Seq<Seq<u8>>, u32)>::empty());
        assert(b.push(x)[0] == x);
        assert(insert_all(spec_insert(n, x.0, x.1), b.push(x).drop_first()) == spec_insert(
            n,
            x.0,
            x.1,
        ));
    } else {
        assert(b.push(x)[0] == b[0]);
        assert(b.push(x).drop_first() =~= b.drop_first().push(x));
        lemma_insert_all_snoc(spec_insert(n, b[0].0, b[0].1), b.drop_first(), x);
    }
}

/// Joins label lists with `;`.
fn join_labels_exec(parts: &Vec<Vec<u8>>) -> (out: Vec<u8>)
    ensures
        out@ == join_labels(views_of(parts@)),
{
    let ghost v = views_of(parts@);
    let n = parts.len();
    let mut out: Vec<u8> = Vec::new();
    let mut i: usize = 0;
    while i < n
        invariant
            0 <= i <= n,
            n == parts@.len(),
            v == views_of(parts@),
            i == 0 ==> out@.len() == 0,
            i > 0 ==> join_labels(v) == out@ + rest_join(v.skip(i as int)),
        decreases n - i,
    {
        let ghost pre = out@;
        if i > 0 {
            out.push(SEMICOLON);
        }
        crate::bytes::append_bytes(&mut out, &parts[i]);
        proof {
            assert(v.skip(i as int)[0] == v[i as int]);
            assert(v.skip(i as int).drop_first() =~= v.skip(i + 1));
            if i == 0 {
                assert(v.drop_first() =~= v.skip(1));
                assert(out@ =~= v[0]);
            } else {
                assert(rest_join(v.skip(i as int)) == seq![SEMICOLON] + v[i as int] + rest_join(
                    v.skip(i + 1),
                ));
                assert(out@ =~= pre + (seq![SEMICOLON] + v[i as int]));
                if i + 1 < n {
                    assert(pre + (seq![SEMICOLON] + v[i as int]) + rest_join(v.skip(i + 1)) =~= pre
                        + rest_join(v.skip(i as int)));
                } else {
                    assert(v.skip(i + 1) =~= Seq::<Seq<u8>>::empty());
                    assert(pre + (seq![SEMICOLON] + v[i as int]) + rest_join(v.skip(i + 1)) =~= pre
                        + rest_join(v.skip(i as int)));
                }
            }
        }
        i = i + 1;
    }
    proof {
        if n == 0 {
            assert(out@ =~= join_labels(v));
        } else {
            assert(v.skip(n as int) =~= Seq::<Seq<u8>>::empty());
            assert(out@ + rest_join(v.skip(n as int)) =~= out@);
        }
    }
    out
}

/// Merges one batch of per-worker call stacks into annotated collapsed-path
/// lines.
///
/// Stacks are paired positionally with the declared ranks: more stacks than
/// ranks is a cardinality error; an empty batch or an empty rank list is an
/// empty-input error. Surplus declared ranks never appear in a present set
/// and therefore show up as leaked everywhere. Each stack is normalized
/// (reversed to root-first order, rendered to canonical keys, truncated at
/// `marker` when one is given) and inserted into a trie over the rank
/// universe; the ordered traversal records become one line per terminal
/// path.
pub fn process_and_merge_callstacks(
    stacks: &Vec<Vec<Frame>>,
    rank_list: &Vec<u32>,
    marker: Option<&Vec<u8>>,
) -> (r: Result<Vec<Vec<u8>>, MergeError>)
    ensures
        merge_result_view(r) == spec_merge(stacks@, rank_list@, marker_view(marker)),
{
    let ghost batch = batch_of(stacks@, rank_list@, marker_view(marker));
    if stacks.len() > rank_list.len() {
        return Result::Err(MergeError::CardinalityMismatch);
    }
    if stacks.len() == 0 || rank_list.len() == 0 {
        return Result::Err(MergeError::EmptyInput);
    }
    // the universe of declared ranks
    let nr = rank_list.len();
    let mut universe_vec: Vec<u32> = Vec::new();
    let mut i: usize = 0;
    while i < nr
        invariant
            0 <= i <= nr,
            nr == rank_list@.len(),
            universe_vec@ == rank_list@.take(i as int),
        decreases nr - i,
    {
        universe_vec.push(rank_list[i]);
        proof {
            assert(rank_list@.take(i as int).push(rank_list@[i as int]) =~= rank_list@.take(
                i + 1,
            ));
        }
        i = i + 1;
    }
    proof {
        assert(rank_list@.take(nr as int) =~= rank_list@);
    }
    let mut trie = StackTrie::new(universe_vec);
    // build the trie, one stack per declared rank, in order
    let ns = stacks.len();
    let mut j: usize = 0;
    proof {
        assert(batch.take(0) =~= Seq::<(Seq<Seq<u8>>, u32)>::empty());
    }
    while j < ns
        invariant
            0 <= j <= ns,
            ns == stacks@.len(),
            ns <= rank_list@.len(),
            batch == batch_of(stacks@, rank_list@, marker_view(marker)),
            trie@.universe == ranks_from(rank_list@),
            trie@.root == insert_all(SpecNode::empty(), batch.take(j as int)),
            trie_wf(trie@),
        decreases ns - j,
    {
        let keys = normalize_stack(&stacks[j], marker);
        proof {
            lemma_ranks_from_contains(rank_list@, rank_list@[j as int]);
            assert(rank_list@.contains(rank_list@[j as int]));
        }
        let ghost root0 = trie@.root;
        trie.insert(&keys, rank_list[j]);
        proof {
            assert(batch[j as int] == (spec_normalize(stacks@[j as int]@, marker_view(marker)),
            rank_list@[j as int]));
            assert(views_of(keys@) == batch[j as int].0);
            lemma_insert_all_snoc(SpecNode::empty(), batch.take(j as int), batch[j as int]);
            assert(batch.take(j as int).push(batch[j as int]) =~= batch.take(j + 1));
        }
        j = j + 1;
    }
    proof {
        assert(batch.take(ns as int) =~= batch);
    }
    // traverse and emit
    let records = trie.traverse_with_all_stack();
    let ghost recs = spec_records(trie@.root, Seq::empty(), trie@.universe);
    let nrec = records.len();
    let mut lines: Vec<Vec<u8>> = Vec::new();
    let mut k: usize = 0;
    while k < nrec
        invariant
            0 <= k <= nrec,
            nrec == records@.len(),
            recs == records_view(records@),
            views_of(lines@) =~= lines_of(recs).take(k as int),
        decreases nrec - k,
    {
        let rec = &records[k];
        let mut line = join_labels_exec(&rec.0);
        line.push(SPACE);
        crate::bytes::append_bytes(&mut line, &rec.1);
        line.push(SPACE);
        line.push(ONE);
        proof {
            assert(records_view(records@)[k as int] == (views_of(rec.0@), rec.1@));
            assert(line@ =~= line_of(recs[k as int]));
        }
        let ghost prev = lines@;
        lines.push(line);
        proof {
            assert(views_of(lines@) =~= views_of(prev).push(line@));
            assert(lines_of(recs).take(k as int).push(lines_of(recs)[k as int]) =~= lines_of(
                recs,
            ).take(k + 1));
        }
        k = k + 1;
    }
    proof {
        assert(lines_of(recs).take(nrec as int) =~= lines_of(recs));
        assert(views_of(lines@) == spec_merge(stacks@, rank_list@, marker_view(marker))->Ok_0);
    }
    Result::Ok(lines)
}

} // verus!
