//! Worker-process rank bookkeeping: reading `LOCAL_RANK` values out of
//! process environments, ordering processes by rank, building the probing
//! addresses and commands, and rendering the rank/address table as JSON.
//!
//! Everything here computes over plain values; reading `/proc`, probing
//! ports and running commands stay with the caller.

use vstd::prelude::*;

use crate::bytes::is_prefix;
use crate::bytes::starts_with;
use crate::frames::COLON;
use crate::ranges::dec_digits;
use crate::ranges::dec_val;
use crate::ranges::digits_len;
use crate::ranges::is_digit;
use crate::ranges::lemma_digits_len_exact;
use crate::ranges::push_dec;

verus! {

pub const PLUS: u8 = 43;

/// One worker process and the local rank read from its environment.
#[derive(Debug, Clone, Copy, PartialEq, Eq, Structural)]
pub struct ProcessRank {
    pub pid: u32,
    pub local_rank: u32,
}

/// Why rank bookkeeping failed. The payloads carry diagnostic text.
#[derive(Debug, PartialEq, Eq)]
pub enum ProcessRankError {
    IoError(Vec<u8>),
    PgrepFailed(Vec<u8>),
    Utf8Error(Vec<u8>),
    InvalidLocalRank(Vec<u8>),
    CommandFailed(Vec<u8>),
    NoProcessesFound,
    NoValidInterfaces,
}

/// The rank-bookkeeping entry points.
pub struct ProcessRankApi;

/// An unsigned decimal number, as `u32` parsing reads it: an optional
/// leading `+`, then only digits, the value within `u32`.
pub open spec fn spec_parse_u32(s: Seq<u8>) -> Option<u32> {
    let body = if s.len() >= 1 && s[0] == PLUS {
        s.drop_first()
    } else {
        s
    };
    if body.len() == 0 {
        Option::None
    } else if digits_len(body) != body.len() {
        Option::None
    } else if dec_val(body) > u32::MAX {
        Option::None
    } else {
        Option::Some(dec_val(body) as u32)
    }
}

/// Parses an unsigned decimal number the way `u32` parsing does: an optional
/// leading `+`, then one or more digits, rejecting overflow.
pub fn parse_u32(s: &Vec<u8>) -> (r: Option<u32>)
    ensures
        r == spec_parse_u32(s@),
{
    let n = s.len();
    let start: usize = if n >= 1 && s[0] == PLUS {
        1
    } else {
        0
    };
    let ghost body = if s@.len() >= 1 && s@[0] == PLUS {
        s@.drop_first()
    } else {
        s@
    };
    proof {
        if start == 1 {
            assert(body =~= s@.drop_first());
        } else {
            assert(body =~= s@);
        }
    }
    if start == n {
        return None;
    }
    let mut acc: u64 = 0;
    let mut over = false;
    let mut j: usize = start;
    proof {
        assert(body.take(0) =~= Seq::<u8>::empty());
    }
    while j < n
        invariant
            start <= j <= n,
            n == s@.len(),
            start == 0 || start == 1,
            (start == 1) == (n >= 1 && s@[0] == PLUS),
            start == 1 ==> body =~= s@.drop_first(),
            start == 0 ==> body == s@,
            body.len() == n - start,
            forall|k: int| 0 <= k < j - start ==> is_digit(#[trigger] body[k]),
            !over ==> acc == dec_val(body.take(j - start)) && acc <= u32::MAX,
            over ==> dec_val(body.take(j - start)) > u32::MAX,
        decreases n - j,
    {
        let b = s[j];
        proof {
            assert(body[j - start] == s@[j as int]);
        }
        if b < 48 || b > 57 {
            proof {
                assert(!is_digit(body[j - start]));
                if digits_len(body) == body.len() {
                    crate::ranges::lemma_digits_prefix(body, j - start);
                }
            }
            return None;
        }
        proof {
            assert(body.take(j - start + 1).drop_last() =~= body.take(j - start));
            assert(body.take(j - start + 1).last() == body[j - start]);
        }
        if !over {
            acc = acc * 10 + (b - 48) as u64;
            if acc > 0xffff_ffff {
                over = true;
            }
        } else {
            proof {
                assert(dec_val(body.take(j - start + 1)) == dec_val(body.take(j - start)) * 10 + (
                body[j - start] - 48) as nat);
                assert(dec_val(body.take(j - start)) * 10 >= dec_val(body.take(j - start))) by {
                    assert(dec_val(body.take(j - start)) >= 0);
                }
            }
        }
        j = j + 1;
    }
    proof {
        assert(body.take(n - start) =~= body);
        lemma_digits_len_exact(body, (n - start) as nat);
    }
    if over {
        return None;
    }
    Some(acc as u32)
}

/// The value of the first environment entry with the given prefix, or
/// nothing when no entry has it.
pub open spec fn spec_find_env(vars: Seq<Seq<u8>>, prefix: Seq<u8>) -> Option<Seq<u8>>
    decreases vars.len(),
{
    if vars.len() == 0 {
        Option::None
    } else if is_prefix(prefix, vars[0]) {
        Option::Some(vars[0].skip(prefix.len() as int))
    } else {
        spec_find_env(vars.drop_first(), prefix)
    }
}

/// A scan that stops at the first prefixed entry finds `spec_find_env`.
proof fn lemma_find_env_at(vars: Seq<Seq<u8>>, prefix: Seq<u8>, c: int)
    requires
        0 <= c <= vars.len(),
        forall|j: int| 0 <= j < c ==> !is_prefix(prefix, #[trigger] vars[j]),
    ensures
        c == vars.len() ==> spec_find_env(vars, prefix) is None,
        c < vars.len() && is_prefix(prefix, vars[c]) ==> spec_find_env(vars, prefix)
            == Option::Some(vars[c].skip(prefix.len() as int)),
    decreases c,
{
    if c > 0 && vars.len() > 0 {
        assert(!is_prefix(prefix, vars[0]));
        assert forall|j: int| 0 <= j < c - 1 implies !is_prefix(
            prefix,
            #[trigger] vars.drop_first()[j],
        ) by {
            assert(vars.drop_first()[j] == vars[j + 1]);
        }
        lemma_find_env_at(vars.drop_first(), prefix, c - 1);
        if c < vars.len() {
            assert(vars.drop_first()[c - 1] == vars[c]);
        }
    }
}

impl ProcessRankApi {

/// Finds the first environment entry with the given prefix and returns the
/// text after the prefix.
pub fn find_env_var(env_vars: &Vec<Vec<u8>>, prefix: &Vec<u8>) -> (r: Option<Vec<u8>>)
    ensures
        match r {
            Option::Some(v) => spec_find_env(crate::frames::views_of(env_vars@), prefix@)
                == Option::Some(v@),
            Option::None => spec_find_env(crate::frames::views_of(env_vars@), prefix@) is None,
        },
{
    let ghost vars = crate::frames::views_of(env_vars@);
    let n = env_vars.len();
    let mut i: usize = 0;
    while i < n
        invariant
            0 <= i <= n,
            n == env_vars@.len(),
            vars == crate::frames::views_of(env_vars@),
            forall|j: int| 0 <= j < i ==> !is_prefix(prefix@, #[trigger] vars[j]),
        decreases n - i,
    {
        if starts_with(&env_vars[i], prefix) {
            let m = env_vars[i].len();
            let mut out: Vec<u8> = Vec::new();
            let mut k: usize = prefix.len();
            while k < m
                invariant
                    prefix@.len() <= k <= m,
                    m == env_vars@[i as int]@.len(),
                    i < env_vars@.len(),
                    out@ =~= env_vars@[i as int]@.subrange(prefix@.len() as int, k as int),
                decreases m - k,
            {
                out.push(env_vars[i][k]);
                k = k + 1;
            }
            proof {
                assert(out@ =~= vars[i as int].skip(prefix@.len() as int));
                lemma_find_env_at(vars, prefix@, i as int);
            }
            return Some(out);
        }
        i = i + 1;
    }
    proof {
        lemma_find_env_at(vars, prefix@, n as int);
    }
    None
}

}

} // verus!

verus! {

/// The environment key prefix that carries a worker's local rank.
pub open spec fn local_rank_prefix() -> Seq<u8> {
    seq![76u8, 79, 67, 65, 76, 95, 82, 65, 78, 75, 61]
}

/// `"LOCAL_RANK="` as bytes.
pub fn local_rank_prefix_vec() -> (v: Vec<u8>)
    ensures
        v@ == local_rank_prefix(),
{
    let v: Vec<u8> = vec![76u8, 79, 67, 65, 76, 95, 82, 65, 78, 75, 61];
    proof {
        assert(v@ =~= local_rank_prefix());
    }
    v
}

/// The ranks one environment contributes: one entry when it holds a
/// parseable local rank, none otherwise.
pub open spec fn rank_of_env(e: (u32, Vec<Vec<u8>>)) -> Seq<ProcessRank> {
    match spec_find_env(crate::frames::views_of(e.1@), local_rank_prefix()) {
        Option::Some(v) => match spec_parse_u32(v) {
            Option::Some(r) => seq![ProcessRank { pid: e.0, local_rank: r }],
            Option::None => Seq::empty(),
        },
        Option::None => Seq::empty(),
    }
}

/// All local ranks found in a batch of environments, in batch order.
pub open spec fn spec_collect(envs: Seq<(u32, Vec<Vec<u8>>)>) -> Seq<ProcessRank>
    decreases envs.len(),
{
    if envs.len() == 0 {
        Seq::empty()
    } else {
        rank_of_env(envs[0]) + spec_collect(envs.drop_first())
    }
}

/// `x` placed after every entry whose rank does not exceed its own: a stable
/// insertion.
pub open spec fn insert_by_rank(s: Seq<ProcessRank>, x: ProcessRank) -> Seq<ProcessRank>
    decreases s.len(),
{
    if s.len() == 0 {
        seq![x]
    } else if x.local_rank < s[0].local_rank {
        seq![x] + s
    } else {
        seq![s[0]] + insert_by_rank(s.drop_first(), x)
    }
}

/// Stable insertion sort by local rank.
pub open spec fn spec_sort_ranks(s: Seq<ProcessRank>) -> Seq<ProcessRank>
    decreases s.len(),
{
    if s.len() == 0 {
        Seq::empty()
    } else {
        insert_by_rank(spec_sort_ranks(s.drop_last()), s.last())
    }
}

/// Non-decreasing local ranks.
pub open spec fn sorted_by_rank(s: Seq<ProcessRank>) -> bool {
    forall|i: int, j: int|
        0 <= i < j < s.len() ==> (#[trigger] s[i]).local_rank <= (#[trigger] s[j]).local_rank
}

/// When everything before position `p` has rank at most `x`'s and the entry
/// at `p` (if any) has a larger one, `x` lands exactly at `p`.
proof fn lemma_insert_by_rank_at(s: Seq<ProcessRank>, x: ProcessRank, p: int)
    requires
        0 <= p <= s.len(),
        forall|k: int| 0 <= k < p ==> (#[trigger] s[k]).local_rank <= x.local_rank,
        p < s.len() ==> s[p].local_rank > x.local_rank,
    ensures
        insert_by_rank(s, x) == s.insert(p, x),
    decreases p,
{
    if s.len() == 0 {
        assert(insert_by_rank(s, x) =~= s.insert(0, x));
    } else if p == 0 {
        assert(seq![x] + s =~= s.insert(0, x));
    } else {
        assert(s[0].local_rank <= x.local_rank);
        assert forall|k: int| 0 <= k < p - 1 implies (#[trigger] s.drop_first()[k]).local_rank
            <= x.local_rank by {
            assert(s.drop_first()[k] == s[k + 1]);
        }
        if p - 1 < s.drop_first().len() {
            assert(s.drop_first()[p - 1] == s[p]);
        }
        lemma_insert_by_rank_at(s.drop_first(), x, p - 1);
        assert(seq![s[0]] + s.drop_first().insert(p - 1, x) =~= s.insert(p, x));
    }
}

/// Inserting keeps the order non-decreasing.
proof fn lemma_insert_by_rank_sorted(s: Seq<ProcessRank>, x: ProcessRank)
    requires
        sorted_by_rank(s),
    ensures
        sorted_by_rank(insert_by_rank(s, x)),
    decreases s.len(),
{
    if s.len() == 0 {
    } else if x.local_rank < s[0].local_rank {
        let t = seq![x] + s;
        assert forall|i: int, j: int| 0 <= i < j < t.len() implies (#[trigger] t[i]).local_rank
            <= (#[trigger] t[j]).local_rank by {
            if i > 0 {
                assert(t[i] == s[i - 1] && t[j] == s[j - 1]);
            } else if j > 0 {
                assert(t[j] == s[j - 1]);
                if j >= 2 {
                    assert(s[0].local_rank <= s[j - 1].local_rank);
                }
            }
        }
    } else {
        assert(sorted_by_rank(s.drop_first())) by {
            assert(forall|i: int, j: int|
                0 <= i < j < s.drop_first().len() ==> #[trigger] s.drop_first()[i] == s[i + 1]
                    && #[trigger] s.drop_first()[j] == s[j + 1]);
        }
        lemma_insert_by_rank_sorted(s.drop_first(), x);
        let u = insert_by_rank(s.drop_first(), x);
        let t = seq![s[0]] + u;
        assert forall|y: ProcessRank| u.contains(y) implies s[0].local_rank <= y.local_rank by {
            lemma_insert_by_rank_contains(s.drop_first(), x, y);
            if s.drop_first().contains(y) {
                let i = choose|i: int|
                    0 <= i < s.drop_first().len() && s.drop_first()[i] == y;
                assert(s[i + 1] == y);
                assert(s[0].local_rank <= s[i + 1].local_rank);
            }
        }
        assert forall|i: int, j: int| 0 <= i < j < t.len() implies (#[trigger] t[i]).local_rank
            <= (#[trigger] t[j]).local_rank by {
            if i == 0 {
                assert(u.contains(t[j])) by {
                    assert(t[j] == u[j - 1]);
                }
            } else {
                assert(t[i] == u[i - 1] && t[j] == u[j - 1]);
            }
        }
    }
}

/// The entries after an insertion: the old ones plus the new one.
proof fn lemma_insert_by_rank_contains(s: Seq<ProcessRank>, x: ProcessRank, y: ProcessRank)
    ensures
        insert_by_rank(s, x).contains(y) <==> (s.contains(y) || y == x),
    decreases s.len(),
{
    let r = insert_by_rank(s, x);
    if s.len() == 0 {
        if r.contains(y) {
            let i = choose|i: int| 0 <= i < r.len() && r[i] == y;
        }
        if y == x {
            assert(r[0] == y);
        }
    } else if x.local_rank < s[0].local_rank {
        if r.contains(y) {
            let i = choose|i: int| 0 <= i < r.len() && r[i] == y;
            if i > 0 {
                assert(s[i - 1] == y);
            }
        }
        if y == x {
            assert(r[0] == y);
        }
        if s.contains(y) {
            let i = choose|i: int| 0 <= i < s.len() && s[i] == y;
            assert(r[i + 1] == y);
        }
    } else {
        lemma_insert_by_rank_contains(s.drop_first(), x, y);
        let u = insert_by_rank(s.drop_first(), x);
        if r.contains(y) {
            let i = choose|i: int| 0 <= i < r.len() && r[i] == y;
            if i == 0 {
                assert(s[0] == y);
            } else {
                assert(u[i - 1] == y);
                assert(u.contains(y));
                if s.drop_first().contains(y) {
                    let m = choose|m: int|
                        0 <= m < s.drop_first().len() && s.drop_first()[m] == y;
                    assert(s[m + 1] == y);
                }
            }
        }
        if y == x {
            assert(u.contains(y));
            let i = choose|i: int| 0 <= i < u.len() && u[i] == y;
            assert(r[i + 1] == y);
        }
        if s.contains(y) {
            let i = choose|i: int| 0 <= i < s.len() && s[i] == y;
            if i == 0 {
                assert(r[0] == y);
            } else {
                assert(s.drop_first()[i - 1] == y);
                assert(u.contains(y));
                let m = choose|m: int| 0 <= m < u.len() && u[m] == y;
                assert(r[m + 1] == y);
            }
        }
    }
}

/// An insertion sort leaves the ranks non-decreasing.
proof fn lemma_sort_sorted(s: Seq<ProcessRank>)
    ensures
        sorted_by_rank(spec_sort_ranks(s)),
    decreases s.len(),
{
    if s.len() > 0 {
        lemma_sort_sorted(s.drop_last());
        lemma_insert_by_rank_sorted(spec_sort_ranks(s.drop_last()), s.last());
    }
}

/// Every environment contributes at most one entry.
proof fn lemma_collect_len(envs: Seq<(u32, Vec<Vec<u8>>)>)
    ensures
        spec_collect(envs).len() <= envs.len(),
    decreases envs.len(),
{
    if envs.len() > 0 {
        lemma_collect_len(envs.drop_first());
    }
}

/// Sorting neither adds nor drops entries.
proof fn lemma_sort_len(s: Seq<ProcessRank>)
    ensures
        spec_sort_ranks(s).len() == s.len(),
    decreases s.len(),
{
    if s.len() > 0 {
        lemma_sort_len(s.drop_last());
        lemma_insert_by_rank_len(spec_sort_ranks(s.drop_last()), s.last());
    }
}

/// Inserting adds exactly one entry.
proof fn lemma_insert_by_rank_len(s: Seq<ProcessRank>, x: ProcessRank)
    ensures
        insert_by_rank(s, x).len() == s.len() + 1,
    decreases s.len(),
{
    if s.len() > 0 && x.local_rank >= s[0].local_rank {
        lemma_insert_by_rank_len(s.drop_first(), x);
    }
}

impl ProcessRankApi {

/// Collects every process whose environment declares a parseable local
/// rank, and returns them sorted by rank (a stable order for equal ranks);
/// an error when no process declares one.
pub fn get_all_python_local_ranks(envs: &Vec<(u32, Vec<Vec<u8>>)>) -> (r: Result<
    Vec<ProcessRank>,
    ProcessRankError,
>)
    ensures
        spec_collect(envs@).len() == 0 ==> r == Result::<
            Vec<ProcessRank>,
            ProcessRankError,
        >::Err(ProcessRankError::NoProcessesFound),
        spec_collect(envs@).len() > 0 ==> r is Ok && r->Ok_0@ == spec_sort_ranks(
            spec_collect(envs@),
        ),
        r is Ok ==> sorted_by_rank(r->Ok_0@),
{
    proof {
        lemma_sort_sorted(spec_collect(envs@));
    }
    let ghost all = spec_collect(envs@);
    let prefix = local_rank_prefix_vec();
    let n = envs.len();
    let mut collected: Vec<ProcessRank> = Vec::new();
    let mut i: usize = 0;
    proof {
        assert(envs@.skip(0) =~= envs@);
        assert(collected@ + spec_collect(envs@) =~= spec_collect(envs@));
    }
    while i < n
        invariant
            0 <= i <= n,
            n == envs@.len(),
            prefix@ == local_rank_prefix(),
            all == spec_collect(envs@),
            all == collected@ + spec_collect(envs@.skip(i as int)),
        decreases n - i,
    {
        proof {
            assert(envs@.skip(i as int)[0] == envs@[i as int]);
            assert(envs@.skip(i as int).drop_first() =~= envs@.skip(i + 1));
        }
        let ghost prev = collected@;
        let pid = envs[i].0;
        match ProcessRankApi::find_env_var(&envs[i].1, &prefix) {
            Option::Some(v) => {
                match parse_u32(&v) {
                    Option::Some(rank) => {
                        collected.push(ProcessRank { pid, local_rank: rank });
                        proof {
                            assert(rank_of_env(envs@[i as int]) =~= seq![
                                ProcessRank { pid: envs@[i as int].0, local_rank: rank },
                            ]);
                            assert((prev + rank_of_env(envs@[i as int])) + spec_collect(
                                envs@.skip(i + 1),
                            ) =~= prev + (rank_of_env(envs@[i as int]) + spec_collect(
                                envs@.skip(i + 1),
                            )));
                        }
                    },
                    Option::None => {
                        proof {
                            assert(rank_of_env(envs@[i as int]) =~= Seq::<ProcessRank>::empty());
                            assert(prev + (rank_of_env(envs@[i as int]) + spec_collect(
                                envs@.skip(i + 1),
                            )) =~= prev + spec_collect(envs@.skip(i + 1)));
                        }
                    },
                }
            },
            Option::None => {
                proof {
                    assert(rank_of_env(envs@[i as int]) =~= Seq::<ProcessRank>::empty());
                    assert(prev + (rank_of_env(envs@[i as int]) + spec_collect(envs@.skip(i + 1)))
                        =~= prev + spec_collect(envs@.skip(i + 1)));
                }
            },
        }
        i = i + 1;
    }
    proof {
        assert(envs@.skip(n as int) =~= Seq::<(u32, Vec<Vec<u8>>)>::empty());
        assert(collected@ + Seq::<ProcessRank>::empty() =~= collected@);
        assert(collected@ == all);
    }
    if collected.len() == 0 {
        return Result::Err(ProcessRankError::NoProcessesFound);
    }
    // stable insertion sort by local rank
    let m = collected.len();
    let mut sorted: Vec<ProcessRank> = Vec::new();
    let mut j: usize = 0;
    proof {
        assert(collected@.take(0) =~= Seq::<ProcessRank>::empty());
    }
    while j < m
        invariant
            0 <= j <= m,
            m == collected@.len(),
            sorted@ == spec_sort_ranks(collected@.take(j as int)),
        decreases m - j,
    {
        let x = collected[j];
        let sn = sorted.len();
        let mut p: usize = 0;
        while p < sn && sorted[p].local_rank <= x.local_rank
            invariant
                0 <= p <= sn,
                sn == sorted@.len(),
                forall|k: int| 0 <= k < p ==> (#[trigger] sorted@[k]).local_rank <= x.local_rank,
            decreases sn - p,
        {
            p = p + 1;
        }
        sorted.insert(p, x);
        proof {
            lemma_insert_by_rank_at(spec_sort_ranks(collected@.take(j as int)), x, p as int);
            assert(collected@.take(j + 1).drop_last() =~= collected@.take(j as int));
            assert(collected@.take(j + 1).last() == collected@[j as int]);
        }
        j = j + 1;
    }
    proof {
        assert(collected@.take(m as int) =~= collected@);
    }
    Result::Ok(sorted)
}

}

} // verus!

verus! {

/// The probing address of one endpoint: `<ip>:<port>`.
pub open spec fn spec_address(ip: Seq<u8>, port: u16) -> Seq<u8> {
    ip + seq![COLON] + dec_digits(port as nat)
}

/// `"probing.server.address='"` as bytes.
pub open spec fn probing_config_prefix() -> Seq<u8> {
    seq![112u8, 114, 111, 98, 105, 110, 103, 46, 115, 101, 114, 118, 101, 114, 46, 97, 100, 100,
        114, 101, 115, 115, 61, 39]
}

/// The configuration text handed to one process: the address assignment in
/// single quotes.
pub open spec fn spec_probing_config(addr: Seq<u8>) -> Seq<u8> {
    probing_config_prefix() + addr + seq![39u8]
}

/// `"probing -t "` as bytes.
pub open spec fn probing_command_head() -> Seq<u8> {
    seq![112u8, 114, 111, 98, 105, 110, 103, 32, 45, 116, 32]
}

/// `" config \""` as bytes.
pub open spec fn probing_command_mid() -> Seq<u8> {
    seq![32u8, 99, 111, 110, 102, 105, 103, 32, 34]
}

/// The shell command that applies a configuration to one process.
pub open spec fn spec_probing_command(pid: u32, config: Seq<u8>) -> Seq<u8> {
    probing_command_head() + dec_digits(pid as nat) + probing_command_mid() + config + seq![34u8]
}

/// Builds `<ip>:<port>`.
pub fn build_probing_address(ip: &Vec<u8>, port: u16) -> (out: Vec<u8>)
    ensures
        out@ == spec_address(ip@, port),
{
    let mut out: Vec<u8> = Vec::new();
    crate::bytes::append_bytes(&mut out, ip);
    out.push(COLON);
    push_dec(&mut out, port as u32);
    proof {
        assert(out@ =~= spec_address(ip@, port));
    }
    out
}

/// Builds the configuration text that points a process at an address.
pub fn build_probing_config(addr: &Vec<u8>) -> (out: Vec<u8>)
    ensures
        out@ == spec_probing_config(addr@),
{
    let mut out: Vec<u8> = vec![112u8, 114, 111, 98, 105, 110, 103, 46, 115, 101, 114, 118, 101,
        114, 46, 97, 100, 100, 114, 101, 115, 115, 61, 39];
    proof {
        assert(out@ =~= probing_config_prefix());
    }
    crate::bytes::append_bytes(&mut out, addr);
    out.push(39);
    proof {
        assert(out@ =~= spec_probing_config(addr@));
    }
    out
}

/// Builds the shell command that applies a configuration to one process.
pub fn build_probing_command(pid: u32, config: &Vec<u8>) -> (out: Vec<u8>)
    ensures
        out@ == spec_probing_command(pid, config@),
{
    let mut out: Vec<u8> = vec![112u8, 114, 111, 98, 105, 110, 103, 32, 45, 116, 32];
    proof {
        assert(out@ =~= probing_command_head());
    }
    push_dec(&mut out, pid);
    let mid: Vec<u8> = vec![32u8, 99, 111, 110, 102, 105, 103, 32, 34];
    proof {
        assert(mid@ =~= probing_command_mid());
    }
    crate::bytes::append_bytes(&mut out, &mid);
    crate::bytes::append_bytes(&mut out, config);
    out.push(34);
    proof {
        assert(out@ =~= spec_probing_command(pid, config@));
    }
    out
}

/// The view of a configured-process list.
pub open spec fn triples_view(c: Seq<(u32, Vec<u8>, u16)>) -> Seq<(u32, Seq<u8>, u16)> {
    c.map_values(|t: (u32, Vec<u8>, u16)| (t.0, t.1@, t.2))
}

/// The configured processes: each paired positionally with an endpoint, its
/// address rendered as `<ip>:<port>`.
pub open spec fn spec_configure(ps: Seq<ProcessRank>, eps: Seq<(Vec<u8>, u16)>) -> Seq<
    (u32, Seq<u8>, u16),
> {
    Seq::new(ps.len(), |i: int| (ps[i].pid, spec_address(eps[i].0@, eps[i].1), eps[i].1))
}

impl ProcessRankApi {

/// Pairs each process positionally with an endpoint and renders its probing
/// address; the configuration commands themselves are the caller's to run.
pub fn configure_processes_with_ports(
    processes: &Vec<ProcessRank>,
    endpoints: &Vec<(Vec<u8>, u16)>,
) -> (out: Vec<(u32, Vec<u8>, u16)>)
    requires
        endpoints@.len() >= processes@.len(),
    ensures
        triples_view(out@) == spec_configure(processes@, endpoints@),
{
    let n = processes.len();
    let mut out: Vec<(u32, Vec<u8>, u16)> = Vec::new();
    let mut i: usize = 0;
    while i < n
        invariant
            0 <= i <= n,
            n == processes@.len() <= endpoints@.len(),
            triples_view(out@) =~= spec_configure(processes@, endpoints@).take(i as int),
        decreases n - i,
    {
        let ghost prev = out@;
        let addr = build_probing_address(&endpoints[i].0, endpoints[i].1);
        out.push((processes[i].pid, addr, endpoints[i].1));
        proof {
            assert(triples_view(out@) =~= triples_view(prev).push(
                (processes@[i as int].pid, addr@, endpoints@[i as int].1),
            ));
            assert(spec_configure(processes@, endpoints@).take(i as int).push(
                spec_configure(processes@, endpoints@)[i as int],
            ) =~= spec_configure(processes@, endpoints@).take(i + 1));
        }
        i = i + 1;
    }
    proof {
        assert(spec_configure(processes@, endpoints@).take(n as int) =~= spec_configure(
            processes@,
            endpoints@,
        ));
    }
    out
}

}

/// `"rank"` as bytes.
pub open spec fn rank_key_head() -> Seq<u8> {
    seq![114u8, 97, 110, 107]
}

/// The view of a key/value entry list.
pub open spec fn pairs_view(s: Seq<(Vec<u8>, Vec<u8>)>) -> Seq<(Seq<u8>, Seq<u8>)> {
    s.map_values(|p: (Vec<u8>, Vec<u8>)| (p.0@, p.1@))
}

/// The JSON entries of a configured-process list: `rank<i>` mapped to the
/// address, in batch order.
pub open spec fn spec_rank_entries(c: Seq<(u32, Seq<u8>, u16)>) -> Seq<(Seq<u8>, Seq<u8>)> {
    Seq::new(c.len(), |i: int| (rank_key_head() + dec_digits(i as nat), c[i].1))
}

/// Builds the `rank<i>` to address entries of a configured-process list.
pub fn build_rank_ports_entries(configured: &Vec<(u32, Vec<u8>, u16)>) -> (out: Vec<
    (Vec<u8>, Vec<u8>),
>)
    requires
        configured@.len() <= u32::MAX,
    ensures
        pairs_view(out@) == spec_rank_entries(triples_view(configured@)),
{
    let ghost target = spec_rank_entries(triples_view(configured@));
    let n = configured.len();
    let mut out: Vec<(Vec<u8>, Vec<u8>)> = Vec::new();
    let mut i: usize = 0;
    while i < n
        invariant
            0 <= i <= n,
            n == configured@.len() <= u32::MAX,
            target == spec_rank_entries(triples_view(configured@)),
            pairs_view(out@) =~= target.take(i as int),
        decreases n - i,
    {
        let ghost prev = out@;
        let mut key: Vec<u8> = vec![114u8, 97, 110, 107];
        proof {
            assert(key@ =~= rank_key_head());
        }
        push_dec(&mut key, i as u32);
        let value = crate::bytes::clone_bytes(&configured[i].1);
        out.push((key, value));
        proof {
            assert(pairs_view(out@) =~= pairs_view(prev).push((key@, value@)));
            assert(target[i as int] == (rank_key_head() + dec_digits(i as nat),
            triples_view(configured@)[i as int].1));
            assert(target.take(i as int).push(target[i as int]) =~= target.take(i + 1));
        }
        i = i + 1;
    }
    proof {
        assert(target.take(n as int) =~= target);
    }
    out
}

} // verus!

verus! {

/// The pretty-printed JSON object whose string members are the given
/// key/value entries. Named only: what it returns on given values is the
/// encoder's.
pub uninterp spec fn json_pretty_of(entries: Seq<(Seq<u8>, Seq<u8>)>) -> Seq<u8>;

/// Relies on serde_json::to_string_pretty: the pretty-printed JSON object of
/// the entries, a function of the entries alone.
#[verifier::external_body]
fn entries_to_pretty_json(entries: &Vec<(Vec<u8>, Vec<u8>)>) -> (r: Result<Vec<u8>, Vec<u8>>)
    ensures
        r is Ok ==> r->Ok_0@ == json_pretty_of(pairs_view(entries@)),
{
    let mut map = serde_json::Map::new();
    for (k, v) in entries.iter() {
        let key = String::from_utf8_lossy(k).into_owned();
        let value = String::from_utf8_lossy(v).into_owned();
        map.insert(key, serde_json::Value::String(value));
    }
    match serde_json::to_string_pretty(&map) {
        Ok(text) => Ok(text.into_bytes()),
        Err(e) => Err(format!("{}", e).into_bytes()),
    }
}

/// Renders the `rank<i>` to address table of a configured-process list as a
/// pretty-printed JSON object; an encoder failure comes back as a command
/// error carrying the encoder's message.
pub fn rank_ports_json(configured: &Vec<(u32, Vec<u8>, u16)>) -> (r: Result<
    Vec<u8>,
    ProcessRankError,
>)
    requires
        configured@.len() <= u32::MAX,
    ensures
        r is Ok ==> r->Ok_0@ == json_pretty_of(spec_rank_entries(triples_view(configured@))),
        r is Err ==> r->Err_0 is CommandFailed,
{
    let entries = build_rank_ports_entries(configured);
    match entries_to_pretty_json(&entries) {
        Result::Ok(text) => Result::Ok(text),
        Result::Err(msg) => Result::Err(ProcessRankError::CommandFailed(msg)),
    }
}

/// The configured-process list that a batch of environments and endpoints
/// leads to: ranks collected, sorted, and paired with endpoints.
pub open spec fn spec_configured_of(
    envs: Seq<(u32, Vec<Vec<u8>>)>,
    endpoints: Seq<(Vec<u8>, u16)>,
) -> Seq<(u32, Seq<u8>, u16)> {
    spec_configure(spec_sort_ranks(spec_collect(envs)), endpoints)
}

impl ProcessRankApi {

/// The whole configuration pass over plain values: collect the local ranks,
/// sort them, pair them with endpoints, and render the rank/address table as
/// JSON. The caller supplies the environments and free endpoints and later
/// runs the probing commands and writes the file.
pub fn get_configure_and_write(
    envs: &Vec<(u32, Vec<Vec<u8>>)>,
    endpoints: &Vec<(Vec<u8>, u16)>,
) -> (r: Result<Vec<u8>, ProcessRankError>)
    requires
        endpoints@.len() >= envs@.len(),
        envs@.len() <= u32::MAX,
    ensures
        spec_collect(envs@).len() == 0 ==> r == Result::<Vec<u8>, ProcessRankError>::Err(
            ProcessRankError::NoProcessesFound,
        ),
        r is Ok ==> spec_collect(envs@).len() > 0 && r->Ok_0@ == json_pretty_of(
            spec_rank_entries(spec_configured_of(envs@, endpoints@)),
        ),
        r is Err ==> (r->Err_0 is NoProcessesFound <==> spec_collect(envs@).len() == 0)
            && (r->Err_0 is NoProcessesFound || r->Err_0 is CommandFailed),
{
    proof {
        lemma_collect_len(envs@);
        lemma_sort_len(spec_collect(envs@));
    }
    let ranks = match ProcessRankApi::get_all_python_local_ranks(envs) {
        Result::Ok(ranks) => ranks,
        Result::Err(e) => {
            return Result::Err(e);
        },
    };
    let configured = ProcessRankApi::configure_processes_with_ports(&ranks, endpoints);
    proof {
        assert(configured@.len() == triples_view(configured@).len());
        assert(triples_view(configured@) == spec_configured_of(envs@, endpoints@));
    }
    match rank_ports_json(&configured) {
        Result::Ok(text) => Result::Ok(text),
        Result::Err(e) => Result::Err(e),
    }
}

}

} // verus!
