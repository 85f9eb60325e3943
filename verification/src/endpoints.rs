//! Parsing of rank/address bookkeeping text: `rank<i>` keys from the saved
//! address table, `<rank>:<ip:port>` selections, the per-rank call-stack
//! URL, and pid lists as a process-lookup prints them.

use vstd::prelude::*;

use crate::bytes::is_prefix;
use crate::bytes::starts_with;
use crate::config_rankpid::spec_parse_u32;
use crate::config_rankpid::parse_u32;

verus! {

pub const LF: u8 = 10;

pub const LT: u8 = 60;

pub const GT: u8 = 62;

/// `"rank"` as bytes.
pub open spec fn rank_word() -> Seq<u8> {
    seq![114u8, 97, 110, 107]
}

/// `s` with every leading repetition of `"rank"` removed.
pub open spec fn strip_rank_word(s: Seq<u8>) -> Seq<u8>
    decreases s.len(),
    via strip_rank_word_decreases
{
    if is_prefix(rank_word(), s) && s.len() >= 4 {
        strip_rank_word(s.skip(4))
    } else {
        s
    }
}

#[via_fn]
proof fn strip_rank_word_decreases(s: Seq<u8>) {
}

/// The rank number of a `rank<i>` key: leading repetitions of the word are
/// stripped, the rest must be a decimal number.
pub open spec fn spec_parse_rank_key(s: Seq<u8>) -> Option<u32> {
    spec_parse_u32(strip_rank_word(s))
}

/// Parses a `rank<i>` key from the saved address table.
pub fn parse_rank_key(s: &Vec<u8>) -> (r: Option<u32>)
    ensures
        r == spec_parse_rank_key(s@),
{
    let mut i: usize = 0;
    let n = s.len();
    let word: Vec<u8> = vec![114u8, 97, 110, 107];
    proof {
        assert(word@ =~= rank_word());
        assert(s@.skip(0) =~= s@);
    }
    loop
        invariant
            0 <= i <= n,
            n == s@.len(),
            word@ == rank_word(),
            strip_rank_word(s@) == strip_rank_word(s@.skip(i as int)),
        ensures
            strip_rank_word(s@) == s@.skip(i as int),
            0 <= i <= n,
            n == s@.len(),
            word@ == rank_word(),
        decreases n - i,
    {
        let mut tail: Vec<u8> = Vec::new();
        let mut k: usize = i;
        while k < n
            invariant
                i <= k <= n,
                n == s@.len(),
                tail@ =~= s@.subrange(i as int, k as int),
            decreases n - k,
        {
            tail.push(s[k]);
            k = k + 1;
        }
        proof {
            assert(tail@ =~= s@.skip(i as int));
        }
        if !starts_with(&tail, &word) {
            proof {
                assert(strip_rank_word(s@.skip(i as int)) == s@.skip(i as int));
            }
            break;
        }
        proof {
            assert(s@.skip(i as int).skip(4) =~= s@.skip(i + 4));
        }
        i = i + 4;
    }
    let mut rest: Vec<u8> = Vec::new();
    let mut k: usize = i;
    while k < n
        invariant
            i <= k <= n,
            n == s@.len(),
            rest@ =~= s@.subrange(i as int, k as int),
        decreases n - k,
    {
        rest.push(s[k]);
        k = k + 1;
    }
    proof {
        assert(rest@ =~= s@.skip(i as int));
    }
    parse_u32(&rest)
}

/// `"http://"` as bytes.
pub open spec fn url_scheme() -> Seq<u8> {
    seq![104u8, 116, 116, 112, 58, 47, 47]
}

/// `"/apis/pythonext/callstack"` as bytes.
pub open spec fn url_path() -> Seq<u8> {
    seq![47u8, 97, 112, 105, 115, 47, 112, 121, 116, 104, 111, 110, 101, 120, 116, 47, 99, 97,
        108, 108, 115, 116, 97, 99, 107]
}

/// The call-stack URL of one worker address.
pub open spec fn spec_callstack_url(addr: Seq<u8>) -> Seq<u8> {
    url_scheme() + addr + url_path()
}

/// Builds the call-stack URL of one worker address.
pub fn build_callstack_url(addr: &Vec<u8>) -> (out: Vec<u8>)
    ensures
        out@ == spec_callstack_url(addr@),
{
    let mut out: Vec<u8> = vec![104u8, 116, 116, 112, 58, 47, 47];
    proof {
        assert(out@ =~= url_scheme());
    }
    crate::bytes::append_bytes(&mut out, addr);
    let path: Vec<u8> = vec![47u8, 97, 112, 105, 115, 47, 112, 121, 116, 104, 111, 110, 101, 120,
        116, 47, 99, 97, 108, 108, 115, 116, 97, 99, 107];
    proof {
        assert(path@ =~= url_path());
    }
    crate::bytes::append_bytes(&mut out, &path);
    proof {
        assert(out@ =~= spec_callstack_url(addr@));
    }
    out
}

/// Index of the first occurrence of `b`, or -1.
pub open spec fn find_byte(s: Seq<u8>, b: u8) -> int
    decreases s.len(),
{
    if s.len() == 0 {
        -1
    } else if s[0] == b {
        0
    } else {
        let r = find_byte(s.drop_first(), b);
        if r == -1 {
            -1
        } else {
            r + 1
        }
    }
}

/// A found byte lies inside the text, at the first matching position.
pub proof fn lemma_find_byte(s: Seq<u8>, b: u8)
    ensures
        -1 <= find_byte(s, b) < s.len(),
        find_byte(s, b) >= 0 ==> s[find_byte(s, b)] == b,
        forall|k: int| 0 <= k < find_byte(s, b) ==> s[k] != b,
        find_byte(s, b) == -1 ==> forall|k: int| 0 <= k < s.len() ==> s[k] != b,
    decreases s.len(),
{
    if s.len() > 0 && s[0] != b {
        lemma_find_byte(s.drop_first(), b);
        let r = find_byte(s.drop_first(), b);
        assert(find_byte(s, b) == (if r == -1 { -1int } else { r + 1 }));
        if r >= 0 {
            assert(s.drop_first()[r] == s[r + 1]);
        }
        assert forall|k: int| 0 <= k < find_byte(s, b) implies s[k] != b by {
            if k > 0 {
                assert(s.drop_first()[k - 1] == s[k]);
            }
        }
        if find_byte(s, b) == -1 {
            assert forall|k: int| 0 <= k < s.len() implies s[k] != b by {
                if k > 0 {
                    assert(s.drop_first()[k - 1] == s[k]);
                }
            }
        }
    }
}

/// Angle brackets removed from both ends.
pub open spec fn trim_angles(s: Seq<u8>) -> Seq<u8>
    decreases s.len(),
{
    if s.len() > 0 && (s[0] == LT || s[0] == GT) {
        trim_angles(s.drop_first())
    } else if s.len() > 0 && (s.last() == LT || s.last() == GT) {
        trim_angles(s.drop_last())
    } else {
        s
    }
}

/// One `<rank>:<ip:port>` selection, split at its first colon, each side
/// with angle brackets trimmed: the rank (when it parses) and the address.
/// Nothing when the text holds no colon.
pub open spec fn spec_parse_rank_spec(s: Seq<u8>) -> Option<(Option<u32>, Seq<u8>)> {
    let i = find_byte(s, crate::frames::COLON);
    if i == -1 {
        Option::None
    } else {
        Option::Some(
            (spec_parse_u32(trim_angles(s.take(i))), trim_angles(s.skip(i + 1))),
        )
    }
}

/// Trims angle brackets from both ends.
pub fn trim_angles_exec(s: &Vec<u8>) -> (out: Vec<u8>)
    ensures
        out@ == trim_angles(s@),
    decreases s@.len(),
{
    let n = s.len();
    if n > 0 && (s[0] == LT || s[0] == GT) {
        let mut rest: Vec<u8> = Vec::new();
        let mut k: usize = 1;
        while k < n
            invariant
                1 <= k <= n,
                n == s@.len(),
                rest@ =~= s@.subrange(1, k as int),
            decreases n - k,
        {
            rest.push(s[k]);
            k = k + 1;
        }
        proof {
            assert(rest@ =~= s@.drop_first());
        }
        trim_angles_exec(&rest)
    } else if n > 0 && (s[n - 1] == LT || s[n - 1] == GT) {
        let mut rest: Vec<u8> = Vec::new();
        let mut k: usize = 0;
        while k < n - 1
            invariant
                0 <= k <= n - 1,
                n == s@.len(),
                rest@ =~= s@.subrange(0, k as int),
            decreases n - k,
        {
            rest.push(s[k]);
            k = k + 1;
        }
        proof {
            assert(rest@ =~= s@.drop_last());
        }
        trim_angles_exec(&rest)
    } else {
        crate::bytes::clone_bytes(s)
    }
}

/// Splits one `<rank>:<ip:port>` selection into its rank and address.
pub fn parse_rank_spec(s: &Vec<u8>) -> (r: Option<(Option<u32>, Vec<u8>)>)
    ensures
        match r {
            Option::Some(p) => spec_parse_rank_spec(s@) == Option::Some(
                (p.0, trim_angles(s@.skip(find_byte(s@, crate::frames::COLON) + 1))),
            ) && p.1@ == trim_angles(s@.skip(find_byte(s@, crate::frames::COLON) + 1)),
            Option::None => spec_parse_rank_spec(s@) is None,
        },
{
    let n = s.len();
    let mut i: usize = 0;
    proof {
        lemma_find_byte(s@, crate::frames::COLON);
    }
    while i < n && s[i] != 58
        invariant
            0 <= i <= n,
            n == s@.len(),
            forall|k: int| 0 <= k < i ==> s@[k] != 58,
        decreases n - i,
    {
        i = i + 1;
    }
    if i == n {
        proof {
            lemma_find_byte(s@, crate::frames::COLON);
        }
        return None;
    }
    proof {
        lemma_find_byte_at(s@, crate::frames::COLON, i as int);
    }
    let mut left: Vec<u8> = Vec::new();
    let mut k: usize = 0;
    while k < i
        invariant
            0 <= k <= i < n,
            n == s@.len(),
            left@ =~= s@.subrange(0, k as int),
        decreases i - k,
    {
        left.push(s[k]);
        k = k + 1;
    }
    let mut right: Vec<u8> = Vec::new();
    let mut m: usize = i + 1;
    while m < n
        invariant
            i + 1 <= m <= n,
            i < n,
            n == s@.len(),
            right@ =~= s@.subrange(i + 1, m as int),
        decreases n - m,
    {
        right.push(s[m]);
        m = m + 1;
    }
    proof {
        assert(left@ =~= s@.take(i as int));
        assert(right@ =~= s@.skip(i + 1));
    }
    let left_trimmed = trim_angles_exec(&left);
    let right_trimmed = trim_angles_exec(&right);
    let rank = parse_u32(&left_trimmed);
    Some((rank, right_trimmed))
}

/// A scan that stops at the first hit finds `find_byte`.
proof fn lemma_find_byte_at(s: Seq<u8>, b: u8, i: int)
    requires
        0 <= i < s.len(),
        s[i] == b,
        forall|k: int| 0 <= k < i ==> s[k] != b,
    ensures
        find_byte(s, b) == i,
    decreases i,
{
    if i > 0 {
        assert(s.drop_first()[i - 1] == s[i]);
        assert forall|k: int| 0 <= k < i - 1 implies s.drop_first()[k] != b by {
            assert(s.drop_first()[k] == s[k + 1]);
        }
        lemma_find_byte_at(s.drop_first(), b, i - 1);
    }
}

/// The numbers on the lines of a pid listing, one line per entry, lines that
/// are not plain numbers skipped.
pub open spec fn spec_pids_of(s: Seq<u8>) -> Seq<u32>
    decreases s.len(),
    via spec_pids_of_decreases
{
    let i = find_byte(s, LF);
    if i == -1 {
        match spec_parse_u32(s) {
            Option::Some(v) => seq![v],
            Option::None => Seq::empty(),
        }
    } else {
        (match spec_parse_u32(s.take(i)) {
            Option::Some(v) => seq![v],
            Option::None => Seq::<u32>::empty(),
        }) + spec_pids_of(s.skip(i + 1))
    }
}

#[via_fn]
proof fn spec_pids_of_decreases(s: Seq<u8>) {
    lemma_find_byte(s, LF);
}

/// Reads the pids out of a newline-separated listing, skipping anything that
/// is not a plain number.
pub fn parse_pid_lines(s: &Vec<u8>) -> (out: Vec<u32>)
    ensures
        out@ == spec_pids_of(s@),
    decreases s@.len(),
{
    let ghost whole = s@;
    let n = s.len();
    let mut i: usize = 0;
    while i < n && s[i] != LF
        invariant
            0 <= i <= n,
            n == s@.len(),
            forall|k: int| 0 <= k < i ==> s@[k] != LF,
        decreases n - i,
    {
        i = i + 1;
    }
    let mut line: Vec<u8> = Vec::new();
    let mut k: usize = 0;
    while k < i
        invariant
            0 <= k <= i <= n,
            n == s@.len(),
            line@ =~= s@.subrange(0, k as int),
        decreases i - k,
    {
        line.push(s[k]);
        k = k + 1;
    }
    proof {
        assert(line@ =~= s@.take(i as int));
    }
    if i == n {
        proof {
            lemma_find_byte(s@, LF);
            assert(find_byte(s@, LF) == -1);
            assert(s@.take(n as int) =~= s@);
        }
        match parse_u32(&line) {
            Option::Some(v) => {
                let mut out: Vec<u32> = Vec::new();
                out.push(v);
                proof {
                    assert(out@ =~= spec_pids_of(s@));
                }
                out
            },
            Option::None => {
                let out: Vec<u32> = Vec::new();
                proof {
                    assert(out@ =~= spec_pids_of(s@));
                }
                out
            },
        }
    } else {
        proof {
            lemma_find_byte_at(s@, LF, i as int);
        }
        let mut rest: Vec<u8> = Vec::new();
        let mut m: usize = i + 1;
        while m < n
            invariant
                i + 1 <= m <= n,
                i < n,
                n == s@.len(),
                rest@ =~= s@.subrange(i + 1, m as int),
            decreases n - m,
        {
            rest.push(s[m]);
            m = m + 1;
        }
        proof {
            assert(rest@ =~= s@.skip(i + 1));
        }
        let tail = parse_pid_lines(&rest);
        let mut out: Vec<u32> = Vec::new();
        match parse_u32(&line) {
            Option::Some(v) => {
                out.push(v);
            },
            Option::None => {},
        }
        let ghost head = out@;
        let tn = tail.len();
        let mut t: usize = 0;
        while t < tn
            invariant
                0 <= t <= tn,
                tn == tail@.len(),
                out@ =~= head + tail@.take(t as int),
            decreases tn - t,
        {
            out.push(tail[t]);
            proof {
                assert(head + tail@.take(t as int) + seq![tail@[t as int]] =~= head + tail@.take(
                    t + 1,
                ));
            }
            t = t + 1;
        }
        proof {
            assert(tail@.take(tn as int) =~= tail@);
            assert(out@ =~= spec_pids_of(s@));
        }
        out
    }
}

} // verus!
