//! Range compression of ascending rank sequences: maximal runs of
//! consecutive integers rendered as `start-end` (or a bare number for a run
//! of one), joined by `/`; and the inverse decompression.

use vstd::prelude::*;

use crate::rankset::strictly_ascending;

verus! {

pub const DASH: u8 = 45;

pub const SLASH: u8 = 47;

pub const AT_SIGN: u8 = 64;

pub const PIPE: u8 = 124;

/// ASCII decimal digit.
pub open spec fn is_digit(c: u8) -> bool {
    48 <= c <= 57
}

/// Decimal rendering of `n`, most significant digit first, no leading zeros.
pub open spec fn dec_digits(n: nat) -> Seq<u8>
    decreases n,
{
    if n < 10 {
        seq![(48 + n) as u8]
    } else {
        dec_digits(n / 10) + seq![(48 + n % 10) as u8]
    }
}

/// Value of a digit string, most significant digit first.
pub open spec fn dec_val(s: Seq<u8>) -> nat
    decreases s.len(),
{
    if s.len() == 0 {
        0
    } else {
        dec_val(s.drop_last()) * 10 + (s.last() - 48) as nat
    }
}

/// 10 to the `k`.
pub open spec fn pow10(k: nat) -> nat
    decreases k,
{
    if k == 0 {
        1nat
    } else {
        10 * pow10((k - 1) as nat)
    }
}

/// The decimal rendering consists of digits, has no leading zero (except for
/// the single digit of zero itself), and parses back to the same number.
pub proof fn lemma_dec_digits(n: nat)
    ensures
        dec_digits(n).len() >= 1,
        forall|i: int| 0 <= i < dec_digits(n).len() ==> is_digit(#[trigger] dec_digits(n)[i]),
        dec_val(dec_digits(n)) == n,
        dec_digits(n)[0] == 48 <==> n == 0,
        n >= 10 ==> dec_digits(n).len() >= 2,
    decreases n,
{
    if n < 10 {
        assert(dec_val(Seq::<u8>::empty()) == 0);
        assert(dec_digits(n).drop_last() =~= Seq::<u8>::empty());
        assert(dec_val(dec_digits(n)) == dec_val(Seq::<u8>::empty()) * 10 + (dec_digits(n).last()
            - 48) as nat);
    } else {
        lemma_dec_digits(n / 10);
        let d = dec_digits(n / 10);
        let whole = d + seq![(48 + n % 10) as u8];
        assert(whole.drop_last() =~= d);
        assert(whole.last() == (48 + n % 10) as u8);
        assert(dec_val(whole) == n / 10 * 10 + n % 10);
        assert(n / 10 * 10 + n % 10 == n) by {
            vstd::arithmetic::div_mod::lemma_fundamental_div_mod(n as int, 10);
        }
        assert(whole[0] == d[0]);
        assert(n / 10 >= 1) by {
            vstd::arithmetic::div_mod::lemma_fundamental_div_mod(n as int, 10);
        }
    }
}

/// Digit strings are bounded by powers of ten; without a leading zero they
/// are also bounded from below.
pub proof fn lemma_dec_val_bounds(s: Seq<u8>)
    requires
        forall|i: int| 0 <= i < s.len() ==> is_digit(#[trigger] s[i]),
    ensures
        dec_val(s) < pow10(s.len()),
        s.len() >= 1 && s[0] != 48 ==> dec_val(s) >= pow10((s.len() - 1) as nat),
    decreases s.len(),
{
    if s.len() > 0 {
        let t = s.drop_last();
        assert(forall|i: int| 0 <= i < t.len() ==> is_digit(#[trigger] t[i]));
        lemma_dec_val_bounds(t);
        assert(dec_val(s) == dec_val(t) * 10 + (s.last() - 48) as nat);
        assert(dec_val(t) * 10 <= (pow10(t.len()) - 1) * 10) by {
            vstd::arithmetic::mul::lemma_mul_inequality(
                dec_val(t) as int,
                pow10(t.len()) - 1,
                10,
            );
        }
        if s.len() >= 2 && s[0] != 48 {
            assert(t[0] == s[0]);
            assert(dec_val(t) * 10 >= pow10((t.len() - 1) as nat) * 10) by {
                vstd::arithmetic::mul::lemma_mul_inequality(
                    pow10((t.len() - 1) as nat) as int,
                    dec_val(t) as int,
                    10,
                );
            }
        }
        if s.len() == 1 && s[0] != 48 {
            assert(dec_val(s) >= 1);
        }
    }
}

/// Appends the decimal rendering of `n`.
pub fn push_dec(out: &mut Vec<u8>, n: u32)
    ensures
        final(out)@ == old(out)@ + dec_digits(n as nat),
    decreases n,
{
    if n < 10 {
        out.push(48 + n as u8);
        proof {
            assert(old(out)@ + dec_digits(n as nat) =~= old(out)@.push((48 + n as nat) as u8));
        }
    } else {
        push_dec(out, n / 10);
        out.push(48 + (n % 10) as u8);
        proof {
            assert(old(out)@ + dec_digits((n / 10) as nat) + seq![(48 + n as nat % 10) as u8]
                =~= old(out)@ + dec_digits(n as nat));
        }
    }
}

/// Length of the maximal run of consecutive integers at the front of `s`.
pub open spec fn run_len(s: Seq<u32>) -> nat
    decreases s.len(),
{
    if s.len() == 0 {
        0
    } else if s.len() >= 2 && s[1] == s[0] + 1 {
        1 + run_len(s.drop_first())
    } else {
        1
    }
}

/// The initial run: bounds, contents, and maximality.
pub proof fn lemma_run_len(s: Seq<u32>)
    requires
        s.len() > 0,
    ensures
        1 <= run_len(s) <= s.len(),
        forall|m: int| 0 <= m < run_len(s) ==> #[trigger] s[m] == s[0] + m,
        run_len(s) < s.len() ==> s[run_len(s) as int] != s[0] + run_len(s),
    decreases s.len(),
{
    if s.len() >= 2 && s[1] == s[0] + 1 {
        lemma_run_len(s.drop_first());
        let t = s.drop_first();
        assert forall|m: int| 0 <= m < run_len(s) implies #[trigger] s[m] == s[0] + m by {
            if m > 0 {
                assert(t[m - 1] == t[0] + (m - 1));
            }
        }
        if run_len(s) < s.len() {
            assert(t[run_len(t) as int] != t[0] + run_len(t));
            assert(s[run_len(s) as int] == t[run_len(t) as int]);
        }
    }
}

/// Rendering of one run.
pub open spec fn render_run(a: u32, b: u32) -> Seq<u8> {
    if a == b {
        dec_digits(a as nat)
    } else {
        dec_digits(a as nat) + seq![DASH] + dec_digits(b as nat)
    }
}

/// Range-compressed rendering of an ascending sequence: maximal runs joined
/// by `/`; the empty sequence renders as the empty string.
pub open spec fn compress(s: Seq<u32>) -> Seq<u8>
    decreases s.len(),
    via compress_decreases
{
    if s.len() == 0 {
        Seq::empty()
    } else {
        let k = run_len(s);
        let run = render_run(s[0], s[k - 1]);
        if k == s.len() {
            run
        } else {
            run + seq![SLASH] + compress(s.skip(k as int))
        }
    }
}

#[via_fn]
proof fn compress_decreases(s: Seq<u32>) {
    if s.len() > 0 {
        lemma_run_len(s);
    }
}

/// Renders the ascending sequence held by `v` in compressed range form.
pub fn compress_ranges(v: &Vec<u32>) -> (out: Vec<u8>)
    ensures
        out@ == compress(v@),
{
    let n = v.len();
    let mut out: Vec<u8> = Vec::new();
    let mut i: usize = 0;
    proof {
        assert(v@.skip(0) =~= v@);
        assert(out@ + compress(v@) =~= compress(v@));
    }
    while i < n
        invariant
            0 <= i <= n,
            n == v@.len(),
            i == 0 ==> out@.len() == 0,
            i > 0 ==> compress(v@) == out@ + (if i < n {
                seq![SLASH] + compress(v@.skip(i as int))
            } else {
                Seq::<u8>::empty()
            }),
        decreases n - i,
    {
        let ghost i0 = i as int;
        let ghost pre = out@;
        if i > 0 {
            out.push(SLASH);
        }
        let ghost mid = out@;
        let ghost rest = v@.skip(i as int);
        // scan to the end of the current run of consecutive values
        let start: u32 = v[i];
        let mut j: usize = i;
        while j + 1 < n && v[j + 1] as u64 == v[j] as u64 + 1
            invariant
                0 <= i <= j < n,
                n == v@.len(),
                forall|m: int| i <= m <= j ==> #[trigger] v@[m] == v@[i as int] + (m - i),
            decreases n - j,
        {
            j = j + 1;
        }
        let ghost k = run_len(rest);
        proof {
            assert forall|m: int| 0 <= m < j + 1 - i0 implies #[trigger] rest[m] == rest[0]
                + m by {
                assert(rest[m] == v@[i0 + m]);
                assert(v@[i0 + m] == v@[i0] + (i0 + m - i0));
            }
            if j + 1 - i0 < rest.len() {
                assert(rest[j + 1 - i0] == v@[j + 1]);
                assert(v@[j as int] == v@[i0] + (j - i0));
                assert(rest[j + 1 - i0] != rest[0] + (j + 1 - i0));
            }
            lemma_run_len_exact(rest, (j + 1 - i0) as nat);
            assert(rest[0] == v@[i0]);
            assert(rest[k - 1] == v@[i0 + (k - 1)]);
            assert(rest[k - 1] == v@[j as int]);
        }
        let ghost run = render_run(rest[0], rest[k - 1]);
        // render the run
        push_dec(&mut out, start);
        if v[j] != start {
            out.push(DASH);
            push_dec(&mut out, v[j]);
            proof {
                assert(out@ =~= mid + run);
            }
        } else {
            proof {
                assert(out@ =~= mid + run);
            }
        }
        i = j + 1;
        proof {
            assert(v@.skip(i as int) =~= rest.skip(k as int));
            if i < n {
                assert(compress(rest) == (run + seq![SLASH]) + compress(v@.skip(i as int)));
                if i0 == 0 {
                    assert(compress(v@) == compress(rest)) by {
                        assert(v@.skip(0) =~= v@);
                    }
                    assert((mid + run) + (seq![SLASH] + compress(v@.skip(i as int))) =~= (run
                        + seq![SLASH]) + compress(v@.skip(i as int)));
                } else {
                    assert(compress(v@) == pre + (seq![SLASH] + compress(rest)));
                    assert(pre + (seq![SLASH] + ((run + seq![SLASH]) + compress(
                    v@.skip(i as int),
                    ))) =~= (mid + run) + (seq![SLASH] + compress(v@.skip(i as int))));
                }
            } else {
                assert(compress(rest) == run);
                if i0 == 0 {
                    assert(compress(v@) == compress(rest)) by {
                        assert(v@.skip(0) =~= v@);
                    }
                    assert(mid + run =~= run);
                } else {
                    assert(compress(v@) == pre + (seq![SLASH] + compress(rest)));
                    assert(pre + (seq![SLASH] + run) =~= (mid + run));
                }
                assert(compress(v@) == out@ + Seq::<u8>::empty()) by {
                    assert(out@ + Seq::<u8>::empty() =~= out@);
                }
            }
        }
    }
    proof {
        if n == 0 {
            assert(compress(v@) == Seq::<u8>::empty());
            assert(out@ =~= compress(v@));
        } else {
            assert(out@ + Seq::<u8>::empty() =~= out@);
        }
    }
    out
}

/// The run found by a left-to-right scan is the maximal initial run.
proof fn lemma_run_len_exact(s: Seq<u32>, k: nat)
    requires
        s.len() > 0,
        1 <= k <= s.len(),
        forall|m: int| 0 <= m < k ==> #[trigger] s[m] == s[0] + m,
        k < s.len() ==> s[k as int] != s[0] + k,
    ensures
        run_len(s) == k,
    decreases s.len(),
{
    if s.len() >= 2 && s[1] == s[0] + 1 {
        let t = s.drop_first();
        assert(k >= 2) by {
            if k == 1 {
                assert(s[1] != s[0] + 1);
            }
        }
        lemma_run_len_exact(t, (k - 1) as nat);
    } else {
        assert(k == 1) by {
            if k >= 2 {
                assert(s[1] == s[0] + 1);
            }
        }
    }
}

} // verus!

verus! {

/// Length of the maximal digit prefix of `s`.
pub open spec fn digits_len(s: Seq<u8>) -> nat
    decreases s.len(),
{
    if s.len() > 0 && is_digit(s[0]) {
        1 + digits_len(s.drop_first())
    } else {
        0
    }
}

/// The digit prefix never extends past the end.
pub proof fn lemma_digits_len_le(s: Seq<u8>)
    ensures
        digits_len(s) <= s.len(),
    decreases s.len(),
{
    if s.len() > 0 && is_digit(s[0]) {
        lemma_digits_len_le(s.drop_first());
    }
}

/// A scan that stops at the first non-digit finds the digit prefix.
pub proof fn lemma_digits_len_exact(s: Seq<u8>, k: nat)
    requires
        k <= s.len(),
        forall|m: int| 0 <= m < k ==> is_digit(#[trigger] s[m]),
        k < s.len() ==> !is_digit(s[k as int]),
    ensures
        digits_len(s) == k,
    decreases s.len(),
{
    if s.len() > 0 && is_digit(s[0]) {
        let t = s.drop_first();
        assert(k >= 1);
        assert forall|m: int| 0 <= m < k - 1 implies is_digit(#[trigger] t[m]) by {
            assert(t[m] == s[m + 1]);
        }
        if k - 1 < t.len() {
            assert(t[k - 1] == s[k as int]);
        }
        lemma_digits_len_exact(t, (k - 1) as nat);
    } else {
        assert(k == 0) by {
            if k > 0 {
                assert(is_digit(s[0]));
            }
        }
    }
}

/// One parsed number: its value and how many bytes it occupies. `None` when
/// there is no digit, on a leading zero before further digits, or when the
/// value exceeds `u32::MAX`.
pub open spec fn parse_num(s: Seq<u8>) -> Option<(u32, nat)> {
    let d = digits_len(s);
    if d == 0 {
        None
    } else if d > 1 && s[0] == 48 {
        None
    } else if dec_val(s.take(d as int)) > u32::MAX {
        None
    } else {
        Some((dec_val(s.take(d as int)) as u32, d))
    }
}

/// One parsed range: `a`, `a-b`, with the number of bytes consumed.
pub open spec fn parse_range(s: Seq<u8>) -> Option<(u32, u32, nat)> {
    match parse_num(s) {
        Option::None => Option::None,
        Option::Some((a, d)) => {
            if d < s.len() && s[d as int] == DASH {
                match parse_num(s.skip(d + 1int)) {
                    Option::None => Option::None,
                    Option::Some((b, d2)) => Option::Some((a, b, d + 1 + d2)),
                }
            } else {
                Option::Some((a, a, d))
            }
        },
    }
}

/// The integers from `a` through `b`.
pub open spec fn expand(a: u32, b: u32) -> Seq<u32> {
    Seq::new((b - a + 1) as nat, |i: int| (a + i) as u32)
}

/// A parsed range consumes at least one byte and never reads past the end.
pub proof fn lemma_parse_range_bounds(s: Seq<u8>)
    requires
        parse_range(s) is Some,
    ensures
        1 <= parse_range(s)->Some_0.2 <= s.len(),
{
    lemma_digits_len_le(s);
    let d = digits_len(s);
    if d < s.len() && s[d as int] == DASH {
        lemma_digits_len_le(s.skip(d + 1int));
    }
}

/// The decompressed sequence: ranges joined by `/`, each expanded to its run
/// of integers. `None` when the text is not a rendering of ascending ranges.
pub open spec fn parse_ranges(s: Seq<u8>) -> Option<Seq<u32>>
    decreases s.len(),
    via parse_ranges_decreases
{
    if s.len() == 0 {
        Option::Some(Seq::empty())
    } else {
        match parse_range(s) {
            Option::None => Option::None,
            Option::Some((a, b, c)) => {
                if a > b {
                    Option::None
                } else if c == s.len() {
                    Option::Some(expand(a, b))
                } else if s[c as int] == SLASH {
                    match parse_ranges(s.skip(c + 1int)) {
                        Option::None => Option::None,
                        Option::Some(rest) => Option::Some(expand(a, b) + rest),
                    }
                } else {
                    Option::None
                }
            },
        }
    }
}

#[via_fn]
proof fn parse_ranges_decreases(s: Seq<u8>) {
    if s.len() > 0 && parse_ranges_helper_is_some(s) {
        lemma_parse_range_bounds(s);
    }
}

/// Guard used by the termination proof of `parse_ranges`.
pub open spec fn parse_ranges_helper_is_some(s: Seq<u8>) -> bool {
    parse_range(s) is Some
}

} // verus!

verus! {

/// Scans forward from `start` to the end of the digit prefix.
fn digits_end(s: &Vec<u8>, start: usize) -> (j: usize)
    requires
        start <= s@.len(),
    ensures
        start <= j <= s@.len(),
        j - start == digits_len(s@.skip(start as int)),
{
    let n = s.len();
    let mut j = start;
    while j < n && 48 <= s[j] && s[j] <= 57
        invariant
            start <= j <= n,
            n == s@.len(),
            forall|m: int| start <= m < j ==> is_digit(#[trigger] s@[m]),
        decreases n - j,
    {
        j = j + 1;
    }
    proof {
        let t = s@.skip(start as int);
        assert forall|m: int| 0 <= m < j - start implies is_digit(#[trigger] t[m]) by {
            assert(t[m] == s@[start + m]);
        }
        if j - start < t.len() {
            assert(t[j - start] == s@[j as int]);
        }
        lemma_digits_len_exact(t, (j - start) as nat);
    }
    j
}

/// Parses the number at `start`; mirrors `parse_num` on the suffix.
fn parse_num_at(s: &Vec<u8>, start: usize) -> (r: Option<(u32, usize)>)
    requires
        start <= s@.len(),
    ensures
        r is Some <==> parse_num(s@.skip(start as int)) is Some,
        r is Some ==> parse_num(s@.skip(start as int)) == Some(
            (r->Some_0.0, r->Some_0.1 as nat),
        ),
        r is Some ==> 1 <= r->Some_0.1 && start + r->Some_0.1 <= s@.len(),
    {
    let ghost t = s@.skip(start as int);
    let n = s.len();
    let j = digits_end(s, start);
    let d = j - start;
    proof {
        lemma_digits_len_le(t);
    }
    if d == 0 {
        return None;
    }
    if d > 1 && s[start] == 48 {
        proof {
            assert(t[0] == s@[start as int]);
        }
        return None;
    }
    proof {
        assert(t[0] == s@[start as int]);
        assert forall|m: int| 0 <= m < d implies is_digit(#[trigger] t.take(d as int)[m]) by {
            assert(t.take(d as int)[m] == t[m]);
            assert(t[m] == s@[start + m]);
            lemma_digits_len_le(t);
            assert(digits_len(t) == d);
            lemma_digits_prefix(t, m);
        }
        lemma_dec_val_bounds(t.take(d as int));
        reveal_with_fuel(pow10, 12);
    }
    if d > 10 {
        // a number of more than ten digits without a leading zero exceeds u32
        proof {
            assert(t.take(d as int)[0] == t[0]);
            lemma_pow10_mono(10, (d - 1) as nat);
            assert(dec_val(t.take(d as int)) >= pow10((d - 1) as nat));
        }
        return None;
    }
    let mut acc: u64 = 0;
    let mut m: usize = 0;
    proof {
        assert(t.take(0) =~= Seq::<u8>::empty());
    }
    while m < d
        invariant
            0 <= m <= d <= 10,
            start + d <= n <= usize::MAX,
            n == s@.len(),
            t == s@.skip(start as int),
            d == digits_len(t),
            forall|k: int| 0 <= k < d ==> is_digit(#[trigger] t.take(d as int)[k]),
            acc == dec_val(t.take(m as int)),
            acc < 10000000000,
        decreases d - m,
    {
        proof {
            assert(t.take(m + 1).drop_last() =~= t.take(m as int));
            assert(t.take(m + 1).last() == t[m as int]);
            assert(t[m as int] == s@[start + m]);
            assert(t.take(d as int)[m as int] == t[m as int]);
            assert forall|k: int| 0 <= k < m + 1 implies is_digit(
                #[trigger] t.take(m + 1)[k],
            ) by {
                assert(t.take(m + 1)[k] == t.take(d as int)[k]);
            }
            lemma_dec_val_bounds(t.take(m + 1));
            lemma_pow10_mono((m + 1) as nat, 10);
            reveal_with_fuel(pow10, 12);
            assert(48 <= s@[start + m] <= 57);
        }
        acc = acc * 10 + (s[start + m] - 48) as u64;
        m = m + 1;
    }
    if acc > 0xffff_ffff {
        return None;
    }
    Some((acc as u32, d))
}

/// A position inside the digit prefix holds a digit.
pub proof fn lemma_digits_prefix(t: Seq<u8>, m: int)
    requires
        0 <= m < digits_len(t),
    ensures
        m < t.len() && is_digit(t[m]),
    decreases m,
{
    lemma_digits_len_le(t);
    if m > 0 {
        lemma_digits_prefix(t.drop_first(), m - 1);
        assert(t.drop_first()[m - 1] == t[m]);
    }
}

/// Powers of ten are positive.
pub proof fn lemma_pow10_pos(k: nat)
    ensures
        pow10(k) >= 1,
    decreases k,
{
    if k > 0 {
        lemma_pow10_pos((k - 1) as nat);
    }
}

/// Powers of ten grow with the exponent.
pub proof fn lemma_pow10_mono(a: nat, b: nat)
    requires
        a <= b,
    ensures
        pow10(a) <= pow10(b),
        pow10(a) >= 1,
    decreases b,
{
    lemma_pow10_pos(a);
    if a < b {
        lemma_pow10_mono(a, (b - 1) as nat);
    }
}

/// Parses the range at `start`; mirrors `parse_range` on the suffix.
fn parse_range_at(s: &Vec<u8>, start: usize) -> (r: Option<(u32, u32, usize)>)
    requires
        start <= s@.len(),
    ensures
        r is Some <==> parse_range(s@.skip(start as int)) is Some,
        r is Some ==> parse_range(s@.skip(start as int)) == Some(
            (r->Some_0.0, r->Some_0.1, r->Some_0.2 as nat),
        ),
        r is Some ==> 1 <= r->Some_0.2 && start + r->Some_0.2 <= s@.len(),
{
    let ghost t = s@.skip(start as int);
    match parse_num_at(s, start) {
        None => None,
        Some((a, d)) => {
            let n = s.len();
            if start + d < n && s[start + d] == DASH {
                proof {
                    assert(t[d as int] == s@[start + d]);
                    assert(t.skip(d + 1) =~= s@.skip((start + d + 1) as int));
                }
                match parse_num_at(s, start + d + 1) {
                    None => None,
                    Some((b, d2)) => Some((a, b, d + 1 + d2)),
                }
            } else {
                proof {
                    if (d as int) < t.len() {
                        assert(t[d as int] == s@[start + d]);
                    }
                }
                Some((a, a, d))
            }
        },
    }
}

/// The integers from `a` through `b`, ascending.
fn expand_run(a: u32, b: u32) -> (out: Vec<u32>)
    requires
        a <= b,
    ensures
        out@ == expand(a, b),
{
    let count: u64 = (b - a) as u64 + 1;
    let mut out: Vec<u32> = Vec::new();
    let mut i: u64 = 0;
    while i < count
        invariant
            0 <= i <= count,
            count == b - a + 1,
            a <= b,
            out@.len() == i,
            forall|k: int| 0 <= k < i ==> #[trigger] out@[k] == a + k,
        decreases count - i,
    {
        out.push(a + i as u32);
        i = i + 1;
    }
    proof {
        assert(out@ =~= expand(a, b));
    }
    out
}

/// Decompresses the suffix of `s` that begins at `start`; mirrors
/// `parse_ranges`.
fn decompress_from(s: &Vec<u8>, start: usize) -> (r: Option<Vec<u32>>)
    requires
        start <= s@.len(),
    ensures
        r is Some <==> parse_ranges(s@.skip(start as int)) is Some,
        r is Some ==> parse_ranges(s@.skip(start as int)) == Some(r->0@),
    decreases s@.len() - start,
{
    let ghost t = s@.skip(start as int);
    if start == s.len() {
        proof {
            assert(t =~= Seq::<u32>::empty().map_values(|x: u32| 0u8).take(0));
            assert(t.len() == 0);
            assert(parse_ranges(t) == Some(Seq::<u32>::empty()));
        }
        let out: Vec<u32> = Vec::new();
        proof {
            assert(out@ =~= Seq::<u32>::empty());
        }
        return Some(out);
    }
    match parse_range_at(s, start) {
        None => None,
        Some((a, b, c)) => {
            if a > b {
                return None;
            }
            let next = start + c;
            if next == s.len() {
                let out = expand_run(a, b);
                return Some(out);
            }
            if s[next] != SLASH {
                proof {
                    assert(t[c as int] == s@[next as int]);
                }
                return None;
            }
            proof {
                assert(t[c as int] == s@[next as int]);
                assert(t.skip(c + 1) =~= s@.skip((next + 1) as int));
            }
            match decompress_from(s, next + 1) {
                None => None,
                Some(rest) => {
                    let mut out = expand_run(a, b);
                    let mut i: usize = 0;
                    let n = rest.len();
                    while i < n
                        invariant
                            0 <= i <= n,
                            n == rest@.len(),
                            out@ == expand(a, b) + rest@.take(i as int),
                        decreases n - i,
                    {
                        out.push(rest[i]);
                        proof {
                            assert(expand(a, b) + rest@.take(i as int) + seq![rest@[i as int]]
                                =~= expand(a, b) + rest@.take(i + 1));
                        }
                        i = i + 1;
                    }
                    proof {
                        assert(rest@.take(n as int) =~= rest@);
                    }
                    Some(out)
                },
            }
        },
    }
}

/// Decompresses a rendered range string back into the ascending sequence it
/// denotes; `None` when the text is not such a rendering.
pub fn decompress_ranges(s: &Vec<u8>) -> (r: Option<Vec<u32>>)
    ensures
        r is Some <==> parse_ranges(s@) is Some,
        r is Some ==> parse_ranges(s@) == Some(r->0@),
{
    proof {
        assert(s@.skip(0) =~= s@);
    }
    decompress_from(s, 0)
}

} // verus!

verus! {

/// Parsing a rendered number followed by non-digit text recovers the number
/// and stops exactly at its end.
proof fn lemma_parse_num_render(x: u32, tail: Seq<u8>)
    requires
        tail.len() > 0 ==> !is_digit(tail[0]),
    ensures
        parse_num(dec_digits(x as nat) + tail) == Some((x, dec_digits(x as nat).len())),
{
    let d = dec_digits(x as nat);
    let whole = d + tail;
    lemma_dec_digits(x as nat);
    assert forall|m: int| 0 <= m < d.len() implies is_digit(#[trigger] whole[m]) by {
        assert(whole[m] == d[m]);
    }
    if d.len() < whole.len() {
        assert(whole[d.len() as int] == tail[0]);
    }
    lemma_digits_len_exact(whole, d.len());
    assert(whole.take(d.len() as int) =~= d);
    assert(whole[0] == d[0]);
    if digits_len(whole) > 1 && whole[0] == 48 {
        assert(x == 0);
        assert(d.len() == 1);
    }
}

/// Parsing a rendered run followed by `/` or nothing recovers the run's
/// bounds and stops exactly at its end.
proof fn lemma_parse_range_render(a: u32, b: u32, tail: Seq<u8>)
    requires
        a <= b,
        tail.len() > 0 ==> tail[0] == SLASH,
    ensures
        parse_range(render_run(a, b) + tail) == Some((a, b, render_run(a, b).len() as nat)),
{
    let da = dec_digits(a as nat);
    let db = dec_digits(b as nat);
    lemma_dec_digits(a as nat);
    lemma_dec_digits(b as nat);
    if a == b {
        let whole = da + tail;
        lemma_parse_num_render(a, tail);
        if (da.len() as int) < whole.len() {
            assert(whole[da.len() as int] == tail[0]);
            assert(whole[da.len() as int] != DASH);
        }
    } else {
        let inner = seq![DASH] + (db + tail);
        let whole = render_run(a, b) + tail;
        assert(whole =~= da + inner);
        assert(inner[0] == DASH);
        assert(!is_digit(DASH));
        lemma_parse_num_render(a, inner);
        assert(parse_num(whole) == Some((a, da.len())));
        assert(whole[da.len() as int] == inner[0]);
        assert(whole.skip(da.len() + 1int) =~= db + tail);
        lemma_parse_num_render(b, tail);
        assert(parse_range(whole) == Some((a, b, da.len() + 1 + db.len())));
        assert(render_run(a, b).len() == da.len() + 1 + db.len());
    }
}

/// A suffix of an ascending sequence is ascending.
proof fn lemma_ascending_skip(s: Seq<u32>, k: int)
    requires
        strictly_ascending(s),
        0 <= k <= s.len(),
    ensures
        strictly_ascending(s.skip(k)),
{
    assert forall|i: int, j: int|
        0 <= i < j < s.skip(k).len() implies #[trigger] s.skip(k)[i] < #[trigger] s.skip(
        k,
    )[j] by {
        assert(s.skip(k)[i] == s[k + i]);
        assert(s.skip(k)[j] == s[k + j]);
    }
}

/// Decompressing the rendering of an ascending sequence gives that sequence
/// back: range compression loses nothing.
#[verifier::rlimit(50)]
pub proof fn lemma_compress_roundtrip(s: Seq<u32>)
    requires
        strictly_ascending(s),
    ensures
        parse_ranges(compress(s)) == Some(s),
    decreases s.len(),
{
    if s.len() == 0 {
        assert(compress(s) =~= Seq::<u8>::empty());
        assert(parse_ranges(compress(s)) == Some(Seq::<u32>::empty()));
        assert(Seq::<u32>::empty() =~= s);
    } else {
        lemma_run_len(s);
        let k = run_len(s);
        let a = s[0];
        let b = s[k - 1];
        assert(b == a + (k - 1));
        let run = render_run(a, b);
        if k == s.len() {
            assert(compress(s) == run);
            lemma_parse_range_render(a, b, Seq::empty());
            assert(run + Seq::<u8>::empty() =~= run);
            assert(parse_range(compress(s)) == Some((a, b, run.len() as nat)));
            assert(expand(a, b) =~= s);
        } else {
            let rest = s.skip(k as int);
            let tail = seq![SLASH] + compress(rest);
            assert(compress(s) == run + seq![SLASH] + compress(rest));
            assert(compress(s) =~= run + tail);
            assert(tail[0] == SLASH);
            lemma_parse_range_render(a, b, tail);
            assert(parse_range(compress(s)) == Some((a, b, run.len() as nat)));
            let c = run.len() as int;
            assert(c < compress(s).len());
            assert(compress(s)[c] == tail[0]);
            assert(compress(s).skip(c + 1) =~= compress(rest));
            lemma_ascending_skip(s, k as int);
            lemma_compress_roundtrip(rest);
            assert(parse_ranges(compress(s)) == Some(expand(a, b) + rest));
            assert(expand(a, b) =~= s.take(k as int));
            assert(s.take(k as int) + rest =~= s);
        }
    }
}

} // verus!
