//! Call-stack frames and their canonical textual keys.
//!
//! A frame is either native or interpreted; only `func`, `file` and `lineno`
//! take part in merge identity. The canonical key is
//! `"<func> (<file>:<lineno>)"`. A reported stack is innermost-first; the
//! normalizer reverses it to root-first order and, when a marker is given,
//! truncates the stack at the first frame whose key contains the marker.

use vstd::prelude::*;

use crate::bytes::contains_subseq;
use crate::bytes::find_subseq;
use crate::bytes::append_bytes;
use crate::ranges::dec_digits;
use crate::ranges::push_dec;

verus! {

pub const SPACE: u8 = 32;

pub const LPAREN: u8 = 40;

pub const RPAREN: u8 = 41;

pub const COLON: u8 = 58;

pub const SEMICOLON: u8 = 59;

/// One frame of a worker's call stack. A native frame carries an instruction
/// pointer; an interpreted frame carries the text of its captured locals.
/// Neither extra field takes part in merge identity.
#[derive(Debug, Clone, PartialEq, Eq)]
pub enum Frame {
    CFrame { file: Vec<u8>, func: Vec<u8>, ip: Vec<u8>, lineno: u32 },
    PyFrame { file: Vec<u8>, func: Vec<u8>, lineno: u32, locals: Vec<u8> },
}

impl Frame {
    /// The function name of the frame.
    pub open spec fn spec_func(self) -> Seq<u8> {
        match self {
            Frame::CFrame { func, .. } => func@,
            Frame::PyFrame { func, .. } => func@,
        }
    }

    /// The file name of the frame.
    pub open spec fn spec_file(self) -> Seq<u8> {
        match self {
            Frame::CFrame { file, .. } => file@,
            Frame::PyFrame { file, .. } => file@,
        }
    }

    /// The line number of the frame.
    pub open spec fn spec_lineno(self) -> u32 {
        match self {
            Frame::CFrame { lineno, .. } => lineno,
            Frame::PyFrame { lineno, .. } => lineno,
        }
    }
}

/// The canonical key of a frame: `"<func> (<file>:<lineno>)"`, the same for
/// both frame kinds.
pub open spec fn frame_key(f: Frame) -> Seq<u8> {
    f.spec_func() + seq![SPACE, LPAREN] + f.spec_file() + seq![COLON] + dec_digits(
        f.spec_lineno() as nat,
    ) + seq![RPAREN]
}

/// The canonical keys of a reported stack, reversed to root-first order.
pub open spec fn keys_of(frames: Seq<Frame>) -> Seq<Seq<u8>> {
    Seq::new(frames.len(), |i: int| frame_key(frames[frames.len() - 1 - i]))
}

/// Index of the first key containing the marker, or the length when none
/// does.
pub open spec fn marker_cut(keys: Seq<Seq<u8>>, m: Seq<u8>) -> nat
    decreases keys.len(),
{
    if keys.len() == 0 {
        0
    } else if contains_subseq(keys[0], m) {
        0
    } else {
        1 + marker_cut(keys.drop_first(), m)
    }
}

/// The view of an optional marker.
pub open spec fn marker_view(m: Option<&Vec<u8>>) -> Option<Seq<u8>> {
    match m {
        Option::Some(v) => Option::Some(v@),
        Option::None => Option::None,
    }
}

/// Root-first canonical keys of one reported stack; with a marker, the
/// marker frame and everything deeper are dropped.
pub open spec fn spec_normalize(frames: Seq<Frame>, marker: Option<Seq<u8>>) -> Seq<Seq<u8>> {
    match marker {
        Option::None => keys_of(frames),
        Option::Some(m) => keys_of(frames).take(marker_cut(keys_of(frames), m) as int),
    }
}

/// The views of a sequence of byte vectors.
pub open spec fn views_of(v: Seq<Vec<u8>>) -> Seq<Seq<u8>> {
    v.map_values(|x: Vec<u8>| x@)
}

/// A scan that stops at the first marker hit finds `marker_cut`.
proof fn lemma_marker_cut_exact(keys: Seq<Seq<u8>>, m: Seq<u8>, c: nat)
    requires
        c <= keys.len(),
        forall|j: int| 0 <= j < c ==> !contains_subseq(#[trigger] keys[j], m),
        c < keys.len() ==> contains_subseq(keys[c as int], m),
    ensures
        marker_cut(keys, m) == c,
    decreases keys.len(),
{
    if keys.len() > 0 && !contains_subseq(keys[0], m) {
        let t = keys.drop_first();
        assert(c >= 1);
        assert forall|j: int| 0 <= j < c - 1 implies !contains_subseq(#[trigger] t[j], m) by {
            assert(t[j] == keys[j + 1]);
        }
        if c - 1 < t.len() {
            assert(t[c - 1] == keys[c as int]);
        }
        lemma_marker_cut_exact(t, m, (c - 1) as nat);
    }
}

/// Builds the canonical key of a frame.
pub fn canonical_key(f: &Frame) -> (k: Vec<u8>)
    ensures
        k@ == frame_key(*f),
{
    let mut k: Vec<u8> = Vec::new();
    match f {
        Frame::CFrame { file, func, ip: _, lineno } => {
            append_bytes(&mut k, func);
            k.push(SPACE);
            k.push(LPAREN);
            append_bytes(&mut k, file);
            k.push(COLON);
            push_dec(&mut k, *lineno);
            k.push(RPAREN);
            proof {
                assert(k@ =~= frame_key(*f));
            }
        },
        Frame::PyFrame { file, func, lineno, locals: _ } => {
            append_bytes(&mut k, func);
            k.push(SPACE);
            k.push(LPAREN);
            append_bytes(&mut k, file);
            k.push(COLON);
            push_dec(&mut k, *lineno);
            k.push(RPAREN);
            proof {
                assert(k@ =~= frame_key(*f));
            }
        },
    }
    k
}

/// Normalizes one reported stack: reverses it to root-first order, maps each
/// frame to its canonical key, and, when a marker is given, truncates at the
/// first key that contains the marker.
pub fn normalize_stack(stack: &Vec<Frame>, marker: Option<&Vec<u8>>) -> (keys: Vec<Vec<u8>>)
    ensures
        views_of(keys@) == spec_normalize(stack@, marker_view(marker)),
{
    let ghost all = keys_of(stack@);
    let n = stack.len();
    let mut keys: Vec<Vec<u8>> = Vec::new();
    let mut i: usize = 0;
    let mut cut = false;
    while i < n && !cut
        invariant
            0 <= i <= n,
            n == stack@.len(),
            all == keys_of(stack@),
            views_of(keys@) =~= all.take(i as int),
            marker is None ==> !cut,
            marker is Some ==> forall|j: int|
                0 <= j < i ==> !contains_subseq(#[trigger] all[j], marker_view(marker)->0),
            cut ==> marker is Some && i < n && contains_subseq(
                all[i as int],
                marker_view(marker)->0,
            ),
        decreases n - i + (if cut {
            0int
        } else {
            1int
        }),
    {
        let key = canonical_key(&stack[n - 1 - i]);
        proof {
            assert(all[i as int] == frame_key(stack@[n - 1 - i]));
        }
        let hit = match marker {
            Option::Some(m) => find_subseq(&key, m),
            Option::None => false,
        };
        if hit {
            cut = true;
        } else {
            let ghost prev = keys@;
            keys.push(key);
            proof {
                assert(views_of(keys@) =~= views_of(prev).push(key@));
                assert(all.take(i as int).push(all[i as int]) =~= all.take(i + 1));
            }
            i = i + 1;
        }
    }
    proof {
        match marker_view(marker) {
            Option::Some(m) => {
                if cut {
                    lemma_marker_cut_exact(all, m, i as nat);
                } else {
                    lemma_marker_cut_exact(all, m, i as nat);
                    assert(all.take(i as int) =~= all);
                }
            },
            Option::None => {
                assert(all.take(i as int) =~= all);
            },
        }
    }
    keys
}

} // verus!
