//! The input bitset of one chain for one element: bit `k` is set when test `k` holds.

use vstd::prelude::*;
use super::program::{test_holds, test_refs_below, Test};

verus! {

/// Which tests hold.
pub open spec fn holds_seq(tests: Seq<Test>, hits: Seq<bool>, matched: Seq<bool>) -> Seq<bool> {
    Seq::new(tests.len(), |k: int| test_holds(tests[k], hits, matched))
}

/// The word contribution of bit `b` placed at position `p`.
pub open spec fn bit_word(holds: Seq<bool>, b: int, p: int) -> u64 {
    if 0 <= b < holds.len() && holds[b] && 0 <= p < 64 {
        1u64 << (p as u64)
    } else {
        0
    }
}

/// Word `w` of the bitset, counting only its lowest `k` positions.
pub open spec fn word_of(holds: Seq<bool>, w: int, k: int) -> u64
    decreases k,
{
    if k <= 0 {
        0
    } else {
        word_of(holds, w, k - 1) | bit_word(holds, w * 64 + k - 1, k - 1)
    }
}

/// Number of 64-bit words needed for `n` bits.
pub open spec fn word_count(n: nat) -> nat {
    (n + 63) / 64
}

/// The bitset with bit `k` set exactly when `holds[k]`.
pub open spec fn symbol_of(holds: Seq<bool>) -> Seq<u64> {
    Seq::new(word_count(holds.len()), |w: int| word_of(holds, w, 64))
}

pub open spec fn clamp64(x: int) -> int {
    if x < 0 {
        0
    } else if x > 64 {
        64
    } else {
        x
    }
}

proof fn lemma_word_of_tail(holds: Seq<bool>, w: int, k: int, k2: int)
    requires
        0 <= w,
        0 <= k <= k2 <= 64,
        w * 64 + k >= holds.len() || k == k2,
    ensures
        word_of(holds, w, k2) == word_of(holds, w, k),
    decreases k2 - k,
{
    if k2 > k {
        lemma_word_of_tail(holds, w, k, k2 - 1);
        let x = word_of(holds, w, k2 - 1);
        assert(bit_word(holds, w * 64 + k2 - 1, k2 - 1) == 0);
        assert(x | 0u64 == x) by (bit_vector);
    }
}

/// The same tests give the same bits when the chain matches they read agree.
pub proof fn lemma_holds_frame(tests: Seq<Test>, hits: Seq<bool>, m1: Seq<bool>, m2: Seq<bool>, below: int)
    requires
        forall|k: int| 0 <= k < tests.len() ==> test_refs_below(#[trigger] tests[k], below, hits.len() as int),
        forall|j: int| 0 <= j < below ==> m1[j] == m2[j],
    ensures
        holds_seq(tests, hits, m1) == holds_seq(tests, hits, m2),
{
    assert forall|k: int| 0 <= k < tests.len() implies test_holds(tests[k], hits, m1) == test_holds(tests[k], hits, m2) by {
        let t = tests[k];
        assert(test_refs_below(t, below, hits.len() as int));
        match t {
            Test::Every(cs) => {
                assert forall|j: int| 0 <= j < cs@.len() implies m1[cs@[j] as int] == m2[cs@[j] as int] by {
                    assert(cs@[j] < below);
                }
            },
            Test::Any(cs) => {
                assert forall|j: int| 0 <= j < cs@.len() implies m1[cs@[j] as int] == m2[cs@[j] as int] by {
                    assert(cs@[j] < below);
                }
            },
            _ => {},
        }
    }
    assert(holds_seq(tests, hits, m1) =~= holds_seq(tests, hits, m2));
}

/// Computes the bitset of `tests` for the element being handled.
pub fn symbol(tests: &Vec<Test>, hits: &Vec<bool>, matched: &Vec<bool>) -> (r: Vec<u64>)
    requires
        forall|k: int|
            0 <= k < tests@.len() ==> test_refs_below(
                #[trigger] tests@[k],
                matched@.len() as int,
                hits@.len() as int,
            ),
    ensures
        r@ == symbol_of(holds_seq(tests@, hits@, matched@)),
{
    let ghost holds = holds_seq(tests@, hits@, matched@);
    let n = tests.len();
    let words = n / 64 + if n % 64 == 0 {
        0
    } else {
        1
    };
    assert(words == word_count(n as nat));
    let mut out: Vec<u64> = Vec::new();
    while out.len() < words
        invariant
            out@.len() <= words,
            forall|w: int| 0 <= w < out@.len() ==> out@[w] == 0,
        decreases words - out.len(),
    {
        out.push(0);
    }
    let mut b: usize = 0;
    while b < n
        invariant
            n == tests@.len(),
            holds == holds_seq(tests@, hits@, matched@),
            words == word_count(n as nat),
            out@.len() == words,
            b <= n,
            forall|k: int|
                0 <= k < tests@.len() ==> test_refs_below(
                    #[trigger] tests@[k],
                    matched@.len() as int,
                    hits@.len() as int,
                ),
            forall|w: int| 0 <= w < words ==> #[trigger] out@[w] == word_of(holds, w, clamp64(b - w * 64)),
        decreases n - b,
    {
        let w0 = b / 64;
        let p = b % 64;
        let ghost before = out@;
        let h = tests[b].holds(hits, matched);
        assert(holds[b as int] == h);
        if h {
            let shift: u64 = p as u64;
            let x = out[w0];
            out.set(w0, x | (1u64 << shift));
        }
        proof {
            assert forall|w: int| 0 <= w < words implies #[trigger] out@[w] == word_of(holds, w, clamp64(b + 1 - w * 64)) by {
                if w == w0 {
                    assert(clamp64(b - w * 64) == p);
                    assert(clamp64(b + 1 - w * 64) == p + 1);
                    assert(w * 64 + (p + 1) - 1 == b);
                    let x = before[w];
                    if !h {
                        assert(bit_word(holds, b as int, p as int) == 0);
                        assert(x | 0u64 == x) by (bit_vector);
                    }
                } else if w < w0 {
                    assert(clamp64(b - w * 64) == 64);
                    assert(clamp64(b + 1 - w * 64) == 64);
                } else {
                    assert(clamp64(b - w * 64) == 0);
                    assert(clamp64(b + 1 - w * 64) == 0);
                }
            }
        }
        b += 1;
    }
    proof {
        assert forall|w: int| 0 <= w < words implies #[trigger] out@[w] == word_of(holds, w, 64) by {
            lemma_word_of_tail(holds, w, clamp64(n - w * 64), 64);
        }
        assert(out@ =~= symbol_of(holds));
    }
    out
}

} // verus!
