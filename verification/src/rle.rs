//! Run-length codec specialized for zero bytes.
//!
//! `encode` replaces each run of consecutive zero input bytes with the pair
//! `(0, run length)`, capping a run at 255; non-zero bytes pass through
//! unchanged. `decode` reverses the transform and is total: a `0` byte opens
//! a run whose length is the following byte, and a trailing lone `0` emits
//! nothing.

use vstd::prelude::*;
use vstd::slice::slice_index_get;

verus! {

broadcast use vstd::std_specs::vec::group_vec_axioms;

/// The number of zero bytes at the front of `b`.
pub open spec fn lead_zeros(b: Seq<u8>) -> nat
    decreases b.len(),
{
    if b.len() == 0 || b[0] != 0 {
        0
    } else {
        1 + lead_zeros(b.skip(1))
    }
}

/// The length of the run the encoder emits next: leading zeros, capped at 255.
pub open spec fn zero_run(b: Seq<u8>) -> nat {
    if lead_zeros(b) <= 255 {
        lead_zeros(b)
    } else {
        255
    }
}

/// The first `lead_zeros(b)` bytes of `b` are zero, the next byte (if any)
/// is not, and the count never exceeds the length.
pub proof fn lemma_lead_zeros(b: Seq<u8>)
    ensures
        lead_zeros(b) <= b.len(),
        forall|i: int| 0 <= i < lead_zeros(b) ==> b[i] == 0,
        lead_zeros(b) < b.len() ==> b[lead_zeros(b) as int] != 0,
    decreases b.len(),
{
    if b.len() == 0 || b[0] != 0 {
    } else {
        lemma_lead_zeros(b.skip(1));
        assert forall|i: int| 0 <= i < lead_zeros(b) implies b[i] == 0 by {
            if i > 0 {
                assert(b.skip(1)[i - 1] == b[i]);
            }
        }
        if lead_zeros(b) < b.len() {
            assert(b.skip(1)[lead_zeros(b) as int - 1] == b[lead_zeros(b) as int]);
        }
    }
}

/// If the first `j` bytes of `b` are zero and the run stops at `j`, then
/// `lead_zeros(b)` is exactly `j`.
pub proof fn lemma_lead_zeros_is(b: Seq<u8>, j: int)
    requires
        0 <= j <= b.len(),
        forall|i: int| 0 <= i < j ==> b[i] == 0,
        j == b.len() || b[j] != 0,
    ensures
        lead_zeros(b) == j,
{
    lemma_lead_zeros(b);
    if lead_zeros(b) < j {
        assert(b[lead_zeros(b) as int] == 0);
    }
    if lead_zeros(b) > j {
        assert(b[j] == 0);
    }
}

/// The run-length encoding of `b`.
pub open spec fn rle_enc(b: Seq<u8>) -> Seq<u8>
    decreases b.len(),
    via rle_enc_decreases
{
    if b.len() == 0 {
        Seq::empty()
    } else if b[0] == 0 {
        seq![0u8, zero_run(b) as u8] + rle_enc(b.skip(zero_run(b) as int))
    } else {
        seq![b[0]] + rle_enc(b.skip(1))
    }
}

#[via_fn]
proof fn rle_enc_decreases(b: Seq<u8>) {
    if b.len() != 0 && b[0] == 0 {
        lemma_lead_zeros(b);
        assert(lead_zeros(b) >= 1);
    }
}

/// The run-length decoding of `b`, total for arbitrary input.
pub open spec fn rle_dec(b: Seq<u8>) -> Seq<u8>
    decreases b.len(),
{
    if b.len() == 0 {
        Seq::empty()
    } else if b[0] != 0 {
        seq![b[0]] + rle_dec(b.skip(1))
    } else if b.len() == 1 {
        Seq::empty()
    } else {
        Seq::new(b[1] as nat, |i: int| 0u8) + rle_dec(b.skip(2))
    }
}

/// Decoding is the exact left inverse of encoding, for every byte sequence.
pub proof fn lemma_rle_round_trip(b: Seq<u8>)
    ensures
        rle_dec(rle_enc(b)) == b,
    decreases b.len(),
{
    if b.len() == 0 {
    } else if b[0] != 0 {
        lemma_rle_round_trip(b.skip(1));
        let e = rle_enc(b);
        assert(e == seq![b[0]] + rle_enc(b.skip(1)));
        assert(e.skip(1) =~= rle_enc(b.skip(1)));
        assert(rle_dec(e) =~= b);
    } else {
        lemma_lead_zeros(b);
        let n = zero_run(b);
        assert(1 <= n <= 255);
        assert(n <= b.len());
        lemma_rle_round_trip(b.skip(n as int));
        let e = rle_enc(b);
        assert(e == seq![0u8, n as u8] + rle_enc(b.skip(n as int)));
        assert(e.len() >= 2);
        assert(e[0] == 0 && e[1] == n as u8);
        assert(e.skip(2) =~= rle_enc(b.skip(n as int)));
        assert(rle_dec(e) == Seq::new(n, |i: int| 0u8) + b.skip(n as int));
        assert(rle_dec(e) =~= b);
    }
}

/// Compress `v`: each run of zero bytes becomes a `(0, length)` pair, runs
/// capped at 255; other bytes pass through one-for-one.
pub fn encode(v: &[u8]) -> (r: Vec<u8>)
    ensures
        r@ == rle_enc(v@),
{
    let mut r: Vec<u8> = Vec::new();
    let mut i: usize = 0;
    proof {
        assert(v@.skip(0) =~= v@);
        assert(r@ + rle_enc(v@) =~= rle_enc(v@));
    }
    while i < v.len()
        invariant
            i <= v@.len(),
            rle_enc(v@) == r@ + rle_enc(v@.skip(i as int)),
        decreases v@.len() - i,
    {
        if *slice_index_get(v, i) == 0 {
            let ghost rest = v@.skip(i as int);
            let start: usize = i;
            let mut n: u8 = 0;
            while i < v.len() && n < 255 && *slice_index_get(v, i) == 0
                invariant
                    start <= i <= v@.len(),
                    n as int == i - start,
                    forall|k: int| start <= k < i ==> v@[k] == 0,
                decreases v@.len() - i,
            {
                n = n + 1;
                i = i + 1;
            }
            proof {
                assert(rest.len() == v@.len() - start);
                assert(forall|k: int| 0 <= k < n ==> rest[k] == v@[start + k] && rest[k] == 0);
                if n < 255 {
                    assert(i == v@.len() || v@[i as int] != 0);
                    lemma_lead_zeros_is(rest, n as int);
                } else {
                    lemma_lead_zeros(rest);
                    if lead_zeros(rest) < 255 {
                        assert(rest[lead_zeros(rest) as int] == 0);
                    }
                }
                assert(zero_run(rest) == n as nat);
                assert(rest[0] == 0);
                assert(rle_enc(rest) == seq![0u8, n] + rle_enc(rest.skip(n as int)));
                assert(rest.skip(n as int) =~= v@.skip(i as int));
            }
            r.push(0);
            r.push(n);
            proof {
                assert(r@ + rle_enc(v@.skip(i as int)) =~= rle_enc(v@));
            }
        } else {
            let b = *slice_index_get(v, i);
            proof {
                let rest = v@.skip(i as int);
                assert(rest[0] == b);
                assert(rle_enc(rest) == seq![b] + rle_enc(rest.skip(1)));
                assert(rest.skip(1) =~= v@.skip(i + 1));
            }
            r.push(b);
            i = i + 1;
            proof {
                assert(r@ + rle_enc(v@.skip(i as int)) =~= rle_enc(v@));
            }
        }
    }
    proof {
        assert(v@.skip(i as int) =~= Seq::<u8>::empty());
        assert(r@ =~= rle_enc(v@));
    }
    r
}

/// Decompress `v`: a `0` byte opens a run whose length is the following
/// byte; any other byte is emitted as itself. Total for arbitrary input.
pub fn decode(v: &[u8]) -> (r: Vec<u8>)
    ensures
        r@ == rle_dec(v@),
{
    let mut r: Vec<u8> = Vec::new();
    let mut i: usize = 0;
    proof {
        assert(v@.skip(0) =~= v@);
        assert(r@ + rle_dec(v@) =~= rle_dec(v@));
    }
    while i < v.len()
        invariant
            i <= v@.len(),
            rle_dec(v@) == r@ + rle_dec(v@.skip(i as int)),
        decreases v@.len() - i,
    {
        let b = *slice_index_get(v, i);
        let ghost rest = v@.skip(i as int);
        if b != 0 {
            proof {
                assert(rest[0] == b);
                assert(rle_dec(rest) == seq![b] + rle_dec(rest.skip(1)));
                assert(rest.skip(1) =~= v@.skip(i + 1));
            }
            r.push(b);
            i = i + 1;
            proof {
                assert(r@ + rle_dec(v@.skip(i as int)) =~= rle_dec(v@));
            }
        } else if i + 1 == v.len() {
            proof {
                assert(rest.len() == 1 && rest[0] == 0);
                assert(rle_dec(rest) == Seq::<u8>::empty());
                assert(v@.skip(v@.len() as int) =~= Seq::<u8>::empty());
            }
            i = v.len();
            proof {
                assert(r@ + rle_dec(v@.skip(i as int)) =~= rle_dec(v@));
            }
        } else {
            let n = *slice_index_get(v, i + 1);
            proof {
                assert(rest[0] == 0 && rest.len() >= 2 && rest[1] == n);
                assert(rle_dec(rest) == Seq::new(n as nat, |k: int| 0u8) + rle_dec(rest.skip(2)));
                assert(rest.skip(2) =~= v@.skip(i + 2));
            }
            let mut j: u8 = 0;
            let ghost r0 = r@;
            while j < n
                invariant
                    j <= n,
                    r@ == r0 + Seq::new(j as nat, |k: int| 0u8),
                decreases n - j,
            {
                r.push(0);
                j = j + 1;
                proof {
                    assert(r@ =~= r0 + Seq::new(j as nat, |k: int| 0u8));
                }
            }
            i = i + 2;
            proof {
                assert(r@ + rle_dec(v@.skip(i as int)) =~= rle_dec(v@));
            }
        }
    }
    proof {
        assert(v@.skip(i as int) =~= Seq::<u8>::empty());
        assert(r@ =~= rle_dec(v@));
    }
    r
}

} // verus!
