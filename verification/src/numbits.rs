//! Integer views of the IEEE-754 double encodings the wire format uses.
//!
//! Numbers travel as the raw bits of a double, so the codec never needs
//! float arithmetic: it moves 8 little-endian bytes. Length fields above 254
//! travel as the double encoding of the count; `length_bits` builds that bit
//! pattern from the integer and `decoded_len` reads an arbitrary bit pattern
//! back the way a saturating float-to-integer cast would.

use vstd::prelude::*;
use vstd::arithmetic::power2::{
    pow2, lemma_pow2_adds, lemma_pow2_subtracts, lemma_pow2_strictly_increases, lemma2_to64,
    lemma2_to64_rest,
};
use vstd::arithmetic::div_mod::{
    lemma_fundamental_div_mod, lemma_fundamental_div_mod_converse_div,
    lemma_fundamental_div_mod_converse_mod, lemma_div_denominator, lemma_div_multiples_vanish,
    lemma_small_mod, lemma_div_is_ordered,
};
use vstd::arithmetic::mul::{lemma_mul_inequality, lemma_mul_strict_inequality};
use vstd::bits::{lemma_u64_shl_is_mul, lemma_u64_pow2_no_overflow};

verus! {

/// The 8 bytes of `x` in little-endian order.
pub open spec fn le8(x: u64) -> Seq<u8> {
    seq![
        (x & 0xff) as u8,
        ((x >> 8) & 0xff) as u8,
        ((x >> 16) & 0xff) as u8,
        ((x >> 24) & 0xff) as u8,
        ((x >> 32) & 0xff) as u8,
        ((x >> 40) & 0xff) as u8,
        ((x >> 48) & 0xff) as u8,
        ((x >> 56) & 0xff) as u8,
    ]
}

/// The value whose little-endian bytes are the first 8 entries of `b`.
pub open spec fn from_le8(b: Seq<u8>) -> u64
    recommends
        b.len() == 8,
{
    (b[0] as u64) | ((b[1] as u64) << 8) | ((b[2] as u64) << 16) | ((b[3] as u64) << 24)
        | ((b[4] as u64) << 32) | ((b[5] as u64) << 40) | ((b[6] as u64) << 48)
        | ((b[7] as u64) << 56)
}

/// Reassembling the little-endian bytes of `x` gives back `x`.
pub proof fn lemma_le8_round_trip(x: u64)
    ensures
        from_le8(le8(x)) == x,
{
    let b = le8(x);
    assert(((x & 0xff) as u8 as u64) | ((((x >> 8) & 0xff) as u8 as u64) << 8)
        | ((((x >> 16) & 0xff) as u8 as u64) << 16) | ((((x >> 24) & 0xff) as u8 as u64) << 24)
        | ((((x >> 32) & 0xff) as u8 as u64) << 32) | ((((x >> 40) & 0xff) as u8 as u64) << 40)
        | ((((x >> 48) & 0xff) as u8 as u64) << 48) | ((((x >> 56) & 0xff) as u8 as u64) << 56)
        == x) by (bit_vector);
}

/// The floor of the base-2 logarithm; 0 for inputs below 2.
pub open spec fn floor_log2(n: nat) -> nat
    decreases n,
{
    if n < 2 {
        0
    } else {
        1 + floor_log2(n / 2)
    }
}

/// For positive `n`, `floor_log2(n)` names the highest set bit.
pub proof fn lemma_floor_log2(n: nat)
    requires
        n >= 1,
    ensures
        pow2(floor_log2(n)) <= n < pow2(floor_log2(n) + 1),
    decreases n,
{
    lemma2_to64();
    if n < 2 {
    } else {
        lemma_floor_log2(n / 2);
        let k = floor_log2(n / 2);
        lemma_pow2_adds(k, 1);
        lemma_pow2_adds(k + 1, 1);
        assert(n >= 2 * (n / 2) >= 2 * pow2(k)) by {
            lemma_fundamental_div_mod(n as int, 2);
            lemma_mul_inequality(pow2(k) as int, (n / 2) as int, 2);
        }
        assert(n < 2 * pow2(k + 1)) by {
            lemma_fundamental_div_mod(n as int, 2);
            lemma_mul_inequality((n / 2 + 1) as int, pow2(k + 1) as int, 2);
        }
    }
}

/// `floor_log2` is the unique `k` with `2^k <= n < 2^(k+1)`.
pub proof fn lemma_floor_log2_is(n: nat, k: nat)
    requires
        pow2(k) <= n < pow2(k + 1),
    ensures
        floor_log2(n) == k,
{
    vstd::arithmetic::power2::lemma_pow2_pos(k);
    lemma_floor_log2(n);
    let f = floor_log2(n);
    if f < k {
        lemma_pow2_strictly_increases(f + 1, k + 1);
        if f + 1 < k {
            lemma_pow2_strictly_increases(f + 1, k);
        }
        assert(pow2(f + 1) <= pow2(k));
    }
    if f > k {
        if k + 1 < f {
            lemma_pow2_strictly_increases(k + 1, f);
        }
        assert(pow2(k + 1) <= pow2(f));
    }
}

/// The IEEE-754 double bit pattern of the integer `n`, exact for `n` below
/// `2^53`; larger inputs are out of the codec's range and map to 0.
pub open spec fn length_bits(n: nat) -> u64 {
    if n == 0 {
        0u64
    } else {
        let k = floor_log2(n);
        if k <= 52 {
            (((1023 + k) * pow2(52) + (n - pow2(k)) * pow2((52 - k) as nat)) as u64)
        } else {
            0u64
        }
    }
}

/// What a saturating truncate-toward-zero cast of the double with bits
/// `bits` to `usize` yields: 0 for negatives and NaN, `usize::MAX` at or
/// above the top, the integer part otherwise.
pub open spec fn decoded_len(bits: u64) -> nat {
    let e = ((bits as nat) / pow2(52)) % pow2(11);
    let m = (bits as nat) % pow2(52);
    if (bits as nat) >= pow2(63) {
        0
    } else if e == 2047 {
        if m == 0 {
            usize::MAX as nat
        } else {
            0
        }
    } else if e < 1023 {
        0
    } else {
        let p = (e - 1023) as nat;
        let val = ((pow2(52) + m) * pow2(p)) / pow2(52);
        if val > usize::MAX as nat {
            usize::MAX as nat
        } else {
            val
        }
    }
}

/// `2^e` as a machine word.
pub fn pow2_exec(e: u64) -> (r: u64)
    requires
        e < 64,
    ensures
        r as nat == pow2(e as nat),
{
    proof {
        lemma_u64_pow2_no_overflow(e as nat);
        lemma_u64_shl_is_mul(1u64, e);
    }
    1u64 << e
}

/// Build the double bit pattern of the length `n`.
pub fn length_bits_exec(n: usize) -> (r: u64)
    requires
        (n as nat) < pow2(53),
    ensures
        r == length_bits(n as nat),
{
    proof {
        lemma2_to64();
        lemma2_to64_rest();
    }
    if n == 0 {
        return 0;
    }
    let n64: u64 = n as u64;
    let mut k: u64 = 0;
    let mut m: u64 = 1;
    let mut t: u64 = n64;
    while t >= 2
        invariant
            1 <= n64,
            (n64 as nat) < pow2(53),
            t as nat == (n64 as nat) / pow2(k as nat),
            m as nat == pow2(k as nat),
            pow2(k as nat) <= n64 as nat,
            k <= 52,
        decreases t,
    {
        proof {
            let kn = k as nat;
            vstd::arithmetic::power2::lemma_pow2_pos(kn);
            lemma_fundamental_div_mod(n64 as int, pow2(kn) as int);
            lemma_pow2_adds(kn, 1);
            lemma2_to64();
            assert(pow2(kn + 1) == pow2(kn) * 2);
            assert(n64 as int >= pow2(kn) as int * 2) by {
                lemma_mul_inequality(2, t as int, pow2(kn) as int);
                assert(pow2(kn) as int * t as int >= pow2(kn) as int * 2);
            }
            assert(pow2(kn + 1) <= n64 as nat);
            assert(kn + 1 <= 52) by {
                if kn + 1 > 52 {
                    if kn + 1 < 53 {
                    } else if kn + 1 == 53 {
                        assert(pow2(53) <= n64 as nat);
                    } else {
                        lemma_pow2_strictly_increases(53, kn + 1);
                    }
                }
            }
            assert((t as nat) / 2 == (n64 as nat) / pow2(kn + 1)) by {
                lemma_div_denominator(n64 as int, pow2(kn) as int, 2);
            }
        }
        t = t / 2;
        k = k + 1;
        m = m * 2;
    }
    proof {
        let kn = k as nat;
        vstd::arithmetic::power2::lemma_pow2_pos(kn);
        assert(t as nat >= 1) by {
            lemma_div_is_ordered(pow2(kn) as int, n64 as int, pow2(kn) as int);
            lemma_div_multiples_vanish(1, pow2(kn) as int);
        }
        assert(t == 1);
        lemma_fundamental_div_mod(n64 as int, pow2(kn) as int);
        lemma_pow2_adds(kn, 1);
        assert((n64 as nat) < pow2(kn + 1));
        lemma_floor_log2_is(n64 as nat, kn);
        lemma_pow2_subtracts(kn, 52);
        assert(pow2((52 - kn) as nat) == pow2(52) / pow2(kn));
    }
    let q = 0x10000000000000u64 / m;
    proof {
        let kn = k as nat;
        assert(q as nat == pow2((52 - kn) as nat));
        assert(((n64 - m) as nat) < pow2(kn));
        assert((n64 - m) as nat * pow2((52 - kn) as nat) < pow2(52)) by {
            if ((n64 - m) as nat) < pow2(kn) {
                lemma_mul_strict_inequality(
                    (n64 - m) as int,
                    pow2(kn) as int,
                    pow2((52 - kn) as nat) as int,
                );
            }
            lemma_pow2_adds(kn, (52 - kn) as nat);
        }
        assert((1023 + k) as nat * pow2(52) <= 1075 * 0x10000000000000);
    }
    let mant = (n64 - m) * q;
    (1023 + k) * 0x10000000000000u64 + mant
}

/// Saturate a wide count to `usize`.
fn saturate_to_usize(x: u64) -> (r: usize)
    ensures
        x as nat <= usize::MAX as nat ==> r as nat == x as nat,
        x as nat > usize::MAX as nat ==> r as nat == usize::MAX as nat,
{
    if x > usize::MAX as u64 {
        usize::MAX
    } else {
        x as usize
    }
}

/// Read a double bit pattern back as a length, the way a saturating
/// truncate-toward-zero cast to `usize` would.
pub fn decode_length_bits(bits: u64) -> (r: usize)
    ensures
        r as nat == decoded_len(bits),
{
    proof {
        lemma2_to64();
        lemma2_to64_rest();
    }
    let e = (bits / 0x10000000000000u64) % 2048;
    let m = bits % 0x10000000000000u64;
    if bits >= 0x8000000000000000u64 {
        0
    } else if e == 2047 {
        if m == 0 {
            usize::MAX
        } else {
            0
        }
    } else if e < 1023 {
        0
    } else {
        let p = e - 1023;
        let ghost a = (pow2(52) + m as nat) as int;
        let ghost val = (((pow2(52) + m as nat) * pow2(p as nat)) / pow2(52)) as int;
        if p >= 64 {
            proof {
                vstd::arithmetic::power2::lemma_pow2_pos(p as nat);
                assert(a >= pow2(52) as int);
                assert(a * pow2(p as nat) as int >= pow2(52) as int * pow2(p as nat) as int) by {
                    lemma_mul_inequality(pow2(52) as int, a, pow2(p as nat) as int);
                }
                assert(val >= pow2(p as nat)) by {
                    lemma_div_is_ordered(
                        pow2(52) as int * pow2(p as nat) as int,
                        a * pow2(p as nat) as int,
                        pow2(52) as int,
                    );
                    lemma_div_multiples_vanish(pow2(p as nat) as int, pow2(52) as int);
                }
                assert(pow2(p as nat) >= pow2(64)) by {
                    if p > 64 {
                        lemma_pow2_strictly_increases(64, p as nat);
                    }
                }
                assert(usize::MAX as nat <= u64::MAX as nat);
            }
            usize::MAX
        } else if p <= 52 {
            let d = pow2_exec(52 - p);
            let r64 = (0x10000000000000u64 + m) / d;
            proof {
                let s = (52 - p) as nat;
                let rr = a % pow2(s) as int;
                assert(a == (r64 as int) * pow2(s) as int + rr) by {
                    lemma_fundamental_div_mod(a, pow2(s) as int);
                    assert(pow2(s) as int * (a / pow2(s) as int) == (a / pow2(s) as int) * pow2(s) as int)
                        by (nonlinear_arith);
                }
                lemma_pow2_adds(s, p as nat);
                assert(a * pow2(p as nat) as int
                    == (r64 as int) * pow2(52) as int + rr * pow2(p as nat) as int) by (nonlinear_arith)
                    requires
                        a == (r64 as int) * pow2(s) as int + rr,
                        pow2(s) * pow2(p as nat) == pow2(52),
                ;
                assert(0 <= rr * pow2(p as nat) as int && rr * (pow2(p as nat) as int) < pow2(52) as int) by {
                    assert(rr < pow2(s) as int);
                    lemma_mul_strict_inequality(rr, pow2(s) as int, pow2(p as nat) as int);
                    assert(rr * pow2(p as nat) as int >= 0) by (nonlinear_arith)
                        requires rr >= 0, pow2(p as nat) as int > 0,
                    ;
                }
                lemma_fundamental_div_mod_converse_div(
                    a * pow2(p as nat) as int,
                    pow2(52) as int,
                    r64 as int,
                    rr * pow2(p as nat) as int,
                );
                assert(val == r64 as int);
            }
            saturate_to_usize(r64)
        } else {
            let f = pow2_exec(p - 52);
            proof {
                let s = (p - 52) as nat;
                assert(f as nat <= pow2(11)) by {
                    if s < 11 {
                        lemma_pow2_strictly_increases(s, 11);
                    }
                }
                assert(a * f as int <= (pow2(53) as int - 1) * pow2(11) as int) by {
                    lemma_pow2_adds(52, 1);
                    lemma_mul_inequality(a, pow2(53) as int - 1, f as int);
                    lemma_mul_inequality(f as int, pow2(11) as int, pow2(53) as int - 1);
                    assert((pow2(53) as int - 1) * f as int == f as int * (pow2(53) as int - 1))
                        by (nonlinear_arith);
                }
                assert((pow2(53) as int - 1) * (pow2(11) as int) < pow2(64) as int) by {
                    lemma_pow2_adds(53, 11);
                    assert((pow2(53) as int - 1) * pow2(11) as int
                        == pow2(53) as int * pow2(11) as int - pow2(11) as int) by (nonlinear_arith);
                }
                assert(a * f as int >= 0) by (nonlinear_arith)
                    requires a >= 0, f as int >= 0,
                ;
            }
            let r64 = (0x10000000000000u64 + m) * f;
            proof {
                let s = (p - 52) as nat;
                lemma_pow2_adds(s, 52);
                assert(a * pow2(p as nat) as int == (r64 as int) * pow2(52) as int) by (nonlinear_arith)
                    requires
                        r64 as int == a * pow2(s) as int,
                        pow2(s) * pow2(52) == pow2(p as nat),
                ;
                lemma_fundamental_div_mod_converse_div(
                    a * pow2(p as nat) as int,
                    pow2(52) as int,
                    r64 as int,
                    0,
                );
                assert(val == r64 as int);
            }
            saturate_to_usize(r64)
        }
    }
}

/// Reading back the double encoding of a length gives the length again.
pub proof fn lemma_length_bits_round_trip(n: nat)
    requires
        n < pow2(53),
        n <= usize::MAX as nat,
    ensures
        decoded_len(length_bits(n)) == n,
{
    lemma2_to64();
    lemma2_to64_rest();
    if n == 0 {
        assert(decoded_len(0u64) == 0) by {
            lemma_small_mod(0nat, pow2(52));
            lemma_small_mod(0nat, pow2(11));
        }
    } else {
        lemma_floor_log2(n);
        let k = floor_log2(n);
        assert(k <= 52) by {
            if k > 52 {
                lemma_pow2_strictly_increases(53, k);
            }
        }
        let man = (n - pow2(k)) * pow2((52 - k) as nat);
        assert(man < pow2(52)) by {
            lemma_mul_strict_inequality(
                (n - pow2(k)) as int,
                pow2(k) as int,
                pow2((52 - k) as nat) as int,
            );
            lemma_pow2_adds(k, (52 - k) as nat);
        }
        let bits = length_bits(n);
        assert(bits as nat == (1023 + k) * pow2(52) + man) by {
            assert((1023 + k) * pow2(52) + man < pow2(64)) by {
                lemma_mul_inequality((1023 + k) as int, 1075, pow2(52) as int);
            }
        }
        let bn = bits as nat;
        assert(bn / pow2(52) == 1023 + k && bn % pow2(52) == man) by {
            lemma_fundamental_div_mod_converse_div(
                bn as int,
                pow2(52) as int,
                (1023 + k) as int,
                man as int,
            );
            lemma_fundamental_div_mod_converse_mod(
                bn as int,
                pow2(52) as int,
                (1023 + k) as int,
                man as int,
            );
        }
        lemma_small_mod(1023 + k, pow2(11));
        assert(bn < pow2(63)) by {
            lemma_mul_inequality((1023 + k) as int, pow2(11) as int - 1, pow2(52) as int);
            lemma_pow2_adds(11, 52);
            assert((pow2(11) as int - 1) * pow2(52) as int == pow2(11) as int * pow2(52) as int - pow2(52) as int)
                by (nonlinear_arith);
        }
        let e = (bn / pow2(52)) % pow2(11);
        assert(e == 1023 + k);
        let p = k;
        let val = (((pow2(52) + man) * pow2(p)) as int) / (pow2(52) as int);
        assert(pow2(52) + man == pow2((52 - k) as nat) * n) by {
            lemma_pow2_adds((52 - k) as nat, k);
            assert((n - pow2(k)) * pow2((52 - k) as nat) + pow2((52 - k) as nat) * pow2(k)
                == pow2((52 - k) as nat) * n) by (nonlinear_arith)
                requires n >= pow2(k),
            ;
        }
        lemma_pow2_adds((52 - k) as nat, k);
        assert((pow2(52) + man) * pow2(p) == n * pow2(52)) by (nonlinear_arith)
            requires
                pow2(52) + man == pow2((52 - k) as nat) * n,
                pow2((52 - k) as nat) * pow2(k) == pow2(52),
                p == k,
        ;
        assert(val == n) by {
            lemma_fundamental_div_mod_converse_div(
                (n * pow2(52)) as int,
                pow2(52) as int,
                n as int,
                0,
            );
        }
    }
}

} // verus!
