//! Two-bit packing of DNA bases into integers, and the inverse decoding.

use vstd::prelude::*;

verus! {

/// Number of bases in the left flank of a spaced key.
pub const L_LEN: usize = 27;

/// Number of bases in the right flank of a spaced key.
pub const R_LEN: usize = 27;

/// Number of bases in a spaced key (both flanks).
pub const KEY_LEN: usize = 54;

/// The ASCII letter of the base A.
pub const BASE_A: u8 = 65;

/// The ASCII letter of the base C.
pub const BASE_C: u8 = 67;

/// The ASCII letter of the base G.
pub const BASE_G: u8 = 71;

/// The ASCII letter of the base T.
pub const BASE_T: u8 = 84;

/// Why a byte run could not be packed.
#[derive(Debug, Clone, Copy, PartialEq, Eq, Structural)]
pub enum EncodeError {
    /// The byte at this position is none of the letters A, C, G, T.
    InvalidBase(usize),
}

pub open spec fn is_base(b: u8) -> bool {
    b == BASE_A || b == BASE_C || b == BASE_G || b == BASE_T
}

pub open spec fn is_dna(s: Seq<u8>) -> bool {
    forall|i: int| 0 <= i < s.len() ==> is_base(#[trigger] s[i])
}

/// The two-bit code of a base: A=0, C=1, G=2, T=3.
pub open spec fn code_of(b: u8) -> nat {
    if b == BASE_A {
        0
    } else if b == BASE_C {
        1
    } else if b == BASE_G {
        2
    } else {
        3
    }
}

/// The base whose code is `c % 4`.
pub open spec fn symbol_of(c: nat) -> u8 {
    if c % 4 == 0 {
        BASE_A
    } else if c % 4 == 1 {
        BASE_C
    } else if c % 4 == 2 {
        BASE_G
    } else {
        BASE_T
    }
}

/// The bases packed two bits each, the first base most significant.
pub open spec fn packed(s: Seq<u8>) -> nat
    decreases s.len(),
{
    if s.len() == 0 {
        0
    } else {
        packed(s.drop_last()) * 4 + code_of(s.last())
    }
}

/// The `p`-th base-4 digit of `key`, counted from the least significant one.
pub open spec fn digit(key: nat, p: nat) -> nat
    decreases p,
{
    if p == 0 {
        key % 4
    } else {
        digit(key / 4, (p - 1) as nat)
    }
}

/// The `n` bases held in the low `2n` bits of `key`, the first base most significant.
pub open spec fn decoded(key: nat, n: nat) -> Seq<u8> {
    Seq::new(n, |i: int| symbol_of(digit(key, (n - 1 - i) as nat)))
}

pub open spec fn pow4(n: nat) -> nat
    decreases n,
{
    if n == 0 {
        1
    } else {
        4 * pow4((n - 1) as nat)
    }
}

proof fn lemma_pow4_monotone(a: nat, b: nat)
    requires
        a <= b,
    ensures
        pow4(a) <= pow4(b),
    decreases b,
{
    if a < b {
        lemma_pow4_monotone(a, (b - 1) as nat);
    }
}

proof fn lemma_pow4_64()
    ensures
        pow4(64) == 0x1_0000_0000_0000_0000_0000_0000_0000_0000,
        pow4(32) == 0x1_0000_0000_0000_0000,
{
    reveal_with_fuel(pow4, 65);
}

proof fn lemma_packed_bound(s: Seq<u8>)
    ensures
        packed(s) < pow4(s.len()),
    decreases s.len(),
{
    if s.len() > 0 {
        lemma_packed_bound(s.drop_last());
    }
}

proof fn lemma_div_mod_4(a: nat, c: nat)
    requires
        c < 4,
    ensures
        (a * 4 + c) / 4 == a,
        (a * 4 + c) % 4 == c,
{
    assert((a * 4 + c) / 4 == a) by (nonlinear_arith)
        requires c < 4;
    assert((a * 4 + c) % 4 == c) by (nonlinear_arith)
        requires c < 4;
}

proof fn lemma_digit_of_packed(s: Seq<u8>, p: nat)
    requires
        p < s.len(),
    ensures
        digit(packed(s), p) == code_of(s[s.len() - 1 - p]),
    decreases p,
{
    let t = s.drop_last();
    lemma_div_mod_4(packed(t), code_of(s.last()));
    if p > 0 {
        lemma_digit_of_packed(t, (p - 1) as nat);
    }
}

/// Decoding the packed form of a base sequence of at most 64 bases gives it back.
pub proof fn lemma_decode_encode(s: Seq<u8>)
    requires
        is_dna(s),
        s.len() <= 64,
    ensures
        decoded(packed(s), s.len()) == s,
        packed(s) <= u128::MAX,
{
    assert forall|i: int| 0 <= i < s.len() implies #[trigger] decoded(packed(s), s.len())[i]
        == s[i] by {
        lemma_digit_of_packed(s, (s.len() - 1 - i) as nat);
        assert(is_base(s[i]));
    }
    assert(decoded(packed(s), s.len()) =~= s);
    lemma_packed_bound(s);
    lemma_pow4_monotone(s.len(), 64);
    lemma_pow4_64();
}

/// The two-bit code of `b`, or `None` where `b` is no base.
pub fn base_code(b: u8) -> (r: Option<u8>)
    ensures
        r is Some <==> is_base(b),
        r matches Some(c) ==> c as nat == code_of(b),
{
    match b {
        BASE_A => Some(0),
        BASE_C => Some(1),
        BASE_G => Some(2),
        BASE_T => Some(3),
        _ => None,
    }
}

/// The base letter for the two-bit code `c % 4`.
pub fn base_symbol(c: u128) -> (r: u8)
    ensures
        r == symbol_of(c as nat),
{
    let d = c % 4;
    if d == 0 {
        BASE_A
    } else if d == 1 {
        BASE_C
    } else if d == 2 {
        BASE_G
    } else {
        BASE_T
    }
}

/// Checks that every byte is a base; fails at the first one that is not.
pub fn check_bases(sequence: &[u8]) -> (r: Result<(), EncodeError>)
    ensures
        r is Ok <==> is_dna(sequence@),
        r matches Err(EncodeError::InvalidBase(i)) ==> i < sequence@.len() && !is_base(
            sequence@[i as int],
        ) && is_dna(sequence@.take(i as int)),
{
    let mut i: usize = 0;
    while i < sequence.len()
        invariant
            i <= sequence@.len(),
            is_dna(sequence@.take(i as int)),
        decreases sequence@.len() - i,
    {
        if base_code(sequence[i]).is_none() {
            return Err(EncodeError::InvalidBase(i));
        }
        i = i + 1;
        assert(is_dna(sequence@.take(i as int))) by {
            assert forall|j: int| 0 <= j < i implies is_base(#[trigger] sequence@.take(i as int)[j]) by {
                if j < i - 1 {
                    assert(sequence@.take(i as int)[j] == sequence@.take(i - 1)[j]);
                }
            }
        }
    }
    assert(sequence@.take(i as int) =~= sequence@);
    Ok(())
}

/// Packs up to 64 bases into the low bits of a `u128`, the first base most
/// significant. Fails on the first byte that is not a base.
pub fn encode_dna_seq_2_u128(sequence: &[u8]) -> (r: Result<u128, EncodeError>)
    requires
        sequence@.len() <= 64,
    ensures
        is_dna(sequence@) <==> r is Ok,
        r matches Ok(k) ==> k as nat == packed(sequence@),
        r matches Err(EncodeError::InvalidBase(i)) ==> i < sequence@.len() && !is_base(
            sequence@[i as int],
        ) && is_dna(sequence@.take(i as int)),
{
    let mut result: u128 = 0;
    let mut i: usize = 0;
    while i < sequence.len()
        invariant
            i <= sequence@.len() <= 64,
            is_dna(sequence@.take(i as int)),
            result as nat == packed(sequence@.take(i as int)),
        decreases sequence@.len() - i,
    {
        let b = sequence[i];
        match base_code(b) {
            None => {
                return Err(EncodeError::InvalidBase(i));
            },
            Some(c) => {
                let ghost prefix = sequence@.take(i as int);
                let ghost next = sequence@.take(i + 1);
                proof {
                    assert(next.drop_last() =~= prefix);
                    lemma_packed_bound(prefix);
                    lemma_pow4_monotone(i as nat, 63);
                    lemma_pow4_64();
                    assert(pow4(63) * 4 == pow4(64));
                }
                result = result * 4 + c as u128;
                i = i + 1;
                proof {
                    assert(is_dna(next)) by {
                        assert forall|j: int| 0 <= j < next.len() implies is_base(
                            #[trigger] next[j],
                        ) by {
                            if j < i - 1 {
                                assert(next[j] == prefix[j]);
                            }
                        }
                    }
                }
            },
        }
    }
    assert(sequence@.take(i as int) =~= sequence@);
    Ok(result)
}

/// Packs up to 32 bases into the low bits of a `u64`, the first base most
/// significant. Fails on the first byte that is not a base.
pub fn encode_dna_seq_2_u64(sequence: &[u8]) -> (r: Result<u64, EncodeError>)
    requires
        sequence@.len() <= 32,
    ensures
        is_dna(sequence@) <==> r is Ok,
        r matches Ok(k) ==> k as nat == packed(sequence@),
        r matches Err(EncodeError::InvalidBase(i)) ==> i < sequence@.len() && !is_base(
            sequence@[i as int],
        ) && is_dna(sequence@.take(i as int)),
{
    match encode_dna_seq_2_u128(sequence) {
        Ok(k) => {
            proof {
                lemma_packed_bound(sequence@);
                lemma_pow4_monotone(sequence@.len(), 32);
                lemma_pow4_64();
            }
            Ok(k as u64)
        },
        Err(e) => Err(e),
    }
}

/// The base at position `index` of the `length` bases packed in the low
/// `2 * length` bits of `source`, the first base most significant.
pub fn decode_u64_2_dna_seq(source: u64, index: usize, length: usize) -> (r: u8)
    requires
        index < length <= 32,
    ensures
        r == decoded(source as nat, length as nat)[index as int],
{
    let shifts: usize = length - 1 - index;
    let mut k: u64 = source;
    let mut t: usize = 0;
    while t < shifts
        invariant
            t <= shifts,
            forall|p: nat| #[trigger] digit(k as nat, p) == digit(source as nat, (p + t) as nat),
        decreases shifts - t,
    {
        let ghost k0 = k;
        k = k / 4;
        assert forall|p: nat| #[trigger] digit(k as nat, p) == digit(source as nat, (p + t + 1) as nat)
            by {
            assert(digit(k0 as nat, p + 1) == digit(k as nat, p));
            assert(digit(k0 as nat, p + 1) == digit(source as nat, (p + 1 + t) as nat));
        }
        t = t + 1;
    }
    assert(digit(k as nat, 0) == digit(source as nat, shifts as nat));
    base_symbol(k as u128)
}

/// Unpacks the `char_size` bases held in the low `2 * char_size` bits of
/// `source`, the first base most significant.
pub fn decode_u128_2_dna_seq(source: &u128, char_size: usize) -> (r: Vec<u8>)
    requires
        char_size <= 64,
    ensures
        r@ == decoded(*source as nat, char_size as nat),
        is_dna(r@),
{
    let mut result: Vec<u8> = vec![BASE_A; char_size];
    let mut k: u128 = *source;
    let mut t: usize = 0;
    while t < char_size
        invariant
            t <= char_size <= 64,
            result@.len() == char_size,
            forall|p: nat| #[trigger] digit(k as nat, p) == digit(*source as nat, (p + t) as nat),
            forall|j: int|
                char_size - t <= j < char_size ==> #[trigger] result@[j] == symbol_of(
                    digit(*source as nat, (char_size - 1 - j) as nat),
                ),
            is_dna(result@),
        decreases char_size - t,
    {
        let ghost k0 = k;
        assert(digit(k as nat, 0) == digit(*source as nat, t as nat));
        result.set(char_size - 1 - t, base_symbol(k));
        k = k / 4;
        assert forall|p: nat| #[trigger] digit(k as nat, p) == digit(*source as nat, (p + t + 1) as nat)
            by {
            assert(digit(k0 as nat, p + 1) == digit(k as nat, p));
            assert(digit(k0 as nat, p + 1) == digit(*source as nat, (p + 1 + t) as nat));
        }
        t = t + 1;
    }
    assert(result@ =~= decoded(*source as nat, char_size as nat));
    result
}

/// The left flank (first `L_LEN` bases) of a spaced key.
pub fn decode_u128_l(source: &u128) -> (r: [u8; L_LEN])
    ensures
        r@ == decoded(*source as nat, KEY_LEN as nat).take(L_LEN as int),
{
    let all = decode_u128_2_dna_seq(source, KEY_LEN);
    let mut result: [u8; L_LEN] = [BASE_A; L_LEN];
    let mut i: usize = 0;
    while i < L_LEN
        invariant
            i <= L_LEN,
            all@ == decoded(*source as nat, KEY_LEN as nat),
            forall|j: int| 0 <= j < i ==> #[trigger] result@[j] == all@[j],
        decreases L_LEN - i,
    {
        result[i] = all[i];
        i = i + 1;
    }
    assert(result@ =~= decoded(*source as nat, KEY_LEN as nat).take(L_LEN as int));
    result
}

/// The right flank (last `R_LEN` bases) of a spaced key.
pub fn decode_u128_r(source: &u128) -> (r: [u8; R_LEN])
    ensures
        r@ == decoded(*source as nat, KEY_LEN as nat).skip(L_LEN as int),
{
    let all = decode_u128_2_dna_seq(source, KEY_LEN);
    let mut result: [u8; R_LEN] = [BASE_A; R_LEN];
    let mut i: usize = 0;
    while i < R_LEN
        invariant
            i <= R_LEN,
            all@ == decoded(*source as nat, KEY_LEN as nat),
            forall|j: int| 0 <= j < i ==> #[trigger] result@[j] == all@[L_LEN + j],
        decreases R_LEN - i,
    {
        result[i] = all[L_LEN + i];
        i = i + 1;
    }
    assert(result@ =~= decoded(*source as nat, KEY_LEN as nat).skip(L_LEN as int));
    result
}

/// Length of the base runs that mark a stretch as low-complexity.
pub const RUN_LEN: usize = 4;

/// Whether the bases hold `RUN_LEN` equal bases in a row starting at `i`.
pub open spec fn run_at(s: Seq<u8>, i: int) -> bool {
    forall|j: int| i <= j < i + RUN_LEN ==> #[trigger] s[j] == s[i]
}

/// Whether the bases hold a run of `RUN_LEN` equal bases anywhere.
pub open spec fn has_run(s: Seq<u8>) -> bool {
    exists|i: int| 0 <= i && i + RUN_LEN <= s.len() && #[trigger] run_at(s, i)
}

/// Low-complexity test of a spaced key: whether its `KEY_LEN` bases hold a
/// run of four equal bases (`AAAA`, `CCCC`, `GGGG` or `TTTT`). An optional
/// filter; the scans do not apply it.
pub fn is_complex(sequence: &u128) -> (r: bool)
    ensures
        r == has_run(decoded(*sequence as nat, KEY_LEN as nat)),
{
    let bases = decode_u128_2_dna_seq(sequence, KEY_LEN);
    let ghost s = bases@;
    let mut i: usize = 0;
    while i + RUN_LEN <= KEY_LEN
        invariant
            s == bases@,
            s == decoded(*sequence as nat, KEY_LEN as nat),
            s.len() == KEY_LEN,
            i + RUN_LEN <= KEY_LEN + 1,
            forall|q: int| 0 <= q < i ==> !#[trigger] run_at(s, q),
        decreases KEY_LEN - i,
    {
        let b = bases[i];
        if bases[i + 1] == b && bases[i + 2] == b && bases[i + 3] == b {
            assert(run_at(s, i as int)) by {
                assert forall|j: int| i <= j < i + RUN_LEN implies #[trigger] s[j] == s[i as int] by {
                    assert(j == i || j == i + 1 || j == i + 2 || j == i + 3);
                }
            }
            assert(has_run(s));
            return true;
        }
        assert(!run_at(s, i as int)) by {
            if bases[i + 1] != b {
                assert(s[i + 1] != s[i as int]);
            } else if bases[i + 2] != b {
                assert(s[i + 2] != s[i as int]);
            } else {
                assert(s[i + 3] != s[i as int]);
            }
        }
        i = i + 1;
    }
    false
}

} // verus!
