//! Base-4 encoding of fixed-length windows over the alphabet `{A, C, T, G}`.
//!
//! Each symbol maps to a digit in `[0, 4)`, and a window of length `k` maps
//! to the integer `sum_i digit(window[i]) * 4^i`: the first character is the
//! least-significant digit.  This mapping is a bijection between the `4^k`
//! windows and the keys `[0, 4^k)`, proved below.

use vstd::prelude::*;

use crate::error::KmerError;

verus! {

/// The four nucleotide symbols.
pub open spec fn is_base(c: char) -> bool {
    c == 'A' || c == 'C' || c == 'T' || c == 'G'
}

/// The digit of a symbol; only meaningful when `is_base(c)` holds.
pub open spec fn base_val(c: char) -> nat {
    if c == 'A' {
        0
    } else if c == 'C' {
        1
    } else if c == 'T' {
        2
    } else {
        3
    }
}

/// The symbol of a digit; only meaningful when `v < 4`.
pub open spec fn num2base(v: nat) -> char {
    if v == 0 {
        'A'
    } else if v == 1 {
        'C'
    } else if v == 2 {
        'T'
    } else {
        'G'
    }
}

/// Every character of `s` is one of the four symbols.
pub open spec fn valid_seq(s: Seq<char>) -> bool {
    forall|i: int| 0 <= i < s.len() ==> is_base(s[i])
}

/// The index of the first character outside the alphabet; `s.len()` when all
/// characters are valid.
pub open spec fn first_bad(s: Seq<char>) -> int
    decreases s.len(),
{
    if s.len() == 0 {
        0
    } else if !is_base(s[0]) {
        0
    } else {
        1 + first_bad(s.drop_first())
    }
}

/// `4^k`, the number of windows of length `k` and the dimension of a
/// fingerprint built with that `k`.
pub open spec fn pow4(k: nat) -> nat
    decreases k,
{
    if k == 0 {
        1
    } else {
        4 * pow4((k - 1) as nat)
    }
}

/// The encoded key of a window: positional base-4, first character least
/// significant.
pub open spec fn encode_spec(s: Seq<char>) -> nat
    decreases s.len(),
{
    if s.len() == 0 {
        0
    } else {
        base_val(s[0]) + 4 * encode_spec(s.drop_first())
    }
}

/// The window that a key decodes to: the inverse of `encode_spec` on
/// `[0, pow4(k))`.
pub open spec fn decode_spec(key: nat, k: nat) -> Seq<char>
    decreases k,
{
    if k == 0 {
        Seq::empty()
    } else {
        seq![num2base(key % 4)] + decode_spec(key / 4, (k - 1) as nat)
    }
}

/// `first_bad` is the least index holding an invalid character, and equals
/// the length exactly when the whole sequence is valid.
pub proof fn lemma_first_bad(s: Seq<char>)
    ensures
        0 <= first_bad(s) <= s.len(),
        forall|j: int| 0 <= j < first_bad(s) ==> is_base(s[j]),
        first_bad(s) < s.len() ==> !is_base(s[first_bad(s)]),
        first_bad(s) == s.len() <==> valid_seq(s),
    decreases s.len(),
{
    if s.len() == 0 {
    } else if !is_base(s[0]) {
    } else {
        lemma_first_bad(s.drop_first());
        assert(forall|j: int| 0 <= j < first_bad(s) ==> is_base(s[j])) by {
            assert forall|j: int| 0 <= j < first_bad(s) implies is_base(s[j]) by {
                if j > 0 {
                    assert(is_base(s.drop_first()[j - 1]));
                }
            }
        }
        if first_bad(s) < s.len() {
            assert(!is_base(s.drop_first()[first_bad(s) - 1]));
        }
        if valid_seq(s) {
            assert(valid_seq(s.drop_first())) by {
                assert forall|i: int| 0 <= i < s.drop_first().len() implies is_base(
                    s.drop_first()[i],
                ) by {
                    assert(is_base(s[i + 1]));
                }
            }
        }
    }
}

/// `pow4` is monotone.
pub proof fn lemma_pow4_mono(a: nat, b: nat)
    requires
        a <= b,
    ensures
        pow4(a) <= pow4(b),
    decreases b,
{
    if a < b {
        lemma_pow4_mono(a, (b - 1) as nat);
    }
}

/// The largest dimension this crate works with: `4^31` fits in a `u64`.
pub proof fn lemma_pow4_31()
    ensures
        pow4(31) == 0x4000_0000_0000_0000,
{
    reveal_with_fuel(pow4, 32);
}

/// Any window encodes below `pow4` of its length.
pub proof fn lemma_encode_bound(s: Seq<char>)
    ensures
        encode_spec(s) < pow4(s.len()),
    decreases s.len(),
{
    if s.len() > 0 {
        lemma_encode_bound(s.drop_first());
    }
}

/// Appending one character adds its digit at the next position weight.
pub proof fn lemma_encode_snoc(s: Seq<char>, c: char)
    ensures
        encode_spec(s.push(c)) == encode_spec(s) + base_val(c) * pow4(s.len()),
    decreases s.len(),
{
    if s.len() == 0 {
        assert(s.push(c) =~= seq![c]);
        assert(seq![c].drop_first() =~= Seq::<char>::empty());
        assert(seq![c][0] == c);
        assert(encode_spec(s.push(c)) == base_val(c) + 4 * encode_spec(seq![c].drop_first()));
        assert(encode_spec(s.push(c)) == base_val(c));
        assert(encode_spec(s) == 0);
        assert(pow4(s.len()) == 1);
        assert(base_val(c) * pow4(s.len()) == base_val(c)) by (nonlinear_arith)
            requires
                pow4(s.len()) == 1,
        ;
    } else {
        assert(s.push(c).drop_first() =~= s.drop_first().push(c));
        lemma_encode_snoc(s.drop_first(), c);
        assert(s.push(c)[0] == s[0]);
        assert(encode_spec(s.push(c)) == base_val(s[0]) + 4 * encode_spec(s.drop_first().push(c)));
        assert(s.drop_first().len() == s.len() - 1);
        assert(pow4(s.len()) == 4 * pow4((s.len() - 1) as nat));
        assert(4 * (encode_spec(s.drop_first()) + base_val(c) * pow4((s.len() - 1) as nat)) == 4
            * encode_spec(s.drop_first()) + 4 * (base_val(c) * pow4((s.len() - 1) as nat)));
        assert(4 * (base_val(c) * pow4((s.len() - 1) as nat)) == base_val(c) * (4 * pow4(
            (s.len() - 1) as nat,
        ))) by (nonlinear_arith);
    }
}

/// Decoding always yields a valid window of the requested length.
pub proof fn lemma_decode_wf(key: nat, k: nat)
    ensures
        decode_spec(key, k).len() == k,
        valid_seq(decode_spec(key, k)),
    decreases k,
{
    if k > 0 {
        lemma_decode_wf(key / 4, (k - 1) as nat);
        let s = decode_spec(key, k);
        assert forall|i: int| 0 <= i < s.len() implies is_base(s[i]) by {
            if i > 0 {
                assert(s[i] == decode_spec(key / 4, (k - 1) as nat)[i - 1]);
            }
        }
    }
}

/// Decoding is a right inverse of encoding: every key in `[0, pow4(k))` is
/// the encoding of the window it decodes to.
pub proof fn lemma_encode_decode(key: nat, k: nat)
    requires
        key < pow4(k),
    ensures
        encode_spec(decode_spec(key, k)) == key,
    decreases k,
{
    if k > 0 {
        let rest = decode_spec(key / 4, (k - 1) as nat);
        let s = decode_spec(key, k);
        assert(s[0] == num2base(key % 4));
        assert(s.drop_first() =~= rest);
        assert(key / 4 < pow4((k - 1) as nat));
        lemma_encode_decode(key / 4, (k - 1) as nat);
        assert(base_val(num2base(key % 4)) == key % 4);
    }
}

/// Decoding is a left inverse of encoding: a valid window is recovered from
/// its key and its length.
pub proof fn lemma_decode_encode(s: Seq<char>)
    requires
        valid_seq(s),
    ensures
        decode_spec(encode_spec(s), s.len()) == s,
    decreases s.len(),
{
    if s.len() > 0 {
        let key = encode_spec(s);
        assert(is_base(s[0]));
        assert(base_val(s[0]) < 4);
        assert(key % 4 == base_val(s[0]) && key / 4 == encode_spec(s.drop_first()));
        assert(num2base(base_val(s[0])) == s[0]);
        assert(valid_seq(s.drop_first())) by {
            assert forall|i: int| 0 <= i < s.drop_first().len() implies is_base(
                s.drop_first()[i],
            ) by {
                assert(is_base(s[i + 1]));
            }
        }
        lemma_decode_encode(s.drop_first());
        assert(decode_spec(key, s.len()) =~= s);
    }
}

/// Law: encoding is injective.  Two valid windows of the same length with
/// the same key are the same window.
pub proof fn lemma_encode_injective(s: Seq<char>, t: Seq<char>)
    requires
        valid_seq(s),
        valid_seq(t),
        s.len() == t.len(),
        encode_spec(s) == encode_spec(t),
    ensures
        s == t,
{
    lemma_decode_encode(s);
    lemma_decode_encode(t);
}

/// Law: encoding is surjective onto `[0, pow4(k))`.  Every key in range is
/// the encoding of exactly one valid window of length `k`, namely its
/// decoding.
pub proof fn lemma_encode_surjective(key: nat, k: nat)
    requires
        key < pow4(k),
    ensures
        decode_spec(key, k).len() == k,
        valid_seq(decode_spec(key, k)),
        encode_spec(decode_spec(key, k)) == key,
{
    lemma_decode_wf(key, k);
    lemma_encode_decode(key, k);
}

/// The digit of one symbol, or the offending character as an error.
pub fn base2num(c: char) -> (r: Result<u8, KmerError>)
    ensures
        match r {
            Ok(v) => is_base(c) && v as nat == base_val(c),
            Err(e) => !is_base(c) && e == (KmerError::InvalidSymbol { symbol: c }),
        },
{
    match c {
        'A' => Ok(0),
        'C' => Ok(1),
        'T' => Ok(2),
        'G' => Ok(3),
        _ => Err(KmerError::InvalidSymbol { symbol: c }),
    }
}

/// The key of the valid window `coll[start .. start + k)`.
pub(crate) fn encode_at(coll: &[char], start: usize, k: usize) -> (r: u64)
    requires
        start + k <= coll@.len(),
        k <= 31,
        forall|j: int| start <= j < start + k ==> is_base(coll@[j]),
    ensures
        r as nat == encode_spec(coll@.subrange(start as int, start as int + k as int)),
        (r as nat) < pow4(k as nat),
{
    proof {
        lemma_pow4_31();
        lemma_pow4_mono(k as nat, 31);
    }
    let n = coll.len();
    let mut v: u64 = 0;
    let mut m: u64 = 1;
    let mut i: usize = 0;
    while i < k
        invariant
            n == coll@.len(),
            start + k <= n,
            k <= 31,
            forall|j: int| start <= j < start + k ==> is_base(coll@[j]),
            0 <= i <= k,
            v as nat == encode_spec(coll@.subrange(start as int, start as int + i as int)),
            m as nat == pow4(i as nat),
            (v as nat) < pow4(i as nat),
            pow4(k as nat) <= 0x4000_0000_0000_0000,
        decreases k - i,
    {
        let c = coll[start + i];
        let b: u8 = match base2num(c) {
            Ok(b) => b,
            Err(_) => {
                proof {
                    assert(is_base(coll@[start + i]));
                    assert(false);
                }
                0
            },
        };
        proof {
            lemma_pow4_mono((i + 1) as nat, k as nat);
            lemma_encode_snoc(
                coll@.subrange(start as int, start as int + i as int),
                coll@[start + i],
            );
            assert(coll@.subrange(start as int, start as int + i as int + 1) =~= coll@.subrange(
                start as int,
                start as int + i as int,
            ).push(coll@[start + i]));
            assert((m as int) * (b as int) <= 3 * (m as int)) by (nonlinear_arith)
                requires
                    b <= 3,
                    m >= 0,
            ;
            assert((v as int) + (m as int) * (b as int) < 4 * (m as int));
            assert(4 * (m as nat) == pow4((i + 1) as nat));
            assert(c == coll@[start as int + i as int]);
            assert(b as nat == base_val(c));
            assert(encode_spec(coll@.subrange(start as int, start as int + i as int + 1))
                == encode_spec(coll@.subrange(start as int, start as int + i as int)) + base_val(c)
                * pow4(i as nat));
            assert((m as nat) * (b as nat) == base_val(c) * pow4(i as nat)) by (nonlinear_arith)
                requires
                    m as nat == pow4(i as nat),
                    b as nat == base_val(c),
            ;
        }
        v = v + m * (b as u64);
        m = m * 4;
        i = i + 1;
    }
    v
}

/// Encodes a whole window, rejecting the first invalid character.
///
/// The window length is capped at 31 so that the key fits in a `u64`.
pub fn encode(window: &[char]) -> (r: Result<u64, KmerError>)
    requires
        window@.len() <= 31,
    ensures
        match r {
            Ok(v) => {
                &&& valid_seq(window@)
                &&& v as nat == encode_spec(window@)
                &&& (v as nat) < pow4(window@.len())
            },
            Err(e) => {
                &&& !valid_seq(window@)
                &&& e == (KmerError::InvalidSymbol { symbol: window@[first_bad(window@)] })
            },
        },
{
    let n = window.len();
    let mut i: usize = 0;
    while i < n
        invariant
            n == window@.len() <= 31,
            0 <= i <= n,
            forall|j: int| 0 <= j < i ==> is_base(window@[j]),
        decreases n - i,
    {
        match base2num(window[i]) {
            Ok(_) => {},
            Err(e) => {
                proof {
                    lemma_first_bad(window@);
                }
                return Err(e);
            },
        }
        i = i + 1;
    }
    let key = encode_at(window, 0, n);
    proof {
        assert(window@.subrange(0, n as int) =~= window@);
    }
    Ok(key)
}

} // verus!
