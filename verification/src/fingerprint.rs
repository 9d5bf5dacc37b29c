//! Fingerprints: sparse k-mer frequency vectors with a unit Euclidean norm.
//!
//! A fingerprint stores, for each key that occurs among the windows of a
//! sequence, the raw occurrence count, as parallel `keys`/`counts` arrays
//! sorted by key; every other coordinate of the `4^k`-dimensional vector is
//! zero.  The normalized weight of a coordinate is its count divided by the
//! square root of `norm_sq`, the sum of squared counts.  That division is
//! floating point and is left to callers; everything up to it is exact and
//! verified here.

use vstd::prelude::*;

use crate::encoding::base2num;
use crate::encoding::encode_spec;
use crate::encoding::first_bad;
use crate::encoding::is_base;
use crate::encoding::lemma_first_bad;
use crate::encoding::pow4;
use crate::encoding::valid_seq;
use crate::error::KmerError;

verus! {

/// The sum of a sequence of counts.
pub open spec fn seq_sum(s: Seq<u64>) -> int
    decreases s.len(),
{
    if s.len() == 0 {
        0
    } else {
        s[0] + seq_sum(s.drop_first())
    }
}

/// The sum of squared counts: the squared Euclidean norm of the raw count
/// vector.
pub open spec fn seq_sum_sq(s: Seq<u64>) -> int
    decreases s.len(),
{
    if s.len() == 0 {
        0
    } else {
        s[0] * s[0] + seq_sum_sq(s.drop_first())
    }
}

/// The count associated with `key` in the parallel `keys`/`counts` arrays;
/// zero when the key is absent.
pub open spec fn assoc_count(keys: Seq<u64>, counts: Seq<u64>, key: u64) -> nat
    decreases keys.len(),
{
    if keys.len() == 0 {
        0
    } else if keys[0] == key {
        counts[0] as nat
    } else {
        assoc_count(keys.drop_first(), counts.drop_first(), key)
    }
}

/// Keys strictly increase, so each key occurs at most once.
pub open spec fn strictly_sorted(keys: Seq<u64>) -> bool {
    forall|i: int, j: int| 0 <= i < j < keys.len() ==> keys[i] < keys[j]
}

/// The dot product of two count vectors given as key-sorted sparse arrays:
/// the sum, over keys present in both, of the product of the two counts.
pub open spec fn dot_spec(ka: Seq<u64>, ca: Seq<u64>, kb: Seq<u64>, cb: Seq<u64>) -> int
    decreases ka.len() + kb.len(),
{
    if ka.len() == 0 || kb.len() == 0 {
        0
    } else if ka[0] == kb[0] {
        ca[0] * cb[0] + dot_spec(ka.drop_first(), ca.drop_first(), kb.drop_first(), cb.drop_first())
    } else if ka[0] < kb[0] {
        dot_spec(ka.drop_first(), ca.drop_first(), kb, cb)
    } else {
        dot_spec(ka, ca, kb.drop_first(), cb.drop_first())
    }
}

/// The key of the window starting at `i`.
pub open spec fn win_key(s: Seq<char>, k: int, i: int) -> nat {
    encode_spec(s.subrange(i, i + k))
}

/// How many of the first `upto` windows of `s` have key `key`.
pub open spec fn win_count_upto(s: Seq<char>, k: int, key: nat, upto: int) -> nat
    decreases upto,
{
    if upto <= 0 {
        0
    } else {
        win_count_upto(s, k, key, upto - 1) + (if win_key(s, k, upto - 1) == key {
            1nat
        } else {
            0nat
        })
    }
}

/// How often `key` occurs among all windows of `s`: the frequency table of
/// the sequence, as a function of the key.
pub open spec fn window_count(s: Seq<char>, k: int, key: nat) -> nat {
    win_count_upto(s, k, key, s.len() - k + 1)
}

pub proof fn lemma_seq_sum_nonneg(s: Seq<u64>)
    ensures
        seq_sum(s) >= 0,
    decreases s.len(),
{
    if s.len() > 0 {
        lemma_seq_sum_nonneg(s.drop_first());
    }
}

pub proof fn lemma_seq_sum_sq_nonneg(s: Seq<u64>)
    ensures
        seq_sum_sq(s) >= 0,
    decreases s.len(),
{
    if s.len() > 0 {
        lemma_seq_sum_sq_nonneg(s.drop_first());
        assert(s[0] * s[0] >= 0) by (nonlinear_arith);
    }
}

pub proof fn lemma_seq_sum_concat(a: Seq<u64>, b: Seq<u64>)
    ensures
        seq_sum(a + b) == seq_sum(a) + seq_sum(b),
    decreases a.len(),
{
    if a.len() == 0 {
        assert(a + b =~= b);
    } else {
        assert((a + b).drop_first() =~= a.drop_first() + b);
        assert((a + b)[0] == a[0]);
        lemma_seq_sum_concat(a.drop_first(), b);
    }
}

pub proof fn lemma_seq_sum_sq_concat(a: Seq<u64>, b: Seq<u64>)
    ensures
        seq_sum_sq(a + b) == seq_sum_sq(a) + seq_sum_sq(b),
    decreases a.len(),
{
    if a.len() == 0 {
        assert(a + b =~= b);
    } else {
        assert((a + b).drop_first() =~= a.drop_first() + b);
        assert((a + b)[0] == a[0]);
        lemma_seq_sum_sq_concat(a.drop_first(), b);
    }
}

/// Inserting a count adds it to the sum.
pub proof fn lemma_seq_sum_insert(s: Seq<u64>, p: int, x: u64)
    requires
        0 <= p <= s.len(),
    ensures
        seq_sum(s.insert(p, x)) == seq_sum(s) + x,
{
    let front = s.subrange(0, p);
    let back = s.subrange(p, s.len() as int);
    assert(s =~= front + back);
    assert(s.insert(p, x) =~= front + (seq![x] + back));
    assert(seq![x].drop_first() =~= Seq::<u64>::empty());
    assert(seq![x][0] == x);
    assert(seq_sum(seq![x]) == x) by {
        reveal_with_fuel(seq_sum, 3);
    }
    lemma_seq_sum_concat(front, back);
    lemma_seq_sum_concat(front, seq![x] + back);
    lemma_seq_sum_concat(seq![x], back);
}

/// Replacing a count adjusts the sum by the difference.
pub proof fn lemma_seq_sum_update(s: Seq<u64>, p: int, x: u64)
    requires
        0 <= p < s.len(),
    ensures
        seq_sum(s.update(p, x)) == seq_sum(s) - s[p] + x,
{
    let front = s.subrange(0, p);
    let back = s.subrange(p + 1, s.len() as int);
    assert(s =~= front + (seq![s[p]] + back));
    assert(s.update(p, x) =~= front + (seq![x] + back));
    assert(seq![x].drop_first() =~= Seq::<u64>::empty());
    assert(seq![s[p]].drop_first() =~= Seq::<u64>::empty());
    lemma_seq_sum_concat(front, seq![s[p]] + back);
    lemma_seq_sum_concat(seq![s[p]], back);
    lemma_seq_sum_concat(front, seq![x] + back);
    lemma_seq_sum_concat(seq![x], back);
}

/// Every count is at most the sum of all counts.
pub proof fn lemma_seq_sum_elem(s: Seq<u64>, i: int)
    requires
        0 <= i < s.len(),
    ensures
        s[i] <= seq_sum(s),
    decreases s.len(),
{
    if i == 0 {
        lemma_seq_sum_nonneg(s.drop_first());
    } else {
        lemma_seq_sum_elem(s.drop_first(), i - 1);
    }
}

/// The squared norm is at most the square of the total count.
pub proof fn lemma_sum_sq_le_square(s: Seq<u64>)
    ensures
        seq_sum_sq(s) <= seq_sum(s) * seq_sum(s),
    decreases s.len(),
{
    if s.len() == 0 {
    } else {
        lemma_sum_sq_le_square(s.drop_first());
        lemma_seq_sum_nonneg(s.drop_first());
        let a = s[0] as int;
        let t = seq_sum(s.drop_first());
        assert(a * a + t * t <= (a + t) * (a + t)) by (nonlinear_arith)
            requires
                a >= 0,
                t >= 0,
        ;
    }
}

/// A key that occurs nowhere has count zero.
pub proof fn lemma_assoc_absent(keys: Seq<u64>, counts: Seq<u64>, key: u64)
    requires
        !keys.contains(key),
    ensures
        assoc_count(keys, counts, key) == 0,
    decreases keys.len(),
{
    if keys.len() > 0 {
        assert(keys[0] != key);
        assert(!keys.drop_first().contains(key)) by {
            if keys.drop_first().contains(key) {
                let j = choose|j: int|
                    0 <= j < keys.drop_first().len() && keys.drop_first()[j] == key;
                assert(keys[j + 1] == key);
            }
        }
        lemma_assoc_absent(keys.drop_first(), counts.drop_first(), key);
    }
}

/// Replacing the count at a position whose key has no earlier occurrence
/// sets that key's count and leaves every other key's count unchanged.
pub proof fn lemma_assoc_update(keys: Seq<u64>, counts: Seq<u64>, p: int, x: u64)
    requires
        keys.len() == counts.len(),
        0 <= p < keys.len(),
        forall|j: int| 0 <= j < p ==> keys[j] != keys[p],
    ensures
        assoc_count(keys, counts.update(p, x), keys[p]) == x,
        forall|k2: u64|
            k2 != keys[p] ==> assoc_count(keys, counts.update(p, x), k2) == assoc_count(
                keys,
                counts,
                k2,
            ),
    decreases p,
{
    if p == 0 {
        assert(counts.update(0, x)[0] == x);
        assert(counts.update(0, x).drop_first() =~= counts.drop_first());
    } else {
        assert(counts.update(p, x).drop_first() =~= counts.drop_first().update(p - 1, x));
        assert(keys.drop_first()[p - 1] == keys[p]);
        assert(forall|j: int| 0 <= j < p - 1 ==> keys.drop_first()[j] == keys[j + 1]);
        lemma_assoc_update(keys.drop_first(), counts.drop_first(), p - 1, x);
        assert(counts.update(p, x)[0] == counts[0]);
        assert forall|k2: u64| k2 != keys[p] implies assoc_count(keys, counts.update(p, x), k2)
            == assoc_count(keys, counts, k2) by {
            if k2 == keys[0] {
                assert(assoc_count(keys, counts.update(p, x), k2) == counts.update(p, x)[0] as nat);
                assert(assoc_count(keys, counts, k2) == counts[0] as nat);
            } else {
                assert(assoc_count(keys, counts.update(p, x), k2) == assoc_count(
                    keys.drop_first(),
                    counts.update(p, x).drop_first(),
                    k2,
                ));
                assert(assoc_count(keys, counts, k2) == assoc_count(
                    keys.drop_first(),
                    counts.drop_first(),
                    k2,
                ));
            }
        }
    }
}

/// Inserting a `(key, count)` pair before any occurrence of `key` gives
/// `key` that count and leaves every other key's count unchanged.
pub proof fn lemma_assoc_insert(keys: Seq<u64>, counts: Seq<u64>, p: int, key: u64, c: u64)
    requires
        keys.len() == counts.len(),
        0 <= p <= keys.len(),
        forall|j: int| 0 <= j < p ==> keys[j] != key,
    ensures
        assoc_count(keys.insert(p, key), counts.insert(p, c), key) == c,
        forall|k2: u64|
            k2 != key ==> assoc_count(keys.insert(p, key), counts.insert(p, c), k2) == assoc_count(
                keys,
                counts,
                k2,
            ),
    decreases p,
{
    if p == 0 {
        assert(keys.insert(0, key)[0] == key);
        assert(counts.insert(0, c)[0] == c);
        assert(keys.insert(0, key).drop_first() =~= keys);
        assert(counts.insert(0, c).drop_first() =~= counts);
    } else {
        assert(keys.insert(p, key)[0] == keys[0]);
        assert(counts.insert(p, c)[0] == counts[0]);
        assert(keys.insert(p, key).drop_first() =~= keys.drop_first().insert(p - 1, key));
        assert(counts.insert(p, c).drop_first() =~= counts.drop_first().insert(p - 1, c));
        assert(forall|j: int| 0 <= j < p - 1 ==> keys.drop_first()[j] == keys[j + 1]);
        lemma_assoc_insert(keys.drop_first(), counts.drop_first(), p - 1, key, c);
        assert forall|k2: u64| k2 != key implies assoc_count(
            keys.insert(p, key),
            counts.insert(p, c),
            k2,
        ) == assoc_count(keys, counts, k2) by {
            if k2 == keys[0] {
                assert(assoc_count(keys.insert(p, key), counts.insert(p, c), k2) == counts.insert(
                    p,
                    c,
                )[0] as nat);
                assert(assoc_count(keys, counts, k2) == counts[0] as nat);
            } else {
                assert(assoc_count(keys.insert(p, key), counts.insert(p, c), k2) == assoc_count(
                    keys.insert(p, key).drop_first(),
                    counts.insert(p, c).drop_first(),
                    k2,
                ));
                assert(assoc_count(keys, counts, k2) == assoc_count(
                    keys.drop_first(),
                    counts.drop_first(),
                    k2,
                ));
            }
        }
    }
}

pub proof fn lemma_dot_nonneg(ka: Seq<u64>, ca: Seq<u64>, kb: Seq<u64>, cb: Seq<u64>)
    ensures
        dot_spec(ka, ca, kb, cb) >= 0,
    decreases ka.len() + kb.len(),
{
    if ka.len() == 0 || kb.len() == 0 {
    } else if ka[0] == kb[0] {
        lemma_dot_nonneg(ka.drop_first(), ca.drop_first(), kb.drop_first(), cb.drop_first());
        assert(ca[0] * cb[0] >= 0) by (nonlinear_arith);
    } else if ka[0] < kb[0] {
        lemma_dot_nonneg(ka.drop_first(), ca.drop_first(), kb, cb);
    } else {
        lemma_dot_nonneg(ka, ca, kb.drop_first(), cb.drop_first());
    }
}

/// The dot product of two count vectors is at most the product of their
/// total counts: every shared term `a * b` is a summand of
/// `sum(ca) * sum(cb)`.
pub proof fn lemma_dot_le_prod(ka: Seq<u64>, ca: Seq<u64>, kb: Seq<u64>, cb: Seq<u64>)
    requires
        ka.len() == ca.len(),
        kb.len() == cb.len(),
    ensures
        dot_spec(ka, ca, kb, cb) <= seq_sum(ca) * seq_sum(cb),
    decreases ka.len() + kb.len(),
{
    lemma_seq_sum_nonneg(ca);
    lemma_seq_sum_nonneg(cb);
    if ka.len() == 0 || kb.len() == 0 {
        assert(seq_sum(ca) * seq_sum(cb) >= 0) by (nonlinear_arith)
            requires
                seq_sum(ca) >= 0,
                seq_sum(cb) >= 0,
        ;
    } else if ka[0] == kb[0] {
        lemma_dot_le_prod(ka.drop_first(), ca.drop_first(), kb.drop_first(), cb.drop_first());
        lemma_seq_sum_nonneg(ca.drop_first());
        lemma_seq_sum_nonneg(cb.drop_first());
        let a0 = ca[0] as int;
        let b0 = cb[0] as int;
        let ar = seq_sum(ca.drop_first());
        let br = seq_sum(cb.drop_first());
        assert(a0 * b0 + ar * br <= (a0 + ar) * (b0 + br)) by (nonlinear_arith)
            requires
                a0 >= 0,
                b0 >= 0,
                ar >= 0,
                br >= 0,
        ;
        assert(seq_sum(ca) == a0 + ar);
        assert(seq_sum(cb) == b0 + br);
        assert(dot_spec(ka, ca, kb, cb) <= a0 * b0 + ar * br);
    } else if ka[0] < kb[0] {
        lemma_dot_le_prod(ka.drop_first(), ca.drop_first(), kb, cb);
        lemma_seq_sum_nonneg(ca.drop_first());
        let a0 = ca[0] as int;
        let ar = seq_sum(ca.drop_first());
        let bs = seq_sum(cb);
        assert(ar * bs <= (a0 + ar) * bs) by (nonlinear_arith)
            requires
                a0 >= 0,
                ar >= 0,
                bs >= 0,
        ;
    } else {
        lemma_dot_le_prod(ka, ca, kb.drop_first(), cb.drop_first());
        lemma_seq_sum_nonneg(cb.drop_first());
        let b0 = cb[0] as int;
        let br = seq_sum(cb.drop_first());
        let as_ = seq_sum(ca);
        assert(as_ * br <= as_ * (b0 + br)) by (nonlinear_arith)
            requires
                b0 >= 0,
                br >= 0,
                as_ >= 0,
        ;
    }
}

/// Law: similarity is symmetric.  The dot product does not depend on the
/// order of its two arguments.
pub proof fn lemma_dot_symmetric(ka: Seq<u64>, ca: Seq<u64>, kb: Seq<u64>, cb: Seq<u64>)
    ensures
        dot_spec(ka, ca, kb, cb) == dot_spec(kb, cb, ka, ca),
    decreases ka.len() + kb.len(),
{
    if ka.len() == 0 || kb.len() == 0 {
    } else if ka[0] == kb[0] {
        lemma_dot_symmetric(ka.drop_first(), ca.drop_first(), kb.drop_first(), cb.drop_first());
    } else if ka[0] < kb[0] {
        lemma_dot_symmetric(ka.drop_first(), ca.drop_first(), kb, cb);
    } else {
        lemma_dot_symmetric(ka, ca, kb.drop_first(), cb.drop_first());
    }
}

/// Law: self-similarity.  The dot product of a count vector with itself is
/// its squared norm, so the normalized similarity of a fingerprint with
/// itself is exactly one.
pub proof fn lemma_dot_self(keys: Seq<u64>, counts: Seq<u64>)
    requires
        keys.len() == counts.len(),
    ensures
        dot_spec(keys, counts, keys, counts) == seq_sum_sq(counts),
    decreases keys.len(),
{
    if keys.len() > 0 {
        lemma_dot_self(keys.drop_first(), counts.drop_first());
    }
}

/// Law: in a key-sorted table each entry is its own key's count, so the
/// stored pairs are exactly the graph of `assoc_count` on the stored keys.
pub proof fn lemma_assoc_at(keys: Seq<u64>, counts: Seq<u64>, i: int)
    requires
        keys.len() == counts.len(),
        strictly_sorted(keys),
        0 <= i < keys.len(),
    ensures
        assoc_count(keys, counts, keys[i]) == counts[i],
    decreases i,
{
    if i > 0 {
        assert(keys[0] < keys[i]);
        assert(forall|a: int, b: int|
            0 <= a < b < keys.drop_first().len() ==> keys.drop_first()[a] < keys.drop_first()[b]);
        lemma_assoc_at(keys.drop_first(), counts.drop_first(), i - 1);
    }
}

/// The dot product written per key: for each entry of the first vector, its
/// count times the other vector's count of the same key.  Keys absent from
/// the second vector contribute zero.
pub open spec fn dot_by_keys(ka: Seq<u64>, ca: Seq<u64>, kb: Seq<u64>, cb: Seq<u64>) -> int
    decreases ka.len(),
{
    if ka.len() == 0 {
        0
    } else {
        ca[0] * assoc_count(kb, cb, ka[0]) + dot_by_keys(ka.drop_first(), ca.drop_first(), kb, cb)
    }
}

/// Dropping the head of the second vector changes nothing when no key of
/// the first vector equals it.
proof fn lemma_dot_by_keys_drop(ka: Seq<u64>, ca: Seq<u64>, kb: Seq<u64>, cb: Seq<u64>)
    requires
        kb.len() > 0,
        forall|i: int| 0 <= i < ka.len() ==> ka[i] != kb[0],
    ensures
        dot_by_keys(ka, ca, kb, cb) == dot_by_keys(ka, ca, kb.drop_first(), cb.drop_first()),
    decreases ka.len(),
{
    if ka.len() > 0 {
        assert(ka[0] != kb[0]);
        assert(assoc_count(kb, cb, ka[0]) == assoc_count(kb.drop_first(), cb.drop_first(), ka[0]));
        assert(forall|i: int| 0 <= i < ka.drop_first().len() ==> ka.drop_first()[i] == ka[i + 1]);
        lemma_dot_by_keys_drop(ka.drop_first(), ca.drop_first(), kb, cb);
    }
}

/// Law: the merge dot product is the sum, over keys present in both
/// vectors, of the product of the two counts.  For key-sorted vectors,
/// `dot_spec` equals the per-key formulation `dot_by_keys`.
pub proof fn lemma_dot_is_by_keys(ka: Seq<u64>, ca: Seq<u64>, kb: Seq<u64>, cb: Seq<u64>)
    requires
        ka.len() == ca.len(),
        kb.len() == cb.len(),
        strictly_sorted(ka),
        strictly_sorted(kb),
    ensures
        dot_spec(ka, ca, kb, cb) == dot_by_keys(ka, ca, kb, cb),
    decreases ka.len() + kb.len(),
{
    if ka.len() == 0 {
    } else if kb.len() == 0 {
        assert(assoc_count(kb, cb, ka[0]) == 0);
        assert(forall|i: int, j: int|
            0 <= i < j < ka.drop_first().len() ==> ka.drop_first()[i] < ka.drop_first()[j]);
        lemma_dot_is_by_keys(ka.drop_first(), ca.drop_first(), kb, cb);
    } else {
        assert(forall|i: int, j: int|
            0 <= i < j < ka.drop_first().len() ==> ka.drop_first()[i] < ka.drop_first()[j]);
        assert(forall|i: int, j: int|
            0 <= i < j < kb.drop_first().len() ==> kb.drop_first()[i] < kb.drop_first()[j]);
        if ka[0] == kb[0] {
            lemma_dot_is_by_keys(ka.drop_first(), ca.drop_first(), kb.drop_first(), cb.drop_first());
            assert(assoc_count(kb, cb, ka[0]) == cb[0] as nat);
            assert(forall|i: int| 0 <= i < ka.drop_first().len() ==> ka.drop_first()[i] > ka[0]);
            lemma_dot_by_keys_drop(ka.drop_first(), ca.drop_first(), kb, cb);
        } else if ka[0] < kb[0] {
            lemma_dot_is_by_keys(ka.drop_first(), ca.drop_first(), kb, cb);
            assert(!kb.contains(ka[0])) by {
                if kb.contains(ka[0]) {
                    let j = choose|j: int| 0 <= j < kb.len() && kb[j] == ka[0];
                    if j > 0 {
                        assert(kb[0] < kb[j]);
                    }
                }
            }
            lemma_assoc_absent(kb, cb, ka[0]);
        } else {
            lemma_dot_is_by_keys(ka, ca, kb.drop_first(), cb.drop_first());
            assert forall|i: int| 0 <= i < ka.len() implies ka[i] > kb[0] by {
                if i > 0 {
                    assert(ka[0] < ka[i]);
                }
            }
            lemma_dot_by_keys_drop(ka, ca, kb, cb);
        }
    }
}

/// Records one more occurrence of `key` in the key-sorted frequency table.
fn bump(keys: &mut Vec<u64>, counts: &mut Vec<u64>, key: u64)
    requires
        old(keys)@.len() == old(counts)@.len(),
        strictly_sorted(old(keys)@),
        forall|i: int| 0 <= i < old(counts)@.len() ==> old(counts)@[i] >= 1,
        seq_sum(old(counts)@) < u64::MAX,
    ensures
        final(keys)@.len() == final(counts)@.len(),
        strictly_sorted(final(keys)@),
        forall|i: int| 0 <= i < final(counts)@.len() ==> final(counts)@[i] >= 1,
        assoc_count(final(keys)@, final(counts)@, key) == assoc_count(
            old(keys)@,
            old(counts)@,
            key,
        ) + 1,
        forall|k2: u64|
            k2 != key ==> assoc_count(final(keys)@, final(counts)@, k2) == assoc_count(
                old(keys)@,
                old(counts)@,
                k2,
            ),
        seq_sum(final(counts)@) == seq_sum(old(counts)@) + 1,
        forall|i: int|
            0 <= i < final(keys)@.len() ==> old(keys)@.contains(final(keys)@[i])
                || final(keys)@[i] == key,
{
    let ghost keys0 = keys@;
    let ghost counts0 = counts@;
    let n = keys.len();
    let mut p: usize = 0;
    while p < n && keys[p] < key
        invariant
            keys@ == keys0,
            counts@ == counts0,
            n == keys0.len(),
            0 <= p <= n,
            forall|j: int| 0 <= j < p ==> keys0[j] < key,
        decreases n - p,
    {
        p = p + 1;
    }
    if p < n && keys[p] == key {
        proof {
            lemma_seq_sum_elem(counts0, p as int);
            lemma_seq_sum_nonneg(counts0);
        }
        let c = counts[p];
        counts[p] = c + 1;
        proof {
            assert(forall|j: int| 0 <= j < p ==> keys0[j] != keys0[p as int]);
            lemma_assoc_update(keys0, counts0, p as int, (c + 1) as u64);
            lemma_assoc_update(keys0, counts0, p as int, c);
            assert(counts0.update(p as int, c) =~= counts0);
            lemma_seq_sum_update(counts0, p as int, (c + 1) as u64);
            assert forall|i: int| 0 <= i < keys@.len() implies keys0.contains(keys@[i]) || keys@[i]
                == key by {
                assert(keys0[i] == keys@[i]);
            }
        }
    } else {
        proof {
            assert(p < n ==> keys0[p as int] > key);
            assert(forall|j: int| p <= j < n ==> keys0[j] > key) by {
                assert forall|j: int| p <= j < n implies keys0[j] > key by {
                    if j > p {
                        assert(keys0[p as int] < keys0[j]);
                    }
                }
            }
            assert(!keys0.contains(key)) by {
                if keys0.contains(key) {
                    let j = choose|j: int| 0 <= j < keys0.len() && keys0[j] == key;
                    assert(keys0[j] == key);
                }
            }
            lemma_assoc_absent(keys0, counts0, key);
            lemma_assoc_insert(keys0, counts0, p as int, key, 1);
            lemma_seq_sum_insert(counts0, p as int, 1);
        }
        keys.insert(p, key);
        counts.insert(p, 1);
        proof {
            assert(keys@ =~= keys0.insert(p as int, key));
            assert(counts@ =~= counts0.insert(p as int, 1));
            assert(strictly_sorted(keys@)) by {
                assert forall|a: int, b: int| 0 <= a < b < keys@.len() implies keys@[a]
                    < keys@[b] by {
                    assert(keys@[a] == if a < p {
                        keys0[a]
                    } else if a == p {
                        key
                    } else {
                        keys0[a - 1]
                    });
                    assert(keys@[b] == if b < p {
                        keys0[b]
                    } else if b == p {
                        key
                    } else {
                        keys0[b - 1]
                    });
                }
            }
            assert forall|i: int| 0 <= i < keys@.len() implies keys0.contains(keys@[i]) || keys@[i]
                == key by {
                if i < p {
                    assert(keys@[i] == keys0[i]);
                } else if i > p {
                    assert(keys@[i] == keys0[i - 1]);
                }
            }
            assert forall|i: int| 0 <= i < counts@.len() implies counts@[i] >= 1 by {
                if i < p {
                    assert(counts@[i] == counts0[i]);
                } else if i > p {
                    assert(counts@[i] == counts0[i - 1]);
                }
            }
        }
    }
}

/// The mathematical content of a fingerprint: the window length, the sorted
/// keys with their raw counts, and the squared norm of the count vector.
pub ghost struct KmerView {
    pub k: u32,
    pub keys: Seq<u64>,
    pub counts: Seq<u64>,
    pub norm_sq: u128,
}

/// A fingerprint: an immutable sparse vector of dimension `pow4(k)`.
///
/// Coordinate `keys[i]` holds the raw count `counts[i] >= 1`; every other
/// coordinate is zero.  The normalized weight of coordinate `keys[i]` is
/// `counts[i] / sqrt(norm_sq)`, which gives the vector Euclidean norm one;
/// the division is floating point and left to the caller.
#[derive(Debug)]
pub struct KmerVec {
    k: u32,
    keys: Vec<u64>,
    counts: Vec<u64>,
    norm_sq: u128,
}

impl View for KmerVec {
    type V = KmerView;

    closed spec fn view(&self) -> KmerView {
        KmerView { k: self.k, keys: self.keys@, counts: self.counts@, norm_sq: self.norm_sq }
    }
}

impl KmerVec {
    /// Well-formedness, maintained by construction: sorted distinct keys in
    /// `[0, pow4(k))`, positive counts whose total fits a `u64`, and the
    /// squared norm of the counts.
    #[verifier::type_invariant]
    spec fn wf(self) -> bool {
        &&& 1 <= self.k <= 31
        &&& self.keys@.len() == self.counts@.len()
        &&& self.keys@.len() >= 1
        &&& strictly_sorted(self.keys@)
        &&& forall|i: int|
            0 <= i < self.keys@.len() ==> (self.keys@[i] as nat) < pow4(self.k as nat)
        &&& forall|i: int| 0 <= i < self.counts@.len() ==> self.counts@[i] >= 1
        &&& seq_sum(self.counts@) <= u64::MAX
        &&& self.norm_sq as int == seq_sum_sq(self.counts@)
    }

    /// The `k` this fingerprint was built with; its dimension is `pow4(k)`.
    pub fn k(&self) -> (r: u32)
        ensures
            r == self@.k,
            1 <= r <= 31,
    {
        proof {
            use_type_invariant(self);
        }
        self.k
    }

    /// How many coordinates are nonzero.
    pub fn num_entries(&self) -> (r: usize)
        ensures
            r == self@.keys.len(),
            r == self@.counts.len(),
            r >= 1,
    {
        proof {
            use_type_invariant(self);
        }
        self.keys.len()
    }

    /// The key of the `i`-th nonzero coordinate, in strictly increasing
    /// order.
    pub fn key_at(&self, i: usize) -> (r: u64)
        requires
            i < self@.keys.len(),
        ensures
            r == self@.keys[i as int],
            (r as nat) < pow4(self@.k as nat),
    {
        proof {
            use_type_invariant(self);
        }
        self.keys[i]
    }

    /// The raw occurrence count of the `i`-th nonzero coordinate.
    pub fn count_at(&self, i: usize) -> (r: u64)
        requires
            i < self@.keys.len(),
        ensures
            r == self@.counts[i as int],
            r >= 1,
    {
        proof {
            use_type_invariant(self);
        }
        self.counts[i]
    }

    /// The squared Euclidean norm of the raw count vector: the sum of the
    /// squared counts.  The normalized fingerprint has norm
    /// `sqrt(norm_sq) / sqrt(norm_sq) == 1`.
    pub fn norm_sq(&self) -> (r: u128)
        ensures
            r == self@.norm_sq,
            r as int == seq_sum_sq(self@.counts),
            r >= 1,
    {
        proof {
            use_type_invariant(self);
            lemma_seq_sum_sq_nonneg(self.counts@.drop_first());
            assert(self.counts@[0] * self.counts@[0] >= 1) by (nonlinear_arith)
                requires
                    self.counts@[0] >= 1,
            ;
        }
        self.norm_sq
    }

    /// The dot product of the two raw count vectors, or a dimension error
    /// when the fingerprints were built with different `k`.
    ///
    /// The cosine similarity of the two fingerprints is
    /// `dot / (sqrt(self.norm_sq) * sqrt(other.norm_sq))`, and the
    /// dissimilarity is one minus that.
    pub fn dot(&self, other: &KmerVec) -> (r: Result<u128, KmerError>)
        ensures
            match r {
                Ok(d) => {
                    &&& self@.k == other@.k
                    &&& d as int == dot_spec(self@.keys, self@.counts, other@.keys, other@.counts)
                },
                Err(e) => {
                    &&& self@.k != other@.k
                    &&& e == (KmerError::DimensionMismatch {
                        left_k: self@.k,
                        right_k: other@.k,
                    })
                },
            },
    {
        proof {
            use_type_invariant(self);
            use_type_invariant(other);
        }
        if self.k != other.k {
            return Err(KmerError::DimensionMismatch { left_k: self.k, right_k: other.k });
        }
        let ka = &self.keys;
        let ca = &self.counts;
        let kb = &other.keys;
        let cb = &other.counts;
        let ghost total = dot_spec(ka@, ca@, kb@, cb@);
        let ghost bound = (u64::MAX as int) * (u64::MAX as int);
        proof {
            lemma_dot_le_prod(ka@, ca@, kb@, cb@);
            lemma_seq_sum_nonneg(ca@);
            lemma_seq_sum_nonneg(cb@);
            assert(seq_sum(ca@) * seq_sum(cb@) <= bound) by (nonlinear_arith)
                requires
                    0 <= seq_sum(ca@) <= u64::MAX,
                    0 <= seq_sum(cb@) <= u64::MAX,
                    bound == (u64::MAX as int) * (u64::MAX as int),
            ;
            lemma_dot_nonneg(ka@, ca@, kb@, cb@);
        }
        let na = ka.len();
        let nb = kb.len();
        let mut i: usize = 0;
        let mut j: usize = 0;
        let mut acc: u128 = 0;
        proof {
            assert(ka@.skip(0) =~= ka@);
            assert(ca@.skip(0) =~= ca@);
            assert(kb@.skip(0) =~= kb@);
            assert(cb@.skip(0) =~= cb@);
        }
        while i < na && j < nb
            invariant
                na == ka@.len() == ca@.len(),
                nb == kb@.len() == cb@.len(),
                0 <= i <= na,
                0 <= j <= nb,
                acc as int + dot_spec(
                    ka@.skip(i as int),
                    ca@.skip(i as int),
                    kb@.skip(j as int),
                    cb@.skip(j as int),
                ) == total,
                0 <= acc as int <= total <= bound,
                bound == (u64::MAX as int) * (u64::MAX as int),
            decreases na - i + nb - j,
        {
            proof {
                assert(ka@.skip(i as int)[0] == ka@[i as int]);
                assert(kb@.skip(j as int)[0] == kb@[j as int]);
            }
            let x = ka[i];
            let y = kb[j];
            if x == y {
                proof {
                    assert(ka@.skip(i as int).drop_first() =~= ka@.skip(i as int + 1));
                    assert(ca@.skip(i as int).drop_first() =~= ca@.skip(i as int + 1));
                    assert(kb@.skip(j as int).drop_first() =~= kb@.skip(j as int + 1));
                    assert(cb@.skip(j as int).drop_first() =~= cb@.skip(j as int + 1));
                    assert(ca@.skip(i as int)[0] == ca@[i as int]);
                    assert(cb@.skip(j as int)[0] == cb@[j as int]);
                    lemma_dot_nonneg(
                        ka@.skip(i as int + 1),
                        ca@.skip(i as int + 1),
                        kb@.skip(j as int + 1),
                        cb@.skip(j as int + 1),
                    );
                }
                acc = acc + (ca[i] as u128) * (cb[j] as u128);
                i = i + 1;
                j = j + 1;
            } else if x < y {
                proof {
                    assert(ka@.skip(i as int).drop_first() =~= ka@.skip(i as int + 1));
                    assert(ca@.skip(i as int).drop_first() =~= ca@.skip(i as int + 1));
                    lemma_dot_nonneg(
                        ka@.skip(i as int + 1),
                        ca@.skip(i as int + 1),
                        kb@.skip(j as int),
                        cb@.skip(j as int),
                    );
                }
                i = i + 1;
            } else {
                proof {
                    assert(kb@.skip(j as int).drop_first() =~= kb@.skip(j as int + 1));
                    assert(cb@.skip(j as int).drop_first() =~= cb@.skip(j as int + 1));
                    lemma_dot_nonneg(
                        ka@.skip(i as int),
                        ca@.skip(i as int),
                        kb@.skip(j as int + 1),
                        cb@.skip(j as int + 1),
                    );
                }
                j = j + 1;
            }
        }
        proof {
            if i == na {
                assert(ka@.skip(i as int) =~= Seq::<u64>::empty());
            } else {
                assert(kb@.skip(j as int) =~= Seq::<u64>::empty());
            }
        }
        Ok(acc)
    }
}

/// Builds the fingerprint of `coll` for window length `k`.
///
/// Exactly one of three things happens: `k` is zero or exceeds the sequence
/// length, and the empty window range is reported; some character lies
/// outside the alphabet, and the first such character is reported; or the
/// fingerprint is returned, holding for every key exactly the number of
/// windows of `coll` that encode to it.  The window length is capped at 31
/// so that keys fit a `u64`.
pub fn build(coll: &[char], k: u32) -> (r: Result<KmerVec, KmerError>)
    requires
        k <= 31,
    ensures
        match r {
            Ok(v) => {
                &&& 1 <= k
                &&& k <= coll@.len()
                &&& valid_seq(coll@)
                &&& v@.k == k
                &&& v@.keys.len() == v@.counts.len()
                &&& 1 <= v@.keys.len()
                &&& strictly_sorted(v@.keys)
                &&& forall|i: int|
                    0 <= i < v@.keys.len() ==> (v@.keys[i] as nat) < pow4(k as nat)
                &&& forall|i: int| 0 <= i < v@.counts.len() ==> v@.counts[i] >= 1
                &&& forall|q: u64|
                    assoc_count(v@.keys, v@.counts, q) == window_count(coll@, k as int, q as nat)
                &&& seq_sum(v@.counts) == coll@.len() - k + 1
                &&& v@.norm_sq as int == seq_sum_sq(v@.counts)
                &&& v@.norm_sq >= 1
            },
            Err(e) => match e {
                KmerError::EmptyWindowRange { required, actual } => {
                    &&& (k == 0 || coll@.len() < k)
                    &&& required == k as u64
                    &&& actual as nat == coll@.len()
                },
                KmerError::InvalidSymbol { symbol } => {
                    &&& 1 <= k
                    &&& k <= coll@.len()
                    &&& !valid_seq(coll@)
                    &&& symbol == coll@[first_bad(coll@)]
                },
                KmerError::DimensionMismatch { .. } => false,
            },
        },
{
    let n = coll.len();
    if k == 0 || n < k as usize {
        return Err(KmerError::EmptyWindowRange { required: k as u64, actual: n as u64 });
    }
    let kk = k as usize;
    let mut i: usize = 0;
    while i < n
        invariant
            n == coll@.len(),
            1 <= k <= 31,
            k as usize <= n,
            0 <= i <= n,
            forall|j: int| 0 <= j < i ==> is_base(coll@[j]),
        decreases n - i,
    {
        match base2num(coll[i]) {
            Ok(_) => {},
            Err(e) => {
                proof {
                    lemma_first_bad(coll@);
                }
                return Err(e);
            },
        }
        i = i + 1;
    }
    let w = n - kk + 1;
    let mut keys: Vec<u64> = Vec::new();
    let mut counts: Vec<u64> = Vec::new();
    let mut i: usize = 0;
    proof {
        assert forall|q: u64| assoc_count(keys@, counts@, q) == win_count_upto(
            coll@,
            k as int,
            q as nat,
            0,
        ) by {
            assert(assoc_count(keys@, counts@, q) == 0);
        }
    }
    while i < w
        invariant
            n == coll@.len(),
            valid_seq(coll@),
            1 <= kk <= 31,
            kk == k as usize,
            kk <= n,
            w == n - kk + 1,
            0 <= i <= w,
            keys@.len() == counts@.len(),
            strictly_sorted(keys@),
            forall|t: int| 0 <= t < counts@.len() ==> counts@[t] >= 1,
            forall|t: int| 0 <= t < keys@.len() ==> (keys@[t] as nat) < pow4(k as nat),
            seq_sum(counts@) == i,
            forall|q: u64|
                assoc_count(keys@, counts@, q) == win_count_upto(
                    coll@,
                    k as int,
                    q as nat,
                    i as int,
                ),
        decreases w - i,
    {
        let key = crate::encoding::encode_at(coll, i, kk);
        let ghost keys_before = keys@;
        let ghost counts_before = counts@;
        bump(&mut keys, &mut counts, key);
        proof {
            assert(win_key(coll@, k as int, i as int) == key as nat);
            assert forall|q: u64| assoc_count(keys@, counts@, q) == win_count_upto(
                coll@,
                k as int,
                q as nat,
                i as int + 1,
            ) by {
                assert(win_count_upto(coll@, k as int, q as nat, i as int + 1) == win_count_upto(
                    coll@,
                    k as int,
                    q as nat,
                    i as int,
                ) + (if win_key(coll@, k as int, i as int) == q as nat {
                    1nat
                } else {
                    0nat
                }));
                if q != key {
                    assert(q as nat != key as nat);
                    assert(assoc_count(keys@, counts@, q) == assoc_count(
                        keys_before,
                        counts_before,
                        q,
                    ));
                }
            }
            assert forall|t: int| 0 <= t < keys@.len() implies (keys@[t] as nat) < pow4(
                k as nat,
            ) by {
                if keys_before.contains(keys@[t]) {
                    let j = choose|j: int|
                        0 <= j < keys_before.len() && keys_before[j] == keys@[t];
                    assert((keys_before[j] as nat) < pow4(k as nat));
                }
            }
        }
        i = i + 1;
    }
    proof {
        if counts@.len() == 0 {
            assert(seq_sum(counts@) == 0);
            assert(false);
        }
        lemma_sum_sq_le_square(counts@);
        assert(seq_sum(counts@) * seq_sum(counts@) <= (u64::MAX as int) * (u64::MAX as int))
            by (nonlinear_arith)
            requires
                0 <= seq_sum(counts@) <= u64::MAX,
        ;
        assert(counts@.take(0) =~= Seq::<u64>::empty());
    }
    let m = counts.len();
    let mut nsq: u128 = 0;
    let mut j: usize = 0;
    while j < m
        invariant
            m == counts@.len(),
            0 <= j <= m,
            nsq as int == seq_sum_sq(counts@.take(j as int)),
            seq_sum_sq(counts@) <= (u64::MAX as int) * (u64::MAX as int),
        decreases m - j,
    {
        let c = counts[j];
        proof {
            assert(counts@.take(j as int + 1) =~= counts@.take(j as int) + seq![c]);
            lemma_seq_sum_sq_concat(counts@.take(j as int), seq![c]);
            assert(seq![c][0] == c);
            assert(seq![c].drop_first() =~= Seq::<u64>::empty());
            assert(seq_sum_sq(seq![c]) == (c as int) * (c as int)) by {
                reveal_with_fuel(seq_sum_sq, 3);
            }
            assert(counts@ =~= counts@.take(j as int + 1) + counts@.skip(j as int + 1));
            lemma_seq_sum_sq_concat(counts@.take(j as int + 1), counts@.skip(j as int + 1));
            lemma_seq_sum_sq_nonneg(counts@.skip(j as int + 1));
            lemma_seq_sum_sq_nonneg(counts@.take(j as int));
        }
        nsq = nsq + (c as u128) * (c as u128);
        j = j + 1;
    }
    proof {
        assert(counts@.take(m as int) =~= counts@);
        lemma_seq_sum_sq_nonneg(counts@.drop_first());
        assert(counts@[0] * counts@[0] >= 1) by (nonlinear_arith)
            requires
                counts@[0] >= 1,
        ;
    }
    Ok(KmerVec { k, keys, counts, norm_sq: nsq })
}

} // verus!
