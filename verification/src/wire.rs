//! Bytes on the wire: big-endian fields and the internet checksum.

use vstd::prelude::*;

verus! {

/// A 16-bit big-endian field.
pub open spec fn be16(high: u8, low: u8) -> nat {
    (high as nat) * 256 + low as nat
}

/// The sum of a byte string's big-endian 16-bit words, an odd last byte padded
/// with a zero byte.
pub open spec fn words_sum(s: Seq<u8>) -> nat
    decreases s.len(),
{
    if s.len() == 0 {
        0
    } else if s.len() == 1 {
        be16(s[0], 0)
    } else {
        be16(s[0], s[1]) + words_sum(s.skip(2))
    }
}

/// A sum brought into 16 bits by adding the carry back in (RFC 1071): zero
/// only for zero, and otherwise the residue in `1..=0xffff`.
pub open spec fn folded(n: nat) -> nat {
    if n == 0 {
        0
    } else {
        ((n - 1) % 65535 + 1) as nat
    }
}

/// The internet checksum of a byte string (RFC 1071).
pub open spec fn internet_checksum(s: Seq<u8>) -> u16 {
    (65535 - folded(words_sum(s))) as u16
}

/// Whether a byte string that carries its own checksum adds up: its words sum
/// to all ones.
pub open spec fn adds_up(s: Seq<u8>) -> bool {
    folded(words_sum(s)) == 65535
}

/// Appending to a byte string of even length adds the sums.
pub proof fn lemma_words_sum_append(a: Seq<u8>, b: Seq<u8>)
    requires
        a.len() % 2 == 0,
    ensures
        words_sum(a + b) == words_sum(a) + words_sum(b),
    decreases a.len(),
{
    if a.len() == 0 {
        assert(a + b =~= b);
    } else {
        assert((a + b).skip(2) =~= a.skip(2) + b);
        lemma_words_sum_append(a.skip(2), b);
    }
}

/// Changing a word at an even place changes the sum by the difference.
pub proof fn lemma_words_sum_update(s: Seq<u8>, at: int, high: u8, low: u8)
    requires
        0 <= at,
        at % 2 == 0,
        at + 2 <= s.len(),
    ensures
        words_sum(s.update(at, high).update(at + 1, low)) == words_sum(s) - be16(s[at], s[at + 1])
            + be16(high, low),
        words_sum(s) >= be16(s[at], s[at + 1]),
{
    let t = s.update(at, high).update(at + 1, low);
    let word = seq![s[at], s[at + 1]];
    let new = seq![high, low];
    assert(s =~= s.take(at) + (word + s.skip(at + 2)));
    assert(t =~= s.take(at) + (new + s.skip(at + 2)));
    lemma_words_sum_append(s.take(at), word + s.skip(at + 2));
    lemma_words_sum_append(s.take(at), new + s.skip(at + 2));
    lemma_words_sum_append(word, s.skip(at + 2));
    lemma_words_sum_append(new, s.skip(at + 2));
    assert(word.skip(2) =~= Seq::<u8>::empty());
    assert(new.skip(2) =~= Seq::<u8>::empty());
    assert(words_sum(Seq::<u8>::empty()) == 0);
}

/// Folding may be done as the sum grows.
pub proof fn lemma_fold_step(n: nat, w: nat)
    requires
        w <= 65535,
    ensures
        folded(n) <= 65535,
        folded(n + w) == (if folded(n) + w > 65535 {
            folded(n) + w - 65535
        } else {
            (folded(n) + w) as int
        }),
{
    if n == 0 {
        if w > 0 {
            assert((w - 1) % 65535 == w - 1) by (nonlinear_arith)
                requires
                    1 <= w <= 65535,
            ;
        }
    } else {
        let r = (n - 1) % 65535;
        let q = (n - 1) / 65535;
        assert(n - 1 == 65535 * q + r);
        if r + 1 + w > 65535 {
            assert((n + w - 1) % 65535 == r + w - 65535) by (nonlinear_arith)
                requires
                    n - 1 == 65535 * q + r,
                    0 <= r < 65535,
                    0 <= w <= 65535,
                    r + 1 + w > 65535,
            ;
        } else {
            assert((n + w - 1) % 65535 == r + w) by (nonlinear_arith)
                requires
                    n - 1 == 65535 * q + r,
                    0 <= r,
                    0 <= w,
                    r + 1 + w <= 65535,
            ;
        }
    }
}

/// Two positive sums that differ by a multiple of all ones fold to the same.
pub proof fn lemma_fold_congruent(a: nat, b: nat, k: int)
    requires
        a > 0,
        b > 0,
        a == b + 65535 * k,
    ensures
        folded(a) == folded(b),
{
    assert((a - 1) % 65535 == (b - 1) % 65535) by (nonlinear_arith)
        requires
            a - 1 == (b - 1) + 65535 * k,
            a > 0,
            b > 0,
    ;
}

/// A byte string of some content, with its checksum added in, adds up; so does
/// one whose checksum of zero is sent as all ones.
pub proof fn lemma_checksum_completes(sum: nat)
    requires
        sum > 0,
    ensures
        folded((sum + (65535 - folded(sum))) as nat) == 65535,
        folded(sum) == 65535 ==> folded(sum + 65535) == 65535,
        folded(sum) <= 65535,
{
    lemma_fold_step(sum, 0);
    let c = (65535 - folded(sum)) as nat;
    lemma_fold_step(sum, c);
    lemma_fold_step(sum, 65535);
    assert(folded(sum) > 0);
}

/// Each byte counts once: one more byte adds its value at an odd place, and 256
/// times its value at an even one.
pub proof fn every_byte_counts_at_its_place(s: Seq<u8>, b: u8)
    ensures
        words_sum(Seq::<u8>::empty()) == 0,
        s.len() % 2 == 0 ==> words_sum(s.push(b)) == words_sum(s) + 256 * b,
        s.len() % 2 == 1 ==> words_sum(s.push(b)) == words_sum(s) + b,
{
    if s.len() % 2 == 0 {
        lemma_words_sum_append(s, seq![b]);
        assert(s.push(b) =~= s + seq![b]);
    } else {
        let front = s.drop_last();
        let one = seq![s.last()];
        let pair = seq![s.last(), b];
        assert(s =~= front + one);
        assert(s.push(b) =~= front + pair);
        lemma_words_sum_append(front, one);
        lemma_words_sum_append(front, pair);
        assert(pair.skip(2) =~= Seq::<u8>::empty());
        assert(words_sum(pair.skip(2)) == 0);
        assert(words_sum(one) == 256 * s.last());
        assert(words_sum(pair) == 256 * s.last() + b);
    }
}

/// What a checksum is for: put where a zero word stood, at an even place of bytes
/// that are not all zero, it makes the sum of all words a multiple of all ones.
pub proof fn a_checksum_makes_the_words_add_up(s: Seq<u8>, at: int, sum: u16)
    requires
        0 <= at,
        at % 2 == 0,
        at + 2 <= s.len(),
        s[at] == 0,
        s[at + 1] == 0,
        words_sum(s) > 0,
        sum == internet_checksum(s),
    ensures
        words_sum(s.update(at, (sum / 256) as u8).update(at + 1, (sum % 256) as u8)) % 65535 == 0,
        words_sum(s.update(at, (sum / 256) as u8).update(at + 1, (sum % 256) as u8)) == words_sum(s) + sum,
        sum < 65535,
{
    lemma_words_sum_update(s, at, (sum / 256) as u8, (sum % 256) as u8);
    lemma_checksum_completes(words_sum(s));
    let t = (words_sum(s) + sum) as nat;
    assert(folded(t) == 65535);
    lemma_adds_up_is_divisible(t);
    lemma_fold_step(words_sum(s), 0);
}

/// A positive sum folds to all ones exactly if all ones divides it.
pub proof fn lemma_adds_up_is_divisible(n: nat)
    ensures
        folded(n) == 65535 <==> n > 0 && n % 65535 == 0,
{
    if n > 0 {
        let r = (n - 1) % 65535;
        let q = (n - 1) / 65535;
        assert(n - 1 == 65535 * q + r);
        if r == 65534 {
            assert(n % 65535 == 0) by (nonlinear_arith)
                requires
                    n == 65535 * q + 65535,
            ;
        } else {
            assert(n % 65535 == r + 1) by (nonlinear_arith)
                requires
                    n == 65535 * q + (r + 1),
                    0 <= r < 65534,
            ;
        }
    }
}

/// A checksum below all ones is the only one that makes the words add up.
pub proof fn a_checksum_is_determined(sum: nat, field: nat)
    requires
        sum > 0,
        field < 65535,
        (sum + field) % 65535 == 0,
    ensures
        field == 65535 - folded(sum),
{
    lemma_fold_step(sum, field);
    lemma_adds_up_is_divisible(sum + field);
    assert(folded(sum) > 0);
}

/// Adds the words of `part` to the folded sum `acc` of what came before it.
///
/// What came before has even length, so that the words stay aligned.
pub(crate) fn sum_words(acc: u16, part: &[u8], Ghost(before): Ghost<nat>) -> (sum: u16)
    requires
        acc == folded(before),
    ensures
        sum == folded(before + words_sum(part@)),
{
    let mut sum: u16 = acc;
    let mut i: usize = 0;
    let n: usize = part.len();
    assert(part@.take(0) =~= Seq::<u8>::empty());
    while n - i >= 2
        invariant
            i <= n,
            i % 2 == 0,
            n == part@.len(),
            sum == folded(before + words_sum(part@.take(i as int))),
        decreases n - i,
    {
        let word: u32 = part[i] as u32 * 256 + part[i + 1] as u32;
        let total: u32 = sum as u32 + word;
        proof {
            let pair = seq![part@[i as int], part@[i + 1]];
            assert(part@.take(i + 2) =~= part@.take(i as int) + pair);
            lemma_words_sum_append(part@.take(i as int), pair);
            assert(pair.skip(2) =~= Seq::<u8>::empty());
            assert(words_sum(pair.skip(2)) == 0);
            assert(words_sum(pair) == word);
            lemma_fold_step(before + words_sum(part@.take(i as int)), word as nat);
        }
        if total > 65535 {
            sum = (total - 65535) as u16;
        } else {
            sum = total as u16;
        }
        i = i + 2;
    }
    if i < n {
        let word: u32 = part[i] as u32 * 256;
        let total: u32 = sum as u32 + word;
        proof {
            let last = seq![part@[i as int]];
            assert(part@ =~= part@.take(i as int) + last);
            lemma_words_sum_append(part@.take(i as int), last);
            assert(words_sum(last) == word);
            lemma_fold_step(before + words_sum(part@.take(i as int)), word as nat);
        }
        if total > 65535 {
            sum = (total - 65535) as u16;
        } else {
            sum = total as u16;
        }
    } else {
        assert(part@.take(i as int) =~= part@);
    }
    sum
}

/// The internet checksum of `bytes`.
pub fn checksum(bytes: &[u8]) -> (sum: u16)
    ensures
        sum == internet_checksum(bytes@),
{
    let sum: u16 = sum_words(0, bytes, Ghost(0));
    proof {
        lemma_fold_step(words_sum(bytes@), 0);
    }
    65535 - sum
}

} // verus!
