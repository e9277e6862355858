use vstd::prelude::*;

verus! {

use vstd::arithmetic::div_mod::lemma_fundamental_div_mod_converse;

/// Bit `i` of `w`, counting from the least significant bit.
pub open spec fn bit(w: u64, i: u64) -> bool {
    (w >> i) & 1 == 1
}

/// The `n` lowest bits of `w`, least significant first.
pub open spec fn low_bits(w: u64, n: nat) -> Seq<bool> {
    Seq::new(n, |i: int| bit(w, i as u64))
}

/// `r` holds the bits of `s`, least significant first, and zeros above them.
pub open spec fn packs(r: u64, s: Seq<bool>) -> bool {
    &&& s.len() <= 64
    &&& forall|i: u64| i < 64 ==> #[trigger] bit(r, i) == (i < s.len() && s[i as int])
}

/// Bit `p` of a run of words, word `p / 64` holding bits `64 * (p / 64)` onwards.
pub open spec fn word_bit(words: Seq<u64>, p: int) -> bool {
    bit(words[p / 64], (p % 64) as u64)
}

/// Where bit `p` of a run of words lies, given the word `q` it falls in.
pub proof fn lemma_position(p: int, q: int)
    requires
        q * 64 <= p < q * 64 + 64,
    ensures
        p / 64 == q,
        p % 64 == p - q * 64,
{
    lemma_fundamental_div_mod_converse(p, 64, q, p - q * 64);
}

/// A bit of `x | y` is set when it is set in either.
pub proof fn lemma_bit_or(x: u64, y: u64, j: u64)
    by (bit_vector)
    requires
        j < 64,
    ensures
        bit(x | y, j) == (bit(x, j) || bit(y, j)),
{
}

/// A bit of `x & y` is set when it is set in both.
pub proof fn lemma_bit_and(x: u64, y: u64, j: u64)
    by (bit_vector)
    requires
        j < 64,
    ensures
        bit(x & y, j) == (bit(x, j) && bit(y, j)),
{
}

/// Shifting left by `e` moves bit `j - e` to bit `j` and clears the `e` lowest.
pub proof fn lemma_bit_shl(x: u64, e: u64, j: u64)
    by (bit_vector)
    requires
        e < 64,
        j < 64,
    ensures
        bit(x << e, j) == (j >= e && bit(x, (j - e) as u64)),
{
}

/// Shifting right by `e` moves bit `j + e` to bit `j` and clears the `e` highest.
pub proof fn lemma_bit_shr(x: u64, e: u64, j: u64)
    by (bit_vector)
    requires
        e < 64,
        j < 64,
    ensures
        bit(x >> e, j) == (j + e < 64 && bit(x, (j + e) as u64)),
{
}

/// The bits of a low mask, of all ones and of zero.
pub proof fn lemma_bit_consts(c: u64, j: u64)
    by (bit_vector)
    requires
        c < 64,
        j < 64,
    ensures
        bit(!(u64::MAX << c), j) == (j < c),
        bit(u64::MAX, j),
        !bit(0u64, j),
{
}

/// Any two words agree below bit 0, where there is nothing to compare.
proof fn lemma_bit_ext_base(a: u64, b: u64)
    by (bit_vector)
    ensures
        a & !(u64::MAX << 0) == b & !(u64::MAX << 0),
{
}

/// Agreeing below bit `k` and at bit `k` is agreeing below bit `k + 1`.
proof fn lemma_bit_ext_step(a: u64, b: u64, k: u64)
    by (bit_vector)
    requires
        k < 63,
        a & !(u64::MAX << k) == b & !(u64::MAX << k),
        bit(a, k) == bit(b, k),
    ensures
        a & !(u64::MAX << (k + 1) as u64) == b & !(u64::MAX << (k + 1) as u64),
{
}

/// Agreeing below bit 63 and at bit 63 is being equal.
proof fn lemma_bit_ext_last(a: u64, b: u64)
    by (bit_vector)
    requires
        a & !(u64::MAX << 63) == b & !(u64::MAX << 63),
        bit(a, 63) == bit(b, 63),
    ensures
        a == b,
{
}

/// Words with the same bits agree below bit `k`.
proof fn lemma_bit_ext_upto(a: u64, b: u64, k: u64)
    requires
        k <= 63,
        forall|i: u64| i < 64 ==> #[trigger] bit(a, i) == bit(b, i),
    ensures
        a & !(u64::MAX << k) == b & !(u64::MAX << k),
    decreases k,
{
    if k == 0 {
        lemma_bit_ext_base(a, b);
    } else {
        lemma_bit_ext_upto(a, b, (k - 1) as u64);
        assert(bit(a, (k - 1) as u64) == bit(b, (k - 1) as u64));
        lemma_bit_ext_step(a, b, (k - 1) as u64);
        assert(((k - 1) as u64 + 1) as u64 == k);
    }
}

/// Two words with the same bits are the same word.
pub proof fn lemma_bit_ext(a: u64, b: u64)
    requires
        forall|i: u64| i < 64 ==> #[trigger] bit(a, i) == bit(b, i),
    ensures
        a == b,
{
    lemma_bit_ext_upto(a, b, 63);
    assert(bit(a, 63) == bit(b, 63));
    lemma_bit_ext_last(a, b);
}

/// Words that pack sequences of one length are equal exactly when the sequences are.
pub proof fn lemma_packs_eq(r1: u64, s1: Seq<bool>, r2: u64, s2: Seq<bool>)
    requires
        packs(r1, s1),
        packs(r2, s2),
        s1.len() == s2.len(),
    ensures
        (r1 == r2) == (s1 == s2),
{
    if s1 == s2 {
        lemma_bit_ext(r1, r2);
    } else {
        assert(!(s1 =~= s2));
        let i = choose|i: int| 0 <= i < s1.len() && s1[i] != s2[i];
        let j = i as u64;
        assert(j as int == i);
        assert(bit(r1, j) != bit(r2, j));
    }
}

/// A word whose `c` lowest bits are set and the others clear.
pub fn low_mask(c: u8) -> (r: u64)
    requires
        c <= 64,
    ensures
        forall|j: u64| j < 64 ==> #[trigger] bit(r, j) == (j < c),
{
    proof {
        assert forall|j: u64| j < 64 implies #[trigger] bit(u64::MAX, j) by {
            lemma_bit_consts(0, j);
        }
    }
    if c == 64 {
        u64::MAX
    } else {
        let r = !(u64::MAX << c);
        proof {
            assert forall|j: u64| j < 64 implies #[trigger] bit(r, j) == (j < c) by {
                lemma_bit_consts(c as u64, j);
            }
        }
        r
    }
}

} // verus!
