use vstd::prelude::*;

verus! {

use crate::bits::{
    bit, lemma_bit_and, lemma_bit_or, lemma_bit_shl, lemma_bit_shr, lemma_bit_consts,
    lemma_bit_ext, lemma_packs_eq, lemma_position, low_bits, low_mask, packs, word_bit,
};
use crate::batch::{batch_entry, batch_key, BatchTable};
use crate::rule::{
    decompress, expand, halt_at, leads, lemma_decompress_len, lemma_decompress_push, lemma_halt_add,
    lemma_halted, lemma_outputs_len, lemma_run_add, lemma_run_batch, lemma_run_len_lower,
    lemma_run_len_upper, production, run, step,
};
use crate::PostSystem;
use std::collections::VecDeque;
use std::ops::ControlFlow;
use vstd::math::min;
use vstd::std_specs::cmp::PartialEqSpec;

/// The number of steps that one batch takes.
pub const BATCH_STEPS: u8 = 11;

/// A sequence of bits packed into 64-bit words, with cheap appends at the back and
/// deletions at the front.
#[derive(Debug, Clone)]
pub struct BitString {
    /// The words, bits least significant first; there is always at least one.
    words: VecDeque<u64>,
    /// The position of the first bit within the first word.
    start: u8,
    /// The position one past the last bit within the last word.
    end: u8,
    /// The number of bits.
    len: usize,
}

impl View for BitString {
    type V = Seq<bool>;

    closed spec fn view(&self) -> Seq<bool> {
        Seq::new(self.len as nat, |i: int| word_bit(self.words@, self.start + i))
    }
}

impl BitString {
    /// The layout invariant: the bit count agrees with the words and offsets, the bits
    /// after the end are clear, and an empty string is a single clear word.
    pub closed spec fn wf(&self) -> bool {
        &&& self.words@.len() >= 1
        &&& self.start < 64
        &&& self.end < 64
        &&& self.len == (self.words@.len() - 1) * 64 + self.end - self.start
        &&& forall|j: u64|
            self.end <= j < 64 ==> !#[trigger] bit(self.words@[self.words@.len() - 1], j)
        &&& self.len == 0 ==> self.words@.len() == 1 && self.start == 0 && self.end == 0
    }

    /// Creates an empty bit string.
    pub fn new() -> (r: Self)
        ensures
            r.wf(),
            r@ == Seq::<bool>::empty(),
    {
        let mut words: VecDeque<u64> = VecDeque::new();
        words.push_back(0);
        let r = BitString { words, start: 0, end: 0, len: 0 };
        proof {
            assert forall|j: u64| 0 <= j < 64 implies !#[trigger] bit(r.words@[0], j) by {
                lemma_bit_consts(0, j);
            }
        }
        assert(r@ =~= Seq::<bool>::empty());
        r
    }

    /// Appends the `count` low bits of `bits`, least significant first.
    pub fn append(&mut self, bits: u64, count: u8)
        requires
            old(self).wf(),
            count <= 64,
            old(self)@.len() + count <= usize::MAX,
        ensures
            final(self).wf(),
            final(self)@ == old(self)@ + low_bits(bits, count as nat),
    {
        let ghost w0 = self.words@;
        let ghost n = w0.len() as int;
        let m = low_mask(count);
        let b = bits & m;
        let e = self.end;
        let last = match self.words.pop_back() {
            Some(w) => w,
            None => 0,
        };
        let w = last | (b << e);
        self.words.push_back(w);
        let ghost o: u64 = 0;
        if e + count >= 64 {
            self.end = e + count - 64;
            let next = if e == 0 { 0 } else { b >> (64 - e) };
            proof { o = next; }
            self.words.push_back(next);
        } else {
            self.end = e + count;
        }
        self.len = self.len + count as usize;
        proof {
            let w1 = self.words@;
            let base = (n - 1) * 64 + e;
            assert(w0[n - 1] == last);
            assert forall|j: u64| j < 64 implies #[trigger] bit(b, j) == (bit(bits, j) && j < count) by {
                lemma_bit_and(bits, m, j);
            }
            assert forall|j: u64| j < 64 implies #[trigger] bit(w, j) == (if j < e {
                bit(last, j)
            } else {
                bit(b, (j - e) as u64)
            }) by {
                lemma_bit_or(last, b << e, j);
                lemma_bit_shl(b, e as u64, j);
            }
            assert forall|j: u64| j < 64 && e > 0 && e + count >= 64 implies #[trigger] bit(o, j) == (j < e && bit(
                b,
                (j + 64 - e) as u64,
            )) by {
                lemma_bit_shr(b, (64 - e) as u64, j);
            }
            assert forall|j: u64| j < 64 && e == 0 implies !#[trigger] bit(o, j) by {
                lemma_bit_consts(0, j);
            }
            // every bit up to the new end
            assert forall|p: int| 0 <= p < base + count implies #[trigger] word_bit(w1, p) == (if p
                < base {
                word_bit(w0, p)
            } else {
                bit(bits, (p - base) as u64)
            }) by {
                let q = p / 64;
                assert(0 <= q && q * 64 <= p < q * 64 + 64) by (nonlinear_arith)
                    requires
                        q == p / 64,
                        0 <= p,
                ;
                lemma_position(p, q);
                if q < n - 1 {
                    assert(w1[q] == w0[q]);
                    assert(q * 64 + 64 <= (n - 1) * 64) by (nonlinear_arith) requires q < n - 1;
                } else if q == n - 1 {
                    assert(w1[q] == w);
                } else {
                    assert(q >= n);
                    assert(q * 64 >= n * 64) by (nonlinear_arith) requires q >= n;
                    assert(q == n) by (nonlinear_arith) requires q >= n, p < (n - 1) * 64 + 128, q * 64 <= p;
                    assert(w1[q] == o);
                }
            }
            // the bits after the new end are clear
            assert forall|j: u64| self.end <= j < 64 implies !#[trigger] bit(w1[w1.len() - 1], j) by {
                if e + count >= 64 {
                    assert(w1[w1.len() - 1] == o);
                } else {
                    assert(w1[w1.len() - 1] == w);
                }
            }
            assert(self@ =~= old(self)@ + low_bits(bits, count as nat)) by {
                assert forall|i: int| 0 <= i < self@.len() implies self@[i] == (old(self)@ + low_bits(bits, count as nat))[i] by {
                    let p = self.start + i;
                    assert(0 <= p < base + count);
                }
            }
        }
    }

    /// The `k` bits that start at bit `64 * j`, packed least significant first.
    fn chunk(&self, j: usize, k: u8) -> (r: u64)
        requires
            self.wf(),
            k <= 64,
            64 * j + k <= self@.len(),
        ensures
            packs(r, self@.subrange(64 * j, 64 * j + k)),
    {
        let ghost ws = self.words@;
        let s = self.start;
        proof {
            assert(j < ws.len()) by (nonlinear_arith)
                requires
                    64 * j + k <= (ws.len() - 1) * 64 + self.end - s,
                    self.end < 64,
            ;
        }
        let lower = self.words[j] >> s;
        let ghost upper: u64 = 0;
        let both = if s > 0 && s + k > 64 {
            proof {
                assert(j + 1 < ws.len()) by (nonlinear_arith)
                    requires
                        64 * j + k <= (ws.len() - 1) * 64 + self.end - s,
                        self.end < 64,
                        s + k > 64,
                ;
            }
            let u = self.words[j + 1] << (64 - s);
            proof { upper = u; }
            lower | u
        } else {
            lower
        };
        let m = low_mask(k);
        let r = both & m;
        proof {
            let t = self@.subrange(64 * j, 64 * j + k);
            assert forall|i: u64| i < 64 implies #[trigger] bit(r, i) == (i < t.len() && t[i as int]) by {
                lemma_bit_and(both, m, i);
                lemma_bit_shr(ws[j as int], s as u64, i);
                if s > 0 && s + k > 64 {
                    lemma_bit_or(lower, upper, i);
                    lemma_bit_shl(ws[j + 1], (64 - s) as u64, i);
                }
                if i < k {
                    let p = self.start + 64 * j + i;
                    assert(t[i as int] == self@[64 * j + i]);
                    if s + i < 64 {
                        lemma_position(p, j as int);
                    } else {
                        lemma_position(p, j + 1);
                    }
                }
            }
        }
        r
    }

    /// Deletes the first `count` bits, or all of them where fewer are left, and
    /// returns them packed least significant first.
    pub fn delete(&mut self, count: u8) -> (r: u64)
        requires
            old(self).wf(),
            count <= 64,
        ensures
            final(self).wf(),
            final(self)@ == old(self)@.skip(min(count as int, old(self)@.len() as int)),
            packs(r, old(self)@.take(min(count as int, old(self)@.len() as int))),
    {
        let k: u8 = if (count as usize) < self.len { count } else { self.len as u8 };
        let r = self.chunk(0, k);
        assert(old(self)@.subrange(0, k as int) == old(self)@.take(k as int));
        if k as usize == self.len {
            self.words.clear();
            self.words.push_back(0);
            self.start = 0;
            self.end = 0;
            self.len = 0;
            proof {
                assert forall|j: u64| 0 <= j < 64 implies !#[trigger] bit(self.words@[0], j) by {
                    lemma_bit_consts(0, j);
                }
                assert(self@ =~= old(self)@.skip(k as int));
            }
        } else {
            let ghost ws = self.words@;
            let ghost n = ws.len() as int;
            let ns = self.start + k;
            if ns >= 64 {
                proof {
                    assert(n >= 2) by (nonlinear_arith)
                        requires
                            k < (n - 1) * 64 + self.end - self.start,
                            self.end < 64,
                            self.start + k >= 64,
                    ;
                }
                self.words.pop_front();
                self.start = ns - 64;
            } else {
                self.start = ns;
            }
            self.len = self.len - k as usize;
            proof {
                let w1 = self.words@;
                assert forall|i: int| 0 <= i < self@.len() implies self@[i] == old(self)@.skip(k as int)[i] by {
                    if ns >= 64 {
                        let p = self.start + i;
                        let q = p / 64;
                        assert(0 <= q && q * 64 <= p < q * 64 + 64) by (nonlinear_arith)
                            requires
                                q == p / 64,
                                0 <= p,
                        ;
                        lemma_position(p, q);
                        lemma_position(p + 64, q + 1);
                        assert(w1[q] == ws[q + 1]);
                    }
                }
                assert(self@ =~= old(self)@.skip(k as int));
                assert(w1[w1.len() - 1] == ws[n - 1]);
            }
        }
        r
    }
}

} // verus!

verus! {

impl PostSystem for BitString {
    open spec fn symbols(&self) -> Seq<bool> {
        self@
    }

    open spec fn inv(&self) -> bool {
        self.wf()
    }

    const PREFERRED_TIMESTEP: u8 = BATCH_STEPS;

    fn new_decompressed(compressed: &[bool]) -> (r: Self) {
        let mut this = BitString::new();
        proof {
            assert(bit(1, 0) && !bit(1, 1) && !bit(1, 2)) by (bit_vector);
            assert(!bit(0, 0) && !bit(0, 1) && !bit(0, 2)) by (bit_vector);
            assert(low_bits(1, 3) =~= expand(true));
            assert(low_bits(0, 3) =~= expand(false));
        }
        let mut i: usize = 0;
        while i < compressed.len()
            invariant
                i <= compressed@.len(),
                3 * compressed@.len() <= usize::MAX,
                this.wf(),
                this@ == decompress(compressed@.take(i as int)),
                low_bits(1, 3) == expand(true),
                low_bits(0, 3) == expand(false),
            decreases compressed@.len() - i,
        {
            let b = compressed[i];
            proof {
                lemma_decompress_push(compressed@, i as int);
                lemma_decompress_len(compressed@.take(i as int));
            }
            this.append(if b { 1 } else { 0 }, 3);
            i += 1;
        }
        assert(compressed@.take(i as int) =~= compressed@);
        this
    }

    fn length(&self) -> (r: usize) {
        self.len
    }

    fn as_list(&self) -> (r: VecDeque<bool>) {
        let mut list: VecDeque<bool> = VecDeque::new();
        let mut i: usize = 0;
        while i < self.len
            invariant
                self.wf(),
                i <= self.len,
                list@ == self@.take(i as int),
            decreases self.len - i,
        {
            let c = self.start as usize + i % 64;
            let q = i / 64 + c / 64;
            let ghost p = self.start + i;
            proof {
                assert(i / 64 * 64 + i % 64 == i && i % 64 < 64) by (nonlinear_arith)
                    requires
                        i >= 0,
                ;
                assert(q * 64 <= p < q * 64 + 64 && c % 64 == p - q * 64) by (nonlinear_arith)
                    requires
                        i / 64 * 64 + i % 64 == i,
                        c == self.start + i % 64,
                        c < 128,
                        q == i / 64 + c / 64,
                        p == self.start + i,
                ;
                lemma_position(p, q as int);
                assert(q < self.words@.len()) by (nonlinear_arith)
                    requires
                        q * 64 <= p,
                        p < (self.words@.len() - 1) * 64 + self.end,
                        self.end < 64,
                ;
            }
            let w = self.words[q];
            list.push_back((w >> (c % 64) as u64) & 1 == 1);
            assert(list@ =~= self@.take(i + 1));
            i += 1;
        }
        assert(self@.take(i as int) =~= self@);
        list
    }

    fn evolve(&mut self) -> (r: ControlFlow<()>) {
        if self.len < 3 {
            return ControlFlow::Break(());
        }
        let ghost s = self@;
        let deleted = self.delete(3);
        assert(bit(deleted, 0) == s[0]);
        if deleted & 1 == 0 {
            proof {
                assert(!bit(0, 0) && !bit(0, 1)) by (bit_vector);
                assert(low_bits(0, 2) =~= production(false));
                assert(!bit(deleted, 0)) by (bit_vector)
                    requires
                        deleted & 1 == 0,
                ;
            }
            self.append(0b00, 2);
        } else {
            proof {
                assert(bit(0b1011, 0) && bit(0b1011, 1) && !bit(0b1011, 2) && bit(0b1011, 3))
                    by (bit_vector);
                assert(low_bits(0b1011, 4) =~= production(true));
                assert(bit(deleted, 0)) by (bit_vector)
                    requires
                        deleted & 1 != 0,
                ;
            }
            self.append(0b1011, 4);
        }
        assert(self@ =~= step(s));
        ControlFlow::Continue(())
    }

    fn evolve_multi(&mut self, n: usize) -> (r: ControlFlow<usize>) {
        let ghost s0 = self@;
        let t = BATCH_STEPS as usize;
        // the table pays for itself once the batches outnumber its entries
        let table = if n / t >= (1usize << BATCH_STEPS) {
            Some(BatchTable::new(BATCH_STEPS))
        } else {
            None
        };
        let mut i: usize = 0;
        while i < n
            invariant
                i <= n,
                t == BATCH_STEPS,
                s0 == old(self)@,
                self.wf(),
                s0.len() + n <= usize::MAX,
                self@ == run(s0, i as nat),
                halt_at(s0, i as nat) is None,
                match table {
                    Some(tb) => tb.wf() && tb.steps() == BATCH_STEPS,
                    None => true,
                },
            decreases n - i,
        {
            proof {
                lemma_run_len_upper(s0, i as nat);
            }
            if n - i >= t && self.len >= 3 * t {
                proof {
                    lemma_run_len_lower(self@, t as nat);
                    lemma_halt_add(s0, i as nat, t as nat);
                    lemma_run_add(s0, i as nat, t as nat);
                }
                self.evolve_batch(table.as_ref());
                i += t;
            } else {
                let ghost cur = self@;
                proof {
                    lemma_halt_add(s0, i as nat, 1);
                    lemma_run_add(s0, i as nat, 1);
                    assert(run(cur, 1) == run(step(cur), 0));
                    assert(halt_at(step(cur), 0) is None);
                }
                if let ControlFlow::Break(()) = self.evolve() {
                    proof {
                        lemma_halted(cur, (n - i) as nat);
                        lemma_run_add(s0, i as nat, (n - i) as nat);
                        lemma_halt_add(s0, i as nat, (n - i) as nat);
                    }
                    return ControlFlow::Break(i);
                }
                i += 1;
            }
        }
        ControlFlow::Continue(())
    }

    fn evolve_preferred(&mut self) {
        self.evolve_batch(None);
    }
}

impl BitString {
    /// Takes `BATCH_STEPS` steps with one deletion and one append: the leads of the
    /// deleted blocks form a key, and what the steps append is looked up in `table`,
    /// or computed where there is none.
    fn evolve_batch(&mut self, table: Option<&BatchTable>)
        requires
            old(self).wf(),
            old(self)@.len() >= 3 * BATCH_STEPS,
            old(self)@.len() + BATCH_STEPS <= usize::MAX,
            match table {
                Some(tb) => tb.wf() && tb.steps() == BATCH_STEPS,
                None => true,
            },
        ensures
            final(self).wf(),
            final(self)@ == run(old(self)@, BATCH_STEPS as nat),
    {
        let ghost s = self@;
        let d = self.delete(3 * BATCH_STEPS);
        let key = batch_key(d, BATCH_STEPS);
        let (bits, count) = match table {
            Some(tb) => tb.lookup(key),
            None => batch_entry(key, BATCH_STEPS),
        };
        proof {
            let t = BATCH_STEPS as nat;
            assert(low_bits(key, t) =~= leads(s, t)) by {
                assert forall|i: int| 0 <= i < t implies low_bits(key, t)[i] == leads(s, t)[i] by {
                    assert(bit(key, i as u64) == bit(d, (3 * i) as u64));
                    assert(bit(d, (3 * (i as u64)) as u64) == s.take(3 * t as int)[3 * i]);
                }
            }
            lemma_run_batch(s, t);
            lemma_outputs_len(leads(s, t));
        }
        self.append(bits, count);
    }
}

} // verus!

verus! {

/// A word with nothing at or above bit `e` has every such bit clear.
proof fn lemma_high_clear(w: u64, e: u64, j: u64)
    by (bit_vector)
    requires
        e <= j < 64,
        w >> e == 0,
    ensures
        !bit(w, j),
{
}

impl BitString {
    /// Checks the layout invariant.
    fn is_wf(&self) -> (r: bool)
        ensures
            r == self.wf(),
    {
        let n = self.words.len();
        if n == 0 || self.start >= 64 || self.end >= 64 {
            return false;
        }
        if self.len as u128 + self.start as u128 != (n - 1) as u128 * 64 + self.end as u128 {
            return false;
        }
        if self.len == 0 && (n != 1 || self.start != 0 || self.end != 0) {
            return false;
        }
        let last = self.words[n - 1];
        let clear = last >> self.end == 0;
        proof {
            let e = self.end as u64;
            if clear {
                assert forall|j: u64| e <= j < 64 implies !#[trigger] bit(last, j) by {
                    lemma_high_clear(last, e, j);
                }
            } else {
                if forall|j: u64| e <= j < 64 ==> !#[trigger] bit(last, j) {
                    assert forall|i: u64| i < 64 implies #[trigger] bit(last >> e, i) == bit(0, i) by {
                        lemma_bit_shr(last, e, i);
                        lemma_bit_consts(0, i);
                        if i + e < 64 {
                            assert(!bit(last, (i + e) as u64));
                        }
                    }
                    lemma_bit_ext(last >> e, 0);
                }
            }
        }
        clear
    }
}

impl PartialEq for BitString {
    /// Compares the bits, whatever the offsets at which the two strings hold them.
    fn eq(&self, other: &Self) -> (r: bool)
        ensures
            r == (self.wf() && other.wf() && self@ == other@),
    {
        if !self.is_wf() || !other.is_wf() {
            return false;
        }
        if self.len != other.len {
            assert(self@.len() != other@.len());
            return false;
        }
        let n = self.len;
        let mut j: usize = 0;
        let mut q: usize = 0;
        while q < n
            invariant
                self.wf(),
                other.wf(),
                n == self@.len(),
                n == other@.len(),
                q < n ==> q == 64 * j,
                q <= n,
                self@.take(q as int) == other@.take(q as int),
            decreases n - q,
        {
            let k: u8 = if n - q >= 64 { 64 } else { (n - q) as u8 };
            let a = self.chunk(j, k);
            let b = other.chunk(j, k);
            let ghost sa = self@.subrange(q as int, q + k);
            let ghost sb = other@.subrange(q as int, q + k);
            proof {
                lemma_packs_eq(a, sa, b, sb);
            }
            if a != b {
                proof {
                    assert(sa != sb);
                    if self@ == other@ {
                        assert(sa == sb);
                    }
                }
                return false;
            }
            assert(self@.take(q + k) =~= self@.take(q as int) + sa);
            assert(other@.take(q + k) =~= other@.take(q as int) + sb);
            q = q + k as usize;
            j = j + 1;
        }
        assert(self@.take(q as int) =~= self@);
        assert(other@.take(q as int) =~= other@);
        true
    }
}

impl vstd::std_specs::cmp::PartialEqSpecImpl for BitString {
    open spec fn obeys_eq_spec() -> bool {
        true
    }

    open spec fn eq_spec(&self, other: &BitString) -> bool {
        self.wf() && other.wf() && self@ == other@
    }
}

} // verus!

verus! {

/// Two well-formed bit strings compare equal exactly when their bit lists are equal,
/// whatever their offsets.
pub proof fn lemma_eq_is_list_eq(a: BitString, b: BitString)
    requires
        a.wf(),
        b.wf(),
    ensures
        a.eq_spec(&b) == (a.symbols() == b.symbols()),
{
}

/// Appending `count` bits to an empty bit string and then deleting `count` bits
/// returns exactly the appended bits and leaves the string empty again.
pub proof fn lemma_append_delete_round_trip(s: Seq<bool>, bits: u64, count: u8)
    requires
        s.len() == 0,
        count <= 64,
    ensures
        ({
            let t = s + low_bits(bits, count as nat);
            let k = min(count as int, t.len() as int);
            &&& t.skip(k) == s
            &&& t.take(k) == low_bits(bits, count as nat)
        }),
{
    let t = s + low_bits(bits, count as nat);
    assert(t.skip(count as int) =~= s);
    assert(t.take(count as int) =~= low_bits(bits, count as nat));
}

} // verus!
