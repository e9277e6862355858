use vstd::prelude::*;

verus! {

use crate::bits::{bit, lemma_bit_and, lemma_bit_consts, lemma_bit_or, lemma_bit_shl, lemma_bit_shr, low_bits};
use crate::rule::{lemma_outputs_len, outputs, production};

/// What a run of `t` steps led by the low `t` bits of `key` appends: `count` bits,
/// packed least significant first in `bits`.
pub open spec fn entry_for(key: u64, t: nat, bits: u64, count: u8) -> bool {
    &&& count == outputs(low_bits(key, t)).len()
    &&& low_bits(bits, count as nat) == outputs(low_bits(key, t))
}

/// Adding bit `i` keeps a key below `2^(i + 1)`.
proof fn lemma_key_step(key: u64, d: u64, i: u64)
    by (bit_vector)
    requires
        i < 21,
        key < (1u64 << i),
    ensures
        key | (((d >> (3 * i) as u64) & 1) << i) < (1u64 << (i + 1) as u64),
{
}

/// Only bit 0 of 1 is set.
proof fn lemma_bit_one(j: u64)
    by (bit_vector)
    requires
        j < 64,
    ensures
        bit(1, j) == (j == 0),
{
}

/// Gathers bit `3 * i` of `d` into bit `i` of the key, for each `i < t`.
pub fn batch_key(d: u64, t: u8) -> (key: u64)
    requires
        t <= 21,
    ensures
        key < (1u64 << t),
        forall|j: u64| j < 64 ==> #[trigger] bit(key, j) == (j < t && bit(d, (3 * j) as u64)),
{
    let mut key: u64 = 0;
    let mut i: u8 = 0;
    proof {
        assert((0u64) < (1u64 << 0u64)) by (bit_vector);
        assert forall|j: u64| j < 64 implies !#[trigger] bit(0u64, j) by {
            lemma_bit_consts(0, j);
        }
    }
    while i < t
        invariant
            i <= t <= 21,
            key < (1u64 << i),
            forall|j: u64| j < 64 ==> #[trigger] bit(key, j) == (j < i && bit(d, (3 * j) as u64)),
        decreases t - i,
    {
        let lead = (d >> (3 * i)) & 1;
        let next = key | (lead << i);
        proof {
            lemma_key_step(key, d, i as u64);
            assert forall|j: u64| j < 64 implies #[trigger] bit(next, j) == (j < i + 1 && bit(
                d,
                (3 * j) as u64,
            )) by {
                lemma_bit_or(key, lead << i, j);
                lemma_bit_shl(lead, i as u64, j);
                if j >= i {
                    let m = (j - i) as u64;
                    lemma_bit_and(d >> (3 * i) as u64, 1, m);
                    lemma_bit_one(m);
                    lemma_bit_shr(d, (3 * i) as u64, 0);
                    assert((0 + 3 * i) as u64 == (3 * i) as u64);
                }
            }
        }
        key = next;
        i += 1;
    }
    key
}

/// The bits of the block `1101` that a step led by 1 appends, least significant first.
proof fn lemma_block_bits()
    by (bit_vector)
    ensures
        bit(0b1011, 0) && bit(0b1011, 1) && !bit(0b1011, 2) && bit(0b1011, 3),
{
}

/// The block has no bits above its fourth.
proof fn lemma_block_clear(j: u64)
    by (bit_vector)
    requires
        4 <= j < 64,
    ensures
        !bit(0b1011, j),
{
}

/// Computes what `t` steps led by the low `t` bits of `key` append.
pub fn batch_entry(key: u64, t: u8) -> (r: (u64, u8))
    requires
        t <= 16,
    ensures
        entry_for(key, t as nat, r.0, r.1),
        r.1 <= 4 * t,
{
    let mut bits: u64 = 0;
    let mut count: u8 = 0;
    let mut i: u8 = 0;
    proof {
        lemma_block_bits();
        assert forall|j: u64| j < 64 implies !#[trigger] bit(0u64, j) by {
            lemma_bit_consts(0, j);
        }
        assert(low_bits(0, 0) =~= outputs(low_bits(key, 0)));
    }
    while i < t
        invariant
            i <= t <= 16,
            count <= 4 * i,
            count == outputs(low_bits(key, i as nat)).len(),
            low_bits(bits, count as nat) == outputs(low_bits(key, i as nat)),
            forall|j: u64| count <= j < 64 ==> !#[trigger] bit(bits, j),
        decreases t - i,
    {
        let ghost before = low_bits(bits, count as nat);
        let ghost lead = bit(key, i as u64);
        assert(low_bits(key, (i + 1) as nat).drop_last() =~= low_bits(key, i as nat));
        let lead_bit = (key >> i) & 1 == 1;
        assert(lead_bit == lead);
        if lead_bit {
            let next = bits | (0b1011u64 << count);
            proof {
                lemma_block_bits();
                assert forall|j: u64| j < 64 implies #[trigger] bit(next, j) == (if j < count {
                    bit(bits, j)
                } else {
                    bit(0b1011, (j - count) as u64)
                }) by {
                    lemma_bit_or(bits, 0b1011u64 << count, j);
                    lemma_bit_shl(0b1011, count as u64, j);
                }
                assert forall|j: u64| count + 4 <= j < 64 implies !#[trigger] bit(next, j) by {
                    lemma_block_clear((j - count) as u64);
                }
                assert(low_bits(next, (count + 4) as nat) =~= before + production(true));
            }
            bits = next;
            count = count + 4;
        } else {
            proof {
                assert(low_bits(bits, (count + 2) as nat) =~= before + production(false));
            }
            count = count + 2;
        }
        i += 1;
    }
    (bits, count)
}

/// The entries for every key of `steps` bits, computed once and then looked up.
pub struct BatchTable {
    steps: u8,
    entries: Vec<(u64, u8)>,
}

impl BatchTable {
    /// The number of steps that one entry stands for.
    pub closed spec fn steps(&self) -> nat {
        self.steps as nat
    }

    /// One entry for each key below `2^steps`, each as `batch_entry` computes it.
    pub closed spec fn wf(&self) -> bool {
        &&& self.steps <= 16
        &&& self.entries@.len() == (1u64 << self.steps)
        &&& forall|key: int|
            0 <= key < self.entries@.len() ==> entry_for(
                key as u64,
                self.steps as nat,
                #[trigger] self.entries@[key].0,
                self.entries@[key].1,
            )
    }

    /// Builds the table for batches of `steps` steps.
    pub fn new(steps: u8) -> (r: Self)
        requires
            steps <= 16,
        ensures
            r.wf(),
            r.steps() == steps,
    {
        let size: u64 = 1u64 << steps;
        proof {
            assert(size <= 65536) by (bit_vector)
                requires
                    steps <= 16,
                    size == 1u64 << steps,
            ;
        }
        let mut entries: Vec<(u64, u8)> = Vec::new();
        let mut key: u64 = 0;
        while key < size
            invariant
                steps <= 16,
                size <= 65536,
                key <= size,
                entries@.len() == key,
                forall|k: int|
                    0 <= k < key ==> entry_for(
                        k as u64,
                        steps as nat,
                        #[trigger] entries@[k].0,
                        entries@[k].1,
                    ),
            decreases size - key,
        {
            let e = batch_entry(key, steps);
            entries.push(e);
            key += 1;
        }
        BatchTable { steps, entries }
    }

    /// The entry for `key`.
    pub fn lookup(&self, key: u64) -> (r: (u64, u8))
        requires
            self.wf(),
            key < (1u64 << self.steps()),
        ensures
            entry_for(key, self.steps(), r.0, r.1),
            r.1 <= 4 * self.steps(),
    {
        proof {
            let steps = self.steps;
            assert((1u64 << steps) <= 65536) by (bit_vector)
                requires
                    steps <= 16,
            ;
        }
        let r = self.entries[key as usize];
        proof {
            let e = self.entries@[key as int];
            assert(entry_for(key as int as u64, self.steps as nat, e.0, e.1));
            lemma_outputs_len(low_bits(key, self.steps as nat));
        }
        r
    }
}

} // verus!
