use vstd::prelude::*;

pub mod batch;
pub mod bits;
pub mod bitstring;
pub mod rule;
pub mod vec_deque_bools;

verus! {

use crate::rule::{
    decompress, halt_at, lemma_halt_add, lemma_halted, lemma_run_add, lemma_run_len_lower,
    lemma_run_len_upper, run, step,
};
use std::collections::VecDeque;
use std::ops::ControlFlow;

/// A two-symbol tag system that can be advanced one step or many at a time.
pub trait PostSystem: Sized + Clone {
    /// The symbols of the system, front first.
    spec fn symbols(&self) -> Seq<bool>;

    /// Well-formedness of the representation.
    spec fn inv(&self) -> bool;

    /// The number of steps that `evolve_preferred` takes at once; 1 where there is
    /// nothing to gain from batching.
    const PREFERRED_TIMESTEP: u8;

    /// Builds a system from a compressed list: each symbol followed by two zeros.
    fn new_decompressed(compressed: &[bool]) -> (r: Self)
        requires
            3 * compressed@.len() <= usize::MAX,
        ensures
            r.inv(),
            r.symbols() == decompress(compressed@),
    ;

    /// The number of symbols.
    fn length(&self) -> (r: usize)
        requires
            self.inv(),
        ensures
            r == self.symbols().len(),
    ;

    /// The symbols as a list, front first.
    fn as_list(&self) -> (r: VecDeque<bool>)
        requires
            self.inv(),
        ensures
            r@ == self.symbols(),
    ;

    /// Takes one step; breaks, leaving the system as it is, when fewer than three
    /// symbols are left.
    fn evolve(&mut self) -> (r: ControlFlow<()>)
        requires
            old(self).inv(),
            old(self).symbols().len() < usize::MAX,
        ensures
            final(self).inv(),
            final(self).symbols() == step(old(self).symbols()),
            r == (if old(self).symbols().len() < 3 {
                ControlFlow::<()>::Break(())
            } else {
                ControlFlow::Continue(())
            }),
    ;

    /// Takes `n` steps, or fewer when the system halts first: then breaks with the
    /// number of steps taken.
    fn evolve_multi(&mut self, n: usize) -> (r: ControlFlow<usize>)
        requires
            old(self).inv(),
            old(self).symbols().len() + n <= usize::MAX,
        ensures
            final(self).inv(),
            final(self).symbols() == run(old(self).symbols(), n as nat),
            r == (match halt_at(old(self).symbols(), n as nat) {
                Some(k) => ControlFlow::Break(k as usize),
                None => ControlFlow::<usize>::Continue(()),
            }),
    {
        let ghost s0 = self.symbols();
        let t8: u8 = Self::PREFERRED_TIMESTEP;
        let t = t8 as usize;
        let mut i: usize = 0;
        while i < n
            invariant
                i <= n,
                s0 == old(self).symbols(),
                t == Self::PREFERRED_TIMESTEP as usize,
                t <= 255,
                self.inv(),
                s0.len() + n <= usize::MAX,
                self.symbols() == run(s0, i as nat),
                halt_at(s0, i as nat) is None,
            decreases n - i,
        {
            proof {
                lemma_run_len_upper(s0, i as nat);
            }
            if t > 0 && n - i >= t && self.length() >= 3 * t {
                proof {
                    lemma_run_len_lower(self.symbols(), t as nat);
                    lemma_halt_add(s0, i as nat, t as nat);
                    lemma_run_add(s0, i as nat, t as nat);
                }
                self.evolve_preferred();
                i += t;
            } else {
                let ghost cur = self.symbols();
                proof {
                    lemma_halt_add(s0, i as nat, (n - i) as nat);
                    lemma_halt_add(s0, i as nat, 1);
                    lemma_run_add(s0, i as nat, 1);
                    assert(run(cur, 1) == run(step(cur), 0));
                    assert(halt_at(step(cur), 0) is None);
                }
                if let ControlFlow::Break(()) = self.evolve() {
                    proof {
                        lemma_halted(cur, (n - i) as nat);
                        lemma_run_add(s0, i as nat, (n - i) as nat);
                    }
                    return ControlFlow::Break(i);
                }
                i += 1;
            }
        }
        ControlFlow::Continue(())
    }

    /// Takes `PREFERRED_TIMESTEP` steps at once, on a system long enough that none halts.
    fn evolve_preferred(&mut self)
        requires
            old(self).inv(),
            old(self).symbols().len() >= 3 * Self::PREFERRED_TIMESTEP,
            old(self).symbols().len() + Self::PREFERRED_TIMESTEP <= usize::MAX,
        ensures
            final(self).inv(),
            final(self).symbols() == run(old(self).symbols(), Self::PREFERRED_TIMESTEP as nat),
    {
        let ghost s0 = self.symbols();
        let mut j: u8 = 0;
        while j < Self::PREFERRED_TIMESTEP
            invariant
                j <= Self::PREFERRED_TIMESTEP,
                self.inv(),
                s0.len() >= 3 * Self::PREFERRED_TIMESTEP,
                s0.len() + Self::PREFERRED_TIMESTEP <= usize::MAX,
                self.symbols() == run(s0, j as nat),
            decreases Self::PREFERRED_TIMESTEP - j,
        {
            proof {
                lemma_run_len_upper(s0, j as nat);
                lemma_run_add(s0, j as nat, 1);
                assert(run(self.symbols(), 1) == run(step(self.symbols()), 0));
            }
            self.evolve();
            j += 1;
        }
    }
}

} // verus!

verus! {

use crate::bitstring::BitString;
use crate::vec_deque_bools::VecDequeBools;

/// The packed and the plain representation agree: started from the same symbols,
/// `n` single steps leave both with the same symbols, and both halt, if at all,
/// after the same number of steps.
pub proof fn lemma_representations_agree(packed: BitString, plain: VecDequeBools, n: nat)
    requires
        packed.symbols() == plain.symbols(),
    ensures
        run(packed.symbols(), n) == run(plain.symbols(), n),
        halt_at(packed.symbols(), n) == halt_at(plain.symbols(), n),
{
}

/// On a system of fewer than three symbols, any number of steps changes nothing,
/// and a positive number halts after zero steps.
pub proof fn lemma_halt_boundary<S: PostSystem>(sys: S, n: nat)
    requires
        sys.symbols().len() < 3,
    ensures
        run(sys.symbols(), n) == sys.symbols(),
        n > 0 ==> halt_at(sys.symbols(), n) == Some(0nat),
{
    lemma_halted(sys.symbols(), n);
}

} // verus!
