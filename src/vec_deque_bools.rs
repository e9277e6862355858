use vstd::prelude::*;

verus! {

use crate::rule::{decompress, expand, lemma_decompress_push, step};
use crate::PostSystem;
use std::collections::VecDeque;
use std::ops::ControlFlow;

/// The plain representation: one queue entry per symbol.
#[derive(Debug, Clone)]
pub struct VecDequeBools(VecDeque<bool>);

impl PostSystem for VecDequeBools {
    closed spec fn symbols(&self) -> Seq<bool> {
        self.0@
    }

    closed spec fn inv(&self) -> bool {
        true
    }

    const PREFERRED_TIMESTEP: u8 = 1;

    fn new_decompressed(compressed: &[bool]) -> (r: Self) {
        let mut q: VecDeque<bool> = VecDeque::new();
        let mut i: usize = 0;
        while i < compressed.len()
            invariant
                i <= compressed@.len(),
                q@ == decompress(compressed@.take(i as int)),
            decreases compressed@.len() - i,
        {
            let b = compressed[i];
            proof {
                lemma_decompress_push(compressed@, i as int);
            }
            q.push_back(b);
            q.push_back(false);
            q.push_back(false);
            assert(q@ =~= decompress(compressed@.take(i as int)) + expand(b));
            i += 1;
        }
        assert(compressed@.take(i as int) =~= compressed@);
        VecDequeBools(q)
    }

    fn length(&self) -> (r: usize) {
        self.0.len()
    }

    fn as_list(&self) -> (r: VecDeque<bool>) {
        let r = self.0.clone();
        assert(r@ =~= self.0@);
        r
    }

    fn evolve(&mut self) -> (r: ControlFlow<()>) {
        if self.0.len() < 3 {
            return ControlFlow::Break(());
        }
        let ghost s = self.0@;
        let first = match pop_front_or_break(&mut self.0) {
            ControlFlow::Continue(x) => x,
            ControlFlow::Break(()) => return ControlFlow::Break(()),
        };
        match pop_front_or_break(&mut self.0) {
            ControlFlow::Continue(_) => {},
            ControlFlow::Break(()) => return ControlFlow::Break(()),
        }
        match pop_front_or_break(&mut self.0) {
            ControlFlow::Continue(_) => {},
            ControlFlow::Break(()) => return ControlFlow::Break(()),
        }
        if first {
            self.0.push_back(true);
            self.0.push_back(true);
            self.0.push_back(false);
            self.0.push_back(true);
        } else {
            self.0.push_back(false);
            self.0.push_back(false);
        }
        assert(self.0@ =~= step(s));
        ControlFlow::Continue(())
    }
}

/// Takes the front entry, or breaks when the queue is empty.
fn pop_front_or_break<T>(deque: &mut VecDeque<T>) -> (r: ControlFlow<(), T>)
    ensures
        match r {
            ControlFlow::Continue(x) => {
                &&& old(deque)@.len() > 0
                &&& x == old(deque)@[0]
                &&& final(deque)@ == old(deque)@.skip(1)
            },
            ControlFlow::Break(()) => {
                &&& old(deque)@.len() == 0
                &&& final(deque)@ == old(deque)@
            },
        },
{
    match deque.pop_front() {
        Some(x) => ControlFlow::Continue(x),
        None => ControlFlow::Break(()),
    }
}

} // verus!
