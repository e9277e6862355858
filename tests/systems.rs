use post_tag::batch::{batch_entry, batch_key, BatchTable};
use post_tag::bitstring::BitString;
use post_tag::vec_deque_bools::VecDequeBools;
use post_tag::PostSystem;
use std::ops::ControlFlow;

#[test]
fn vec_deque_bools_decompresses() {
    let system = VecDequeBools::new_decompressed(&[true]);
    assert_eq!(system.as_list().make_contiguous(), [true, false, false]);

    let system = VecDequeBools::new_decompressed(&[false]);
    assert_eq!(system.as_list().make_contiguous(), [false, false, false]);

    let system = VecDequeBools::new_decompressed(&[true, false, true, true]);
    assert_eq!(
        system.as_list().make_contiguous(),
        [true, false, false, false, false, false, true, false, false, true, false, false]
    );
}

#[test]
fn vec_deque_bools_evolves() {
    let mut system = VecDequeBools::new_decompressed(&[true]);

    assert_eq!(system.evolve(), ControlFlow::Continue(()));
    assert_eq!(system.as_list().make_contiguous(), [true, true, false, true]);

    assert_eq!(system.evolve(), ControlFlow::Continue(()));
    assert_eq!(system.as_list().make_contiguous(), [true, true, true, false, true]);

    assert_eq!(system.evolve(), ControlFlow::Continue(()));
    assert_eq!(
        system.as_list().make_contiguous(),
        [false, true, true, true, false, true]
    );

    assert_eq!(system.evolve(), ControlFlow::Continue(()));
    assert_eq!(system.as_list().make_contiguous(), [true, false, true, false, false]);

    assert_eq!(system.evolve(), ControlFlow::Continue(()));
    assert_eq!(
        system.as_list().make_contiguous(),
        [false, false, true, true, false, true]
    );

    assert_eq!(system.evolve(), ControlFlow::Continue(()));
    assert_eq!(system.as_list().make_contiguous(), [true, false, true, false, false]);
}

#[test]
fn lone_false_halts_after_one_step() {
    let mut packed = BitString::new_decompressed(&[false]);
    let mut plain = VecDequeBools::new_decompressed(&[false]);
    assert_eq!(packed.as_list().make_contiguous(), [false, false, false]);
    assert_eq!(packed.evolve(), ControlFlow::Continue(()));
    assert_eq!(packed.as_list().make_contiguous(), [false, false]);
    assert_eq!(packed.evolve(), ControlFlow::Break(()));
    assert_eq!(packed.as_list().make_contiguous(), [false, false]);

    assert_eq!(plain.evolve_multi(5), ControlFlow::Break(1));
    assert_eq!(plain.as_list().make_contiguous(), [false, false]);
    let mut packed = BitString::new_decompressed(&[false]);
    assert_eq!(packed.evolve_multi(5), ControlFlow::Break(1));
    assert_eq!(packed.as_list().make_contiguous(), [false, false]);
}

#[test]
fn short_systems_halt_at_once() {
    for len in 0..3u8 {
        let mut packed = BitString::new();
        packed.append(0b111, len);
        let before = packed.as_list();
        assert_eq!(packed.evolve(), ControlFlow::Break(()));
        assert_eq!(packed.as_list(), before);
        assert_eq!(packed.evolve_multi(4), ControlFlow::Break(0));
        assert_eq!(packed.as_list(), before);
    }
    let mut plain = VecDequeBools::new_decompressed(&[]);
    assert_eq!(plain.evolve(), ControlFlow::Break(()));
    assert_eq!(plain.evolve_multi(3), ControlFlow::Break(0));
    assert_eq!(plain.length(), 0);
}

#[test]
fn evolve_multi_zero_steps_continues() {
    let mut packed = BitString::new_decompressed(&[]);
    assert_eq!(packed.evolve_multi(0), ControlFlow::Continue(()));
}

fn single_steps<S: PostSystem>(system: &mut S, n: usize) -> ControlFlow<usize> {
    for i in 0..n {
        if system.evolve() == ControlFlow::Break(()) {
            return ControlFlow::Break(i);
        }
    }
    ControlFlow::Continue(())
}

const START: [bool; 13] = [
    true, false, true, true, false, true, true, false, true, true, true, true, false,
];

#[test]
fn packed_and_plain_agree_step_by_step() {
    let mut packed = BitString::new_decompressed(&START);
    let mut plain = VecDequeBools::new_decompressed(&START);
    for _ in 0..3000 {
        assert_eq!(packed.evolve(), plain.evolve());
        assert_eq!(packed.as_list(), plain.as_list());
        assert_eq!(packed.length(), plain.length());
    }
}

#[test]
fn batched_steps_match_single_steps() {
    for n in [0usize, 1, 10, 11, 12, 33, 100, 1234] {
        let mut batched = BitString::new_decompressed(&START);
        let mut single = BitString::new_decompressed(&START);
        assert_eq!(batched.evolve_multi(n), single_steps(&mut single, n));
        assert_eq!(batched, single);
        let mut plain = VecDequeBools::new_decompressed(&START);
        assert_eq!(plain.evolve_multi(n), ControlFlow::Continue(()));
        assert_eq!(batched.as_list(), plain.as_list());
    }
}

#[test]
fn long_run_halts_at_the_same_step() {
    let n = 341_992;
    let mut packed = BitString::new_decompressed(&START);
    let mut plain = VecDequeBools::new_decompressed(&START);
    let packed_result = packed.evolve_multi(n);
    let plain_result = single_steps(&mut plain, n);
    assert_eq!(packed_result, plain_result);
    assert_eq!(packed.as_list(), plain.as_list());
}

#[test]
fn evolve_preferred_takes_eleven_steps() {
    assert_eq!(BitString::PREFERRED_TIMESTEP, 11);
    assert_eq!(VecDequeBools::PREFERRED_TIMESTEP, 1);
    let mut batched = BitString::new_decompressed(&START);
    let mut single = VecDequeBools::new_decompressed(&START);
    batched.evolve_preferred();
    single_steps(&mut single, 11);
    assert_eq!(batched.as_list(), single.as_list());
    single.evolve_preferred();
    batched.evolve();
    assert_eq!(batched.as_list(), single.as_list());
}

#[test]
fn batch_key_gathers_every_third_bit() {
    assert_eq!(batch_key(0b001_001_000_001, 4), 0b1101);
    assert_eq!(batch_key(u64::MAX, 11), 0b111_1111_1111);
    assert_eq!(batch_key(0b110_110, 2), 0);
}

#[test]
fn batch_entry_concatenates_productions() {
    assert_eq!(batch_entry(0b1, 1), (0b1011, 4));
    assert_eq!(batch_entry(0b0, 1), (0, 2));
    assert_eq!(batch_entry(0b01, 2), (0b1011, 6));
    assert_eq!(batch_entry(0b10, 2), (0b1011_00, 6));
    assert_eq!(batch_entry(0b11, 2), (0b1011_1011, 8));
}

#[test]
fn batch_table_matches_entries() {
    let table = BatchTable::new(4);
    for key in 0..16u64 {
        assert_eq!(table.lookup(key), batch_entry(key, 4));
    }
}

#[test]
fn clones_evolve_independently() {
    let mut a = BitString::new_decompressed(&START);
    let b = a.clone();
    a.evolve();
    assert_ne!(a, b);
    assert_eq!(b.as_list(), BitString::new_decompressed(&START).as_list());
}
