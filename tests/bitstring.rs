use post_tag::bitstring::BitString;
use post_tag::PostSystem;
use std::ops::ControlFlow;

#[test]
fn tests_equality() {
    let mut bit_string = BitString::new();
    let mut other = BitString::new();

    assert_eq!(bit_string, other);

    bit_string.append(0b101, 3);
    assert_ne!(bit_string, other);

    other.append(0b101, 3);
    assert_eq!(bit_string, other);

    bit_string.append(0b010, 3);
    assert_ne!(bit_string, other);

    other.append(0b010, 3);
    assert_eq!(bit_string, other);

    bit_string.append(0b0, 1);
    assert_ne!(bit_string, other);

    other.append(0b0, 1);
    assert_eq!(bit_string, other);

    bit_string.append(u64::MAX, u64::BITS as u8);
    assert_ne!(bit_string, other);

    other.append(u64::MAX, u64::BITS as u8);
    assert_eq!(bit_string, other);

    let mut bit_string = BitString::new();
    let mut other = BitString::new();

    bit_string.append(0b1010, 4);
    other.append(0b10, 2);
    assert_ne!(bit_string, other);

    bit_string.delete(2);
    assert_eq!(bit_string, other);

    bit_string.append(u64::MAX, u64::BITS as u8);
    other.append(u64::MAX, u64::BITS as u8);
    assert_eq!(bit_string, other);

    bit_string.append(0b1010, 4);
    assert_ne!(bit_string, other);
}

#[test]
fn bitstring_appends() {
    let mut bit_string = BitString::new();
    assert_eq!(bit_string.as_list().make_contiguous(), []);

    bit_string.append(0b101, 3);
    assert_eq!(bit_string.as_list().make_contiguous(), [true, false, true]);

    bit_string.append(0b010, 3);
    assert_eq!(
        bit_string.as_list().make_contiguous(),
        [true, false, true, false, true, false]
    );

    bit_string.append(0b0, 1);
    assert_eq!(
        bit_string.as_list().make_contiguous(),
        [true, false, true, false, true, false, false]
    );

    bit_string.append(u64::MAX, u64::BITS as u8);
    assert_eq!(
        bit_string.as_list().make_contiguous().len(),
        (u64::BITS + 7) as usize
    );
}

#[test]
fn bitstring_deletes() {
    let mut bit_string = BitString::new();
    bit_string.append(0xAAAA_AAAA_AAAA_AAA7, 64);
    bit_string.append(0xF, 4);

    assert_eq!(bit_string.delete(8), 0xA7);
    assert_eq!(bit_string.delete(64), 0x0FAA_AAAA_AAAA_AAAA);

    assert_eq!(bit_string.as_list().make_contiguous(), []);
}

#[test]
fn bitstring_gets_length() {
    let mut bit_string = BitString::new();
    for l in 0..u64::BITS * 4 {
        assert_eq!(bit_string.length(), l as usize);
        bit_string.append(0, 1);
    }

    bit_string.delete(7);
    assert_eq!(bit_string.length(), u64::BITS as usize * 4 - 7);
}

#[test]
fn bitstring_decompresses() {
    let system = BitString::new_decompressed(&[true]);
    assert_eq!(system.as_list().make_contiguous(), [true, false, false]);

    let system = BitString::new_decompressed(&[false]);
    assert_eq!(system.as_list().make_contiguous(), [false, false, false]);

    let system = BitString::new_decompressed(&[true, false, true, true]);
    assert_eq!(
        system.as_list().make_contiguous(),
        [true, false, false, false, false, false, true, false, false, true, false, false]
    );

    let system = BitString::new_decompressed(&[]);
    assert_eq!(system.length(), 0);
}

#[test]
fn bitstring_evolves() {
    let mut system = BitString::new_decompressed(&[true]);

    assert_eq!(system.evolve(), ControlFlow::Continue(()));
    assert_eq!(system.as_list().make_contiguous(), [true, true, false, true]);

    assert_eq!(system.evolve(), ControlFlow::Continue(()));
    assert_eq!(system.as_list().make_contiguous(), [true, true, true, false, true]);

    assert_eq!(system.evolve(), ControlFlow::Continue(()));
    assert_eq!(
        system.as_list().make_contiguous(),
        [false, true, true, true, false, true]
    );

    assert_eq!(system.evolve(), ControlFlow::Continue(()));
    assert_eq!(system.as_list().make_contiguous(), [true, false, true, false, false]);

    assert_eq!(system.evolve(), ControlFlow::Continue(()));
    assert_eq!(
        system.as_list().make_contiguous(),
        [false, false, true, true, false, true]
    );

    assert_eq!(system.evolve(), ControlFlow::Continue(()));
    assert_eq!(system.as_list().make_contiguous(), [true, false, true, false, false]);
}

#[test]
fn bitstring_delete_more_than_held_empties() {
    let mut bit_string = BitString::new();
    bit_string.append(0b11, 2);
    assert_eq!(bit_string.delete(5), 0b11);
    assert_eq!(bit_string.length(), 0);
    assert_eq!(bit_string, BitString::new());
}

#[test]
fn bitstring_delete_nothing() {
    let mut bit_string = BitString::new();
    bit_string.append(0b101, 3);
    assert_eq!(bit_string.delete(0), 0);
    assert_eq!(bit_string.as_list().make_contiguous(), [true, false, true]);
}

#[test]
fn bitstring_append_ignores_bits_above_count() {
    let mut bit_string = BitString::new();
    bit_string.append(0b1111_0110, 3);
    assert_eq!(bit_string.as_list().make_contiguous(), [false, true, true]);
    bit_string.append(u64::MAX, 0);
    assert_eq!(bit_string.length(), 3);
}

#[test]
fn bitstring_append_then_delete_round_trip() {
    let mut bit_string = BitString::new();
    bit_string.append(0x1234_5678_9ABC, 48);
    assert_eq!(bit_string.delete(48), 0x1234_5678_9ABC);
    assert_eq!(bit_string, BitString::new());

    bit_string.append(u64::MAX, 64);
    assert_eq!(bit_string.delete(64), u64::MAX);
    assert_eq!(bit_string.length(), 0);
}

#[test]
fn bitstring_deletes_across_words() {
    let mut bit_string = BitString::new();
    bit_string.append(0, 60);
    bit_string.append(0b1011_0111, 8);
    assert_eq!(bit_string.delete(60), 0);
    assert_eq!(bit_string.delete(8), 0b1011_0111);
}

#[test]
fn bitstring_equality_ignores_offsets() {
    let mut a = BitString::new();
    let mut b = BitString::new();
    a.append(0, 37);
    a.delete(37);
    for i in 0..200u64 {
        a.append(i % 5, 3);
        b.append(i % 5, 3);
    }
    assert_eq!(a, b);
    assert_eq!(a.as_list(), b.as_list());
    b.delete(1);
    a.delete(1);
    assert_eq!(a, b);
    a.append(1, 1);
    b.append(0, 1);
    assert_ne!(a, b);
    assert_ne!(a.as_list(), b.as_list());
}
