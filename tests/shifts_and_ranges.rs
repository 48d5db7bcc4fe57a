use aggbgp::custom_range::{NewType, NewTypeRange};
use aggbgp::saturating::{saturating_shl, saturating_shr, SaturatingShl, SaturatingShr};

#[test]
fn saturating_shl_u64_u8() {
    let a: u64 = 0b1;
    let z: u8 = 0;
    let w: u8 = 64;
    assert_eq!(a.saturating_shl(z), a);
    assert_eq!(a.saturating_shl(w - 1), a << (w - 1));
    assert_eq!(a.saturating_shl(w), 0);
    assert_eq!(a.saturating_shl(z.wrapping_sub(1)), 0);
}

#[test]
fn saturating_shr_u64_u8() {
    let a: u64 = 0b1;
    let z: u8 = 0;
    let w: u8 = 64;
    assert_eq!(a.saturating_shr(z), a);
    assert_eq!(a.saturating_shr(w - 1), a >> (w - 1));
    assert_eq!(a.saturating_shr(w), 0);
    assert_eq!(a.saturating_shr(z.wrapping_sub(1)), 0);
}

#[test]
fn saturating_shifts_at_128_bits() {
    assert_eq!(u128::MAX.saturating_shl(128u32), 0);
    assert_eq!(u128::MAX.saturating_shr(128u8), 0);
    assert_eq!(u128::MAX.saturating_shr(127u32), 1);
    assert_eq!(1u128.saturating_shl(127u8), 1u128 << 127);
    assert_eq!(0xF0u32.saturating_shl(28u8), 0);
    assert_eq!(0xF0u32.saturating_shr(4u32), 0x0F);
}

#[test]
fn saturating_free_functions() {
    assert_eq!(saturating_shl(1, 1), 2);
    assert_eq!(saturating_shr(1, 1), 0);
    assert_eq!(saturating_shl(3, 31), 0x8000_0000);
    assert_eq!(saturating_shl(1, 32), 0);
    assert_eq!(saturating_shr(u32::MAX, 32), 0);
    assert_eq!(saturating_shr(u32::MAX, 31), 1);
}

#[test]
fn new_type_steps() {
    let a = NewType(10);
    let b = NewType(20);
    assert_eq!(a.checked_add(b), Some(NewType(30)));
    assert_eq!(NewType(u32::MAX).checked_add(NewType(1)), None);
    assert_eq!(a.add(b), NewType(30));
    assert_eq!(b.sub(a), NewType(10));
    assert_eq!(NewType::steps_between(&a, &b), Some(10));
    assert_eq!(NewType::steps_between(&b, &a), Some(0));
    assert_eq!(a.add_usize(5), Some(NewType(15)));
    assert_eq!(NewType(u32::MAX).add_usize(1), None);
    assert_eq!(a.add_one(), NewType(11));
    assert_eq!(a.sub_one(), NewType(9));
    assert_eq!(NewType(u32::MAX).add_one(), NewType(u32::MAX));
    assert_eq!(NewType(0).sub_one(), NewType(0));
    let mut c = NewType(7);
    assert_eq!(c.replace_one(), NewType(7));
    assert_eq!(c, NewType(1));
    assert_eq!(c.replace_zero(), NewType(1));
    assert_eq!(c, NewType(0));
}

#[test]
fn new_type_range_walks_half_open() {
    let r = NewTypeRange::new(NewType(10), NewType(14));
    assert_eq!(r.len(), 4);
    assert_eq!(r.to_vec(), vec![NewType(10), NewType(11), NewType(12), NewType(13)]);
    let mut r2 = r;
    assert_eq!(r2.next(), Some(NewType(10)));
    assert_eq!(r2.next_back(), Some(NewType(13)));
    assert_eq!(r2.len(), 2);
    let empty = NewTypeRange::new(NewType(5), NewType(5));
    assert!(empty.to_vec().is_empty());
    let mut e = empty;
    assert_eq!(e.next(), None);
}
