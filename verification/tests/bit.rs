use rust_ds_algo::bit::Bits;

fn word(bits: &Bits) -> i32 {
    let mut v: i32 = 0;
    for pos in 0..32 {
        if bits.is_bit_set(pos) {
            v |= 1 << pos;
        }
    }
    v
}

#[test]
fn reads_bits() {
    let bits = Bits::new(0b110101);
    let set: Vec<i32> = (0..32).filter(|p| bits.is_bit_set(*p)).collect();
    assert_eq!(set, vec![0, 2, 4, 5]);
    assert_eq!(word(&bits), 0b110101);
}

#[test]
fn sets_a_bit() {
    let mut bits = Bits::new(0b110101);
    bits.set_bit(1);
    assert_eq!(word(&bits), 0b110111);
    bits.set_bit(1);
    assert_eq!(word(&bits), 0b110111);
    bits.set_bit(31);
    assert_eq!(word(&bits), 0b110111 | i32::MIN);
}

#[test]
fn clears_a_bit() {
    let mut bits = Bits::new(0b110101);
    bits.clear_bit(2);
    assert_eq!(word(&bits), 0b110001);
    bits.clear_bit(3);
    assert_eq!(word(&bits), 0b110001);
    let mut all = Bits::new(-1);
    all.clear_bit(31);
    assert_eq!(word(&all), i32::MAX);
}

#[test]
fn modifies_a_bit() {
    let mut bits = Bits::new(0b1010);
    bits.modify_bit(0, true);
    assert_eq!(word(&bits), 0b1011);
    bits.modify_bit(1, false);
    assert_eq!(word(&bits), 0b1001);
    bits.modify_bit(3, true);
    assert_eq!(word(&bits), 0b1001);
    bits.modify_bit(2, false);
    assert_eq!(word(&bits), 0b1001);
}

#[test]
fn flips_a_bit() {
    let mut bits = Bits::new(0);
    bits.flip_bit(4);
    assert_eq!(word(&bits), 16);
    bits.flip_bit(4);
    assert_eq!(word(&bits), 0);
    bits.flip_bit(31);
    assert_eq!(word(&bits), i32::MIN);
}

#[test]
fn counts_ones() {
    assert_eq!(Bits::new(0).count_bit(), 0);
    assert_eq!(Bits::new(1).count_bit(), 1);
    assert_eq!(Bits::new(0b110101).count_bit(), 4);
    assert_eq!(Bits::new(i32::MAX).count_bit(), 31);
    let mut bits = Bits::new(0b110101);
    bits.clear_bit(2);
    assert_eq!(bits.count_bit(), 3);
}
