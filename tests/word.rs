use radiswap_ticks::word::Word;

fn brute_bit(w: &Word, i: u32) -> bool {
    if i < 128 {
        (w.lo >> i) & 1 == 1
    } else {
        (w.hi >> (i - 128)) & 1 == 1
    }
}

fn brute_msb(w: &Word) -> u8 {
    let mut i: u32 = 255;
    loop {
        if brute_bit(w, i) {
            return i as u8;
        }
        i -= 1;
    }
}

fn brute_lsb(w: &Word) -> u8 {
    let mut i: u32 = 0;
    loop {
        if brute_bit(w, i) {
            return i as u8;
        }
        i += 1;
    }
}

fn next_random(state: &mut u64) -> u64 {
    *state = state.wrapping_mul(6364136223846793005).wrapping_add(1442695040888963407);
    *state >> 11
}

#[test]
fn msb_lsb_of_one() {
    let w = Word { hi: 0, lo: 1 };
    assert_eq!(w.most_significant_bit(), 0);
    assert_eq!(w.least_significant_bit(), 0);
}

#[test]
fn msb_lsb_of_top_bit() {
    let w = Word { hi: 1u128 << 127, lo: 0 };
    assert_eq!(w.most_significant_bit(), 255);
    assert_eq!(w.least_significant_bit(), 255);
}

#[test]
fn msb_lsb_of_both_ends() {
    let w = Word { hi: 1u128 << 127, lo: 1 };
    assert_eq!(w.most_significant_bit(), 255);
    assert_eq!(w.least_significant_bit(), 0);
}

#[test]
fn msb_lsb_across_halves() {
    let w = Word { hi: 0b1010_0000, lo: 0 };
    assert_eq!(w.most_significant_bit(), 135);
    assert_eq!(w.least_significant_bit(), 133);
    let w = Word { hi: 0, lo: u128::MAX };
    assert_eq!(w.most_significant_bit(), 127);
    assert_eq!(w.least_significant_bit(), 0);
    let w = Word { hi: 1, lo: 1u128 << 127 };
    assert_eq!(w.most_significant_bit(), 128);
    assert_eq!(w.least_significant_bit(), 127);
}

#[test]
fn msb_lsb_agree_with_bit_scan_on_sparse_and_dense_words() {
    let mut state: u64 = 0x2545_f491_4f6c_dd1d;
    for round in 0..400 {
        let mut w = Word { hi: 0, lo: 0 };
        if round % 2 == 0 {
            // sparse: a few bits
            for _ in 0..(1 + round % 4) {
                let bit = (next_random(&mut state) % 256) as u32;
                if bit < 128 {
                    w.lo |= 1u128 << bit;
                } else {
                    w.hi |= 1u128 << (bit - 128);
                }
            }
        } else {
            // dense: random halves
            let hi = ((next_random(&mut state) as u128) << 64) | next_random(&mut state) as u128;
            let lo = ((next_random(&mut state) as u128) << 64) | next_random(&mut state) as u128;
            w.hi = if round % 3 == 0 { 0 } else { hi };
            w.lo = if round % 5 == 0 { 0 } else { lo };
            if w.hi == 0 && w.lo == 0 {
                w.lo = 8;
            }
        }
        assert_eq!(w.most_significant_bit(), brute_msb(&w));
        assert_eq!(w.least_significant_bit(), brute_lsb(&w));
    }
}

#[test]
fn masks_cover_the_expected_bits() {
    for pos in [0u8, 1, 100, 127, 128, 129, 200, 255] {
        let below = Word::at_or_below(pos);
        let above = Word::at_or_above(pos);
        let single = Word::single(pos);
        for i in 0..256u32 {
            assert_eq!(brute_bit(&below, i), i <= pos as u32);
            assert_eq!(brute_bit(&above, i), i >= pos as u32);
            assert_eq!(brute_bit(&single, i), i == pos as u32);
            assert_eq!(single.bit(i as u8), i == pos as u32);
        }
    }
}

#[test]
fn and_xor_zero() {
    let a = Word { hi: 0b1100, lo: 0b1010 };
    let b = Word { hi: 0b1010, lo: 0b0110 };
    assert_eq!(a.and(&b), Word { hi: 0b1000, lo: 0b0010 });
    assert_eq!(a.xor(&b), Word { hi: 0b0110, lo: 0b1100 });
    assert!(Word::zero().is_zero());
    assert!(!a.is_zero());
    assert!(a.xor(&a).is_zero());
}
