use masked_permute::raw::{advance, create_bases, make_bases};

#[test]
fn test_bases_0() {
    let mut bases = [0u32; 33];
    let expected = [0u32; 33];
    make_bases(0b0, &mut bases);
    assert_eq!(&bases[..], &expected[..]);
}

#[test]
fn test_bases_1() {
    let expected : [u32; 33] =
        [0b0, 0b1, 0b1, 0b1, 0b1, 0b1, 0b1, 0b1,
         0b1, 0b1, 0b1, 0b1, 0b1, 0b1, 0b1, 0b1,
         0b1, 0b1, 0b1, 0b1, 0b1, 0b1, 0b1, 0b1,
         0b1, 0b1, 0b1, 0b1, 0b1, 0b1, 0b1, 0b1, 0b1];
    assert_eq!(&create_bases(0b1)[..], &expected[..]);
}

#[test]
fn test_bases_11() {
    let expected : [u32; 33] =
        [0b00, 0b01, 0b11, 0b11, 0b11, 0b11, 0b11, 0b11,
         0b11, 0b11, 0b11, 0b11, 0b11, 0b11, 0b11, 0b11,
         0b11, 0b11, 0b11, 0b11, 0b11, 0b11, 0b11, 0b11,
         0b11, 0b11, 0b11, 0b11, 0b11, 0b11, 0b11, 0b11, 0b11];
    assert_eq!(&create_bases(0b11)[..], &expected[..]);
}

#[test]
fn test_bases_11011() {
    let expected : [u32; 33] =
        [0b00000, 0b00001, 0b00011, 0b01011, 0b11011, 0b11011, 0b11011, 0b11011,
         0b11011, 0b11011, 0b11011, 0b11011, 0b11011, 0b11011, 0b11011, 0b11011,
         0b11011, 0b11011, 0b11011, 0b11011, 0b11011, 0b11011, 0b11011, 0b11011,
         0b11011, 0b11011, 0b11011, 0b11011, 0b11011, 0b11011, 0b11011, 0b11011,
         0b11011];
    assert_eq!(&create_bases(0b11011)[..], &expected[..]);
}

#[test]
fn test_bases_full() {
    let expected : [u32; 33] =
        [0x00000000, 0x00000001, 0x00000003, 0x00000007, 0x0000000F, 0x0000001F, 0x0000003F, 0x0000007F,
         0x000000FF, 0x000001FF, 0x000003FF, 0x000007FF, 0x00000FFF, 0x00001FFF, 0x00003FFF, 0x00007FFF,
         0x0000FFFF, 0x0001FFFF, 0x0003FFFF, 0x0007FFFF, 0x000FFFFF, 0x001FFFFF, 0x003FFFFF, 0x007FFFFF,
         0x00FFFFFF, 0x01FFFFFF, 0x03FFFFFF, 0x07FFFFFF, 0x0FFFFFFF, 0x1FFFFFFF, 0x3FFFFFFF, 0x7FFFFFFF, 0xFFFFFFFF];
    assert_eq!(&create_bases(0xFFFFFFFF)[..], &expected[..]);
}

#[test]
fn test_advance_11_1() {
    let bases = create_bases(0b11);
    assert_eq!(advance(&bases, 1, 0b01), 0b10);
    assert_eq!(advance(&bases, 1, 0b10), 0b01);
}

#[test]
fn test_advance_1101_1() {
    let bases = create_bases(0b1101);
    assert_eq!(advance(&bases, 1, 0b0001), 0b0100);
    assert_eq!(advance(&bases, 1, 0b0100), 0b1000);
    assert_eq!(advance(&bases, 1, 0b1000), 0b0001);
}

#[test]
fn test_advance_1101_2() {
    let bases = create_bases(0b1101);
    assert_eq!(advance(&bases, 2, 0b0101), 0b1001);
    assert_eq!(advance(&bases, 2, 0b1001), 0b1100);
    assert_eq!(advance(&bases, 2, 0b1100), 0b0101);
}

#[test]
fn test_advance_11011_2() {
    let bases = create_bases(0b11011);
    assert_eq!(advance(&bases, 2, 0b00011), 0b01001);
    assert_eq!(advance(&bases, 2, 0b01001), 0b01010);
    assert_eq!(advance(&bases, 2, 0b01010), 0b10001);
    assert_eq!(advance(&bases, 2, 0b10001), 0b10010);
    assert_eq!(advance(&bases, 2, 0b10010), 0b11000);
    assert_eq!(advance(&bases, 2, 0b11000), 0b00011);
}

#[test]
fn test_advance_corner_1() {
    let u32max = std::u32::MAX;

    let bases = create_bases(0b0);
    assert_eq!(advance(&bases, 0, 0b0000), 0b0000);

    let bases = create_bases(u32max);
    assert_eq!(advance(&bases, 31, u32max - 1), (u32max - 1) >> 1);
    assert_eq!(advance(&bases, 32, u32max), u32max);

    let bases = create_bases(0x8000_0001);
    assert_eq!(advance(&bases, 1, 0x0000_0001), 0x8000_0000);
    assert_eq!(advance(&bases, 1, 0x8000_0000), 0x0000_0001);
}

#[test]
fn test_bases_entry_at_popcount_is_mask() {
    let masks: [u32; 6] = [0, 1, 0b1011, 0x8000_0001, 0xF0F0_0F0F, 0xFFFF_FFFF];
    for &mask in masks.iter() {
        let bases = create_bases(mask);
        let ones = mask.count_ones() as usize;
        assert_eq!(bases[ones], mask);
        assert_eq!(bases[0], 0);
        assert_eq!(bases[32], mask);
        for j in 0..33usize {
            assert_eq!(bases[j] & !mask, 0);
            assert_eq!(bases[j].count_ones() as usize, j.min(ones));
            if j > 0 {
                assert_eq!(bases[j - 1] & !bases[j], 0);
            }
        }
    }
}

#[test]
fn test_bases_sparse_mask() {
    let bases = create_bases(0x8000_0100);
    assert_eq!(bases[0], 0);
    assert_eq!(bases[1], 0x0000_0100);
    assert_eq!(bases[2], 0x8000_0100);
    assert_eq!(bases[3], 0x8000_0100);
}

#[test]
fn test_make_bases_overwrites_old_entries() {
    let mut bases = [0xDEAD_BEEFu32; 33];
    make_bases(0b101, &mut bases);
    assert_eq!(bases[0], 0);
    assert_eq!(bases[1], 0b001);
    assert_eq!(bases[2], 0b101);
    assert_eq!(bases[32], 0b101);
}

#[test]
fn test_advance_zero_ones_in_nonzero_mask() {
    let bases = create_bases(0b1011);
    assert_eq!(advance(&bases, 0, 0), 0);
}

#[test]
fn test_advance_cycles_through_all() {
    let mask: u32 = 0b1011_0110;
    let bases = create_bases(mask);
    let first = bases[3];
    let mut cur = first;
    let mut seen = 0u32;
    loop {
        assert_eq!(cur & !mask, 0);
        assert_eq!(cur.count_ones(), 3);
        seen += 1;
        let next = advance(&bases, 3, cur);
        if next <= cur {
            assert_eq!(next, first);
            break;
        }
        cur = next;
    }
    assert_eq!(seen, 10);
}
