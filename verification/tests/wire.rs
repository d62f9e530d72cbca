use mca_parser::bits::{
    bits_needed_for_palette, ceil_log2_of, field_of, pack_values, palette_mask, storage_bits_of,
};
use mca_parser::wire::{write_be_longs, write_be_u16, write_be_u64, write_var_int};

fn var_int(v: i32) -> Vec<u8> {
    let mut out = vec![0xeeu8];
    write_var_int(&mut out, v);
    assert_eq!(out[0], 0xee);
    out[1..].to_vec()
}

#[test]
fn var_int_bytes() {
    assert_eq!(var_int(0), vec![0x00]);
    assert_eq!(var_int(1), vec![0x01]);
    assert_eq!(var_int(8), vec![0x08]);
    assert_eq!(var_int(127), vec![0x7f]);
    assert_eq!(var_int(128), vec![0x80, 0x01]);
    assert_eq!(var_int(255), vec![0xff, 0x01]);
    assert_eq!(var_int(300), vec![0xac, 0x02]);
    assert_eq!(var_int(25565), vec![0xdd, 0xc7, 0x01]);
    assert_eq!(var_int(2097151), vec![0xff, 0xff, 0x7f]);
    assert_eq!(var_int(2147483647), vec![0xff, 0xff, 0xff, 0xff, 0x07]);
    assert_eq!(var_int(-1), vec![0xff, 0xff, 0xff, 0xff, 0x0f]);
    assert_eq!(var_int(-2147483648), vec![0x80, 0x80, 0x80, 0x80, 0x08]);
}

#[test]
fn big_endian_words() {
    let mut out = Vec::new();
    write_be_u16(&mut out, 0x1234);
    write_be_u16(&mut out, 1);
    assert_eq!(out, vec![0x12, 0x34, 0x00, 0x01]);
    let mut out = Vec::new();
    write_be_u64(&mut out, 0x0102_0304_0506_0708);
    assert_eq!(out, vec![1, 2, 3, 4, 5, 6, 7, 8]);
    assert_eq!(out, 0x0102_0304_0506_0708u64.to_be_bytes().to_vec());
    let mut out = vec![9u8];
    write_be_longs(&mut out, &vec![u64::MAX, 0, 0x8000_0000_0000_0001]);
    let mut expected = vec![9u8];
    expected.extend_from_slice(&[0xff; 8]);
    expected.extend_from_slice(&[0; 8]);
    expected.extend_from_slice(&[0x80, 0, 0, 0, 0, 0, 0, 1]);
    assert_eq!(out, expected);
}

#[test]
fn bits_for_a_count() {
    let expected: [(usize, usize); 12] = [
        (0, 0),
        (1, 0),
        (2, 1),
        (3, 2),
        (4, 2),
        (5, 3),
        (16, 4),
        (17, 5),
        (256, 8),
        (257, 9),
        (4096, 12),
        (4097, 13),
    ];
    for (n, bits) in expected {
        assert_eq!(ceil_log2_of(n), bits, "n = {}", n);
    }
    assert_eq!(ceil_log2_of(usize::MAX), usize::BITS as usize);
}

#[test]
fn stored_width_is_at_least_four() {
    assert_eq!(storage_bits_of(1), 4);
    assert_eq!(storage_bits_of(2), 4);
    assert_eq!(storage_bits_of(16), 4);
    assert_eq!(storage_bits_of(17), 5);
    assert_eq!(storage_bits_of(32), 5);
    assert_eq!(storage_bits_of(33), 6);
    assert_eq!(storage_bits_of(256), 8);
    assert_eq!(storage_bits_of(257), 9);
    assert_eq!(storage_bits_of(4096), 12);
}

#[test]
fn network_width_is_zero_four_to_eight_or_fifteen() {
    assert_eq!(bits_needed_for_palette(1), 0);
    assert_eq!(bits_needed_for_palette(0), 4);
    assert_eq!(bits_needed_for_palette(2), 4);
    assert_eq!(bits_needed_for_palette(16), 4);
    assert_eq!(bits_needed_for_palette(17), 5);
    assert_eq!(bits_needed_for_palette(64), 6);
    assert_eq!(bits_needed_for_palette(65), 7);
    assert_eq!(bits_needed_for_palette(129), 8);
    assert_eq!(bits_needed_for_palette(256), 8);
    assert_eq!(bits_needed_for_palette(257), 15);
    assert_eq!(bits_needed_for_palette(4096), 15);
}

#[test]
fn masks_keep_the_low_bits() {
    assert_eq!(palette_mask(0), 0);
    assert_eq!(palette_mask(1), 1);
    assert_eq!(palette_mask(4), 0xf);
    assert_eq!(palette_mask(5), 0x1f);
    assert_eq!(palette_mask(15), 0x7fff);
    assert_eq!(palette_mask(63), 0x7fff_ffff_ffff_ffff);
    assert_eq!(palette_mask(64), u64::MAX);
}

#[test]
fn fields_count_from_the_low_end() {
    let long: u64 = 0xfedc_ba98_7654_3210;
    for k in 0..16 {
        assert_eq!(field_of(long, 4, k), k as u64);
    }
    assert_eq!(field_of(long, 8, 0), 0x10);
    assert_eq!(field_of(long, 8, 7), 0xfe);
    assert_eq!(field_of(long, 5, 0), 0x10);
    assert_eq!(field_of(long, 5, 1), 0x10);
    assert_eq!(field_of(long, 5, 11), (long >> 55) & 0x1f);
    assert_eq!(field_of(long, 64, 0), long);
    assert_eq!(field_of(u64::MAX, 15, 3), 0x7fff);
}

#[test]
fn packing_fills_longs_from_the_low_end() {
    let values: Vec<u64> = (0..16).collect();
    assert_eq!(pack_values(&values, 4), vec![0xfedc_ba98_7654_3210]);
    let mut values: Vec<u64> = (0..16).collect();
    values.push(5);
    assert_eq!(pack_values(&values, 4), vec![0xfedc_ba98_7654_3210, 5]);
    let values: Vec<u64> = vec![1; 13];
    let twelve_ones: u64 = (0..12).fold(0, |acc, i| acc | (1u64 << (5 * i)));
    assert_eq!(pack_values(&values, 5), vec![twelve_ones, 1]);
    assert_eq!(pack_values(&Vec::new(), 4), Vec::<u64>::new());
    assert_eq!(pack_values(&vec![3, 2, 1], 64), vec![3, 2, 1]);
    assert_eq!(
        pack_values(&vec![0x7fff, 1, 2, 3, 4], 15),
        vec![0x7fff | (1 << 15) | (2 << 30) | (3u64 << 45), 4]
    );
}

#[test]
fn packed_values_read_back() {
    for bits in [4usize, 5, 6, 7, 8, 15] {
        let per = 64 / bits;
        let values: Vec<u64> = (0..4096u64).map(|i| (i * 7 + 3) % (1u64 << bits)).collect();
        let longs = pack_values(&values, bits);
        assert_eq!(longs.len(), (4096 + per - 1) / per);
        for (p, v) in values.iter().enumerate() {
            assert_eq!(field_of(longs[p / per], bits, p % per), *v);
        }
    }
}
