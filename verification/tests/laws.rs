use std::cell::RefCell;

use niri_color::color::vcgt::exceeds_max_icc_size;
use niri_color::color::{
    fuse_gamma, resample_vcgt, FormulaChannel, Vcgt, VcgtError, MAX_ICC_SIZE,
};

fn no_formula(_: FormulaChannel) -> Vec<u16> {
    panic!("no formula tag expected")
}

fn header() -> Vec<u8> {
    let mut buf = vec![0u8; 128];
    buf[36..40].copy_from_slice(b"acsp");
    buf
}

fn profile_with_tags(tags: &[(&[u8; 4], u32, u32)], tail: &[u8]) -> Vec<u8> {
    let mut buf = header();
    buf.extend_from_slice(&(tags.len() as u32).to_be_bytes());
    for (sig, offset, size) in tags {
        buf.extend_from_slice(*sig);
        buf.extend_from_slice(&offset.to_be_bytes());
        buf.extend_from_slice(&size.to_be_bytes());
    }
    buf.extend_from_slice(tail);
    buf
}

fn table_tag(count: u16, entry_size: u16, entries: &[u8]) -> Vec<u8> {
    let mut tag = Vec::new();
    tag.extend_from_slice(b"vcgt");
    tag.extend_from_slice(&0u32.to_be_bytes());
    tag.extend_from_slice(&0u32.to_be_bytes());
    tag.extend_from_slice(&3u16.to_be_bytes());
    tag.extend_from_slice(&count.to_be_bytes());
    tag.extend_from_slice(&entry_size.to_be_bytes());
    tag.extend_from_slice(entries);
    tag
}

fn single_tag_profile(tag: &[u8]) -> Vec<u8> {
    profile_with_tags(&[(b"vcgt", 144, tag.len() as u32)], tag)
}

#[test]
fn resample_interpolates_with_exact_values() {
    assert_eq!(resample_vcgt(&[0, 1000], 5), vec![0, 250, 500, 750, 1000]);
    // Position 1 of 3 source entries read from 4 targets: 2/3 of the way from 100 to 200.
    assert_eq!(resample_vcgt(&[100, 200, 300], 4), vec![100, 167, 233, 300]);
    // Halves round up.
    assert_eq!(resample_vcgt(&[0, 1], 3), vec![0, 1, 1]);
}

#[test]
fn resample_to_same_length_is_identity() {
    let c = vec![5u16, 60000, 3, 65535, 0, 12345];
    assert_eq!(resample_vcgt(&c, c.len()), c);
}

#[test]
fn resample_stays_within_source_range() {
    let c = vec![30000u16, 10000, 50000, 20000];
    for t in [0usize, 1, 2, 3, 7, 100, 1000] {
        for v in resample_vcgt(&c, t) {
            assert!((10000..=50000).contains(&v));
        }
    }
    assert_eq!(resample_vcgt(&[777, 777, 777], 10), vec![777; 10]);
}

#[test]
fn resample_keeps_endpoints_and_order() {
    let c = vec![3u16, 3, 900, 901, 40000, 65535];
    for t in [2usize, 5, 17, 256, 1024] {
        let out = resample_vcgt(&c, t);
        assert_eq!(out.len(), t);
        assert_eq!(out[0], 3);
        assert_eq!(out[t - 1], 65535);
        for i in 1..t {
            assert!(out[i - 1] <= out[i]);
        }
    }
    // A one-entry target keeps the first entry only.
    assert_eq!(resample_vcgt(&c, 1), vec![3]);
}

#[test]
fn fuse_rounds_product_to_nearest() {
    assert_eq!(fuse_gamma(&[20000], &[40000]), vec![12207]);
    assert_eq!(fuse_gamma(&[65535, 1], &[65535, 32768]), vec![65535, 1]);
}

#[test]
fn fuse_same_length_commutes() {
    let a = vec![0u16, 1, 2, 30000, 65535, 4242];
    let b = vec![65535u16, 12345, 2, 30001, 17, 0];
    assert_eq!(fuse_gamma(&a, &b), fuse_gamma(&b, &a));
}

#[test]
fn fuse_never_brightens() {
    let base = vec![65535u16, 40000, 1, 0, 32768, 12345];
    let client = vec![1u16, 40000, 65535, 65535, 32768, 54321];
    let fused = fuse_gamma(&base, &client);
    for i in 0..fused.len() {
        assert!(fused[i] <= base[i]);
        assert!(fused[i] <= client[i]);
    }
}

#[test]
fn fuse_length_follows_client_for_three_channel_luts() {
    let base = vec![1000u16; 9];
    let client = vec![65535u16; 12];
    assert_eq!(fuse_gamma(&base, &client), vec![1000u16; 12]);
    // Not three channels: element-wise over the shorter length.
    assert_eq!(fuse_gamma(&[100, 200], &[65535, 65535, 65535]), vec![100, 200]);
    assert_eq!(fuse_gamma(&[100, 200, 300, 400], &[65535, 65535, 65535]), vec![100, 200, 300]);
}

#[test]
fn table_profile_16bit_parses_back() {
    let red = [0x0102u16, 0xfffe, 0x8000];
    let green = [0u16, 1, 2];
    let blue = [65535u16, 256, 255];
    let mut entries = Vec::new();
    for v in red.iter().chain(green.iter()).chain(blue.iter()) {
        entries.extend_from_slice(&v.to_be_bytes());
    }
    let data = single_tag_profile(&table_tag(3, 2, &entries));
    let vcgt = Vcgt::from_bytes(&data, no_formula).unwrap();
    assert_eq!(vcgt.red, red.to_vec());
    assert_eq!(vcgt.green, green.to_vec());
    assert_eq!(vcgt.blue, blue.to_vec());
}

#[test]
fn table_profile_8bit_parses_back_scaled() {
    let data = single_tag_profile(&table_tag(2, 1, &[0, 255, 1, 2, 128, 127]));
    let vcgt = Vcgt::from_bytes(&data, no_formula).unwrap();
    assert_eq!(vcgt.red, vec![0, 65535]);
    assert_eq!(vcgt.green, vec![257, 514]);
    assert_eq!(vcgt.blue, vec![32896, 32639]);
}

#[test]
fn formula_profile_hands_each_channel_to_the_evaluator() {
    let mut tag = Vec::new();
    tag.extend_from_slice(b"vcgt");
    tag.extend_from_slice(&0u32.to_be_bytes());
    tag.extend_from_slice(&1u32.to_be_bytes());
    let channels = [(65536i32, -5i32, 70000i32), (1, 0, 0), (2147483647, -2147483648, 2147483647)];
    for (g, lo, hi) in channels {
        tag.extend_from_slice(&g.to_be_bytes());
        tag.extend_from_slice(&lo.to_be_bytes());
        tag.extend_from_slice(&hi.to_be_bytes());
    }
    let data = single_tag_profile(&tag);
    let seen = RefCell::new(Vec::new());
    let vcgt = Vcgt::from_bytes(&data, |c: FormulaChannel| {
        seen.borrow_mut().push(c);
        vec![seen.borrow().len() as u16]
    })
    .unwrap();
    assert_eq!(
        *seen.borrow(),
        vec![
            FormulaChannel { gamma: 65536, min: -5, max: 70000 },
            FormulaChannel { gamma: 1, min: 0, max: 0 },
            FormulaChannel { gamma: 2147483647, min: -2147483648, max: 2147483647 },
        ]
    );
    assert_eq!(vcgt.red, vec![1]);
    assert_eq!(vcgt.green, vec![2]);
    assert_eq!(vcgt.blue, vec![3]);
}

#[test]
fn formula_profile_with_one_bad_channel_is_refused() {
    let mut tag = Vec::new();
    tag.extend_from_slice(b"vcgt");
    tag.extend_from_slice(&0u32.to_be_bytes());
    tag.extend_from_slice(&1u32.to_be_bytes());
    for (g, lo, hi) in [(65536i32, 0i32, 65536i32), (65536, 0, 65536), (65536, 2, 1)] {
        tag.extend_from_slice(&g.to_be_bytes());
        tag.extend_from_slice(&lo.to_be_bytes());
        tag.extend_from_slice(&hi.to_be_bytes());
    }
    let data = single_tag_profile(&tag);
    assert!(matches!(
        Vcgt::from_bytes(&data, no_formula),
        Err(VcgtError::InvalidFormulaParameters)
    ));
}

#[test]
fn short_formula_tag_is_too_short() {
    let mut tag = Vec::new();
    tag.extend_from_slice(b"vcgt");
    tag.extend_from_slice(&0u32.to_be_bytes());
    tag.extend_from_slice(&1u32.to_be_bytes());
    tag.extend_from_slice(&[0u8; 35]);
    let data = single_tag_profile(&tag);
    assert!(matches!(Vcgt::from_bytes(&data, no_formula), Err(VcgtError::VcgtDataTooShort)));
}

#[test]
fn tag_smaller_than_eighteen_bytes_is_too_short() {
    let tag = table_tag(1, 1, &[0, 0, 0]);
    let data = profile_with_tags(&[(b"vcgt", 144, 17)], &tag);
    assert!(matches!(Vcgt::from_bytes(&data, no_formula), Err(VcgtError::VcgtDataTooShort)));
    // Tag running past the end of the profile.
    let data = profile_with_tags(&[(b"vcgt", 144, tag.len() as u32 + 1)], &tag);
    assert!(matches!(Vcgt::from_bytes(&data, no_formula), Err(VcgtError::VcgtDataTooShort)));
}

#[test]
fn missing_tag_table_is_invalid() {
    let mut data = header();
    data.extend_from_slice(&[0, 0, 0]);
    assert!(matches!(Vcgt::from_bytes(&data, no_formula), Err(VcgtError::InvalidTagTable)));
    // Two tags announced, one present.
    let data = profile_with_tags(&[(b"desc", 0, 0)], &[]);
    let mut data = data;
    data[131] = 2;
    assert!(matches!(Vcgt::from_bytes(&data, no_formula), Err(VcgtError::InvalidTagTable)));
}

#[test]
fn first_vcgt_entry_wins() {
    let good = table_tag(1, 1, &[1, 2, 3]);
    let mut tail = good.clone();
    tail.extend_from_slice(&table_tag(1, 1, &[9, 9, 9]));
    let first_offset = 128 + 4 + 3 * 12;
    let data = profile_with_tags(
        &[
            (b"desc", 0, 0),
            (b"vcgt", first_offset, good.len() as u32),
            (b"vcgt", first_offset + good.len() as u32, good.len() as u32),
        ],
        &tail,
    );
    let vcgt = Vcgt::from_bytes(&data, no_formula).unwrap();
    assert_eq!(vcgt.red, vec![257]);
    assert_eq!(vcgt.green, vec![514]);
    assert_eq!(vcgt.blue, vec![771]);
}

#[test]
fn file_contents_over_the_limit_are_too_large() {
    assert_eq!(MAX_ICC_SIZE, 4 * 1024 * 1024);
    assert!(exceeds_max_icc_size(MAX_ICC_SIZE + 1));
    assert!(!exceeds_max_icc_size(MAX_ICC_SIZE));
    let big = vec![0u8; MAX_ICC_SIZE as usize + 1];
    assert!(matches!(
        Vcgt::from_file_contents(&big, no_formula),
        Err(VcgtError::FileTooLarge)
    ));
    // At the limit the bytes are parsed (and here lack the signature).
    let at_limit = vec![0u8; MAX_ICC_SIZE as usize];
    assert!(matches!(
        Vcgt::from_file_contents(&at_limit, no_formula),
        Err(VcgtError::InvalidIccMagic)
    ));
}

#[test]
fn io_errors_convert() {
    let err: VcgtError = std::io::Error::new(std::io::ErrorKind::NotFound, "gone").into();
    assert!(matches!(err, VcgtError::Io(e) if e.kind() == std::io::ErrorKind::NotFound));
}

#[test]
fn vcgt_methods() {
    let v = Vcgt { red: vec![0, 65535], green: vec![100, 200], blue: vec![7, 8] };
    assert_eq!(v.len(), 2);
    assert!(!v.is_empty());
    assert_eq!(v.to_drm_lut(), vec![0, 65535, 100, 200, 7, 8]);
    let r = v.resample(3);
    assert_eq!(r.red, vec![0, 32768, 65535]);
    assert_eq!(r.green, vec![100, 150, 200]);
    assert_eq!(r.blue, vec![7, 8, 8]);
    let empty = Vcgt { red: vec![], green: vec![1], blue: vec![] };
    assert_eq!(empty.len(), 0);
    assert!(empty.is_empty());
    assert_eq!(empty.to_drm_lut(), vec![1]);
}
