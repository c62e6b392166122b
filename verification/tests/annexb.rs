use kite_gcs::annexb::{has_intra_frame, make_sample_data, nal_units};
use kite_gcs::apple_sink::ParameterSets;

#[test]
fn splits_annex_b_and_finds_idr() {
    // SPS (7), PPS (8), IDR (5) with 4- and 3-byte start codes.
    let au = [
        0, 0, 0, 1, 0x67, 1, 2, // SPS
        0, 0, 1, 0x68, 3, // PPS
        0, 0, 0, 1, 0x65, 9, 9, 9, // IDR
    ];
    let units = nal_units(&au);
    assert_eq!(units.len(), 3);
    assert_eq!(units[0], &[0x67, 1, 2]);
    assert_eq!(units[1], &[0x68, 3]);
    assert_eq!(units[2], &[0x65, 9, 9, 9]);
    assert!(has_intra_frame(false, &au));
    assert!(!has_intra_frame(true, &au));

    let mut sets = ParameterSets::default();
    assert!(sets.absorb(false, &au));
    assert!(!sets.absorb(false, &au), "identical sets must not count as a change");
    assert_eq!(sets.sps.len(), 1);
}

#[test]
fn no_start_code_means_no_units() {
    assert!(nal_units(&[]).is_empty());
    assert!(nal_units(&[0x65, 1, 2, 3]).is_empty());
    assert!(nal_units(&[0, 0]).is_empty());
}

#[test]
fn empty_units_and_trailing_zeros_are_dropped() {
    // Two start codes back to back leave an empty unit; trailing zeros are trimmed.
    let au = [0, 0, 1, 0, 0, 1, 0x41, 7, 0, 0, 0];
    let units = nal_units(&au);
    assert_eq!(units.len(), 1);
    assert_eq!(units[0], &[0x41, 7]);
}

#[test]
fn hevc_irap_is_intra() {
    // HEVC type 19 (IDR_W_RADL): first byte 19 << 1 = 0x26.
    let au = [0, 0, 1, 0x26, 0x01, 0xaa];
    assert!(has_intra_frame(true, &au));
    // HEVC type 1 (trailing picture): 0x02.
    let au = [0, 0, 1, 0x02, 0x01, 0xaa];
    assert!(!has_intra_frame(true, &au));
    // HEVC type 21 (CRA) counts, 22 does not.
    assert!(has_intra_frame(true, &[0, 0, 1, 21 << 1, 1]));
    assert!(!has_intra_frame(true, &[0, 0, 1, 22 << 1, 1]));
}

#[test]
fn sample_data_is_length_prefixed_without_parameter_sets() {
    let au = [
        0, 0, 0, 1, 0x09, 0xf0, // AUD (9)
        0, 0, 0, 1, 0x67, 1, 2, // SPS
        0, 0, 1, 0x68, 3, // PPS
        0, 0, 1, 0x06, 5, 5, // SEI (6)
        0, 0, 0, 1, 0x65, 9, 9, 9, // IDR
    ];
    let data = make_sample_data(false, &au).unwrap();
    assert_eq!(data, vec![0, 0, 0, 3, 0x06, 5, 5, 0, 0, 0, 4, 0x65, 9, 9, 9]);
}

#[test]
fn sample_of_parameter_sets_only_is_an_error() {
    let au = [0, 0, 1, 0x67, 1, 0, 0, 1, 0x68, 2];
    assert_eq!(make_sample_data(false, &au).unwrap_err(), "access unit without slices");
    // HEVC VPS/SPS/PPS (32/33/34) and AUD (35).
    let au = [0, 0, 1, 32 << 1, 1, 0, 0, 1, 33 << 1, 1, 0, 0, 1, 35 << 1, 1];
    assert_eq!(make_sample_data(true, &au).unwrap_err(), "access unit without slices");
}

#[test]
fn changed_parameter_set_replaces_the_old_one() {
    let mut sets = ParameterSets::default();
    assert!(sets.absorb(false, &[0, 0, 1, 0x67, 1, 0, 0, 1, 0x68, 2]));
    assert!(sets.absorb(false, &[0, 0, 1, 0x67, 9]));
    assert_eq!(sets.sps, vec![vec![0x67, 9]]);
    assert_eq!(sets.pps, vec![vec![0x68, 2]]);
    assert!(sets.vps.is_empty());
    // A slice alone changes nothing.
    assert!(!sets.absorb(false, &[0, 0, 1, 0x65, 1]));
}

#[test]
fn two_different_sets_of_one_kind_keep_counting_as_changes() {
    // The newest instance per type is kept, so an access unit carrying two different SPS
    // replaces on every pass.
    let au = [0, 0, 1, 0x67, 1, 0, 0, 1, 0x67, 2];
    let mut sets = ParameterSets::default();
    assert!(sets.absorb(false, &au));
    assert_eq!(sets.sps, vec![vec![0x67, 2]]);
    assert!(sets.absorb(false, &au));
}

#[test]
fn hevc_sets_fill_all_three_slots() {
    let au = [0, 0, 1, 32 << 1, 1, 0, 0, 1, 33 << 1, 2, 0, 0, 1, 34 << 1, 3];
    let mut sets = ParameterSets::default();
    assert!(sets.absorb(true, &au));
    assert_eq!(sets.vps, vec![vec![64, 1]]);
    assert_eq!(sets.sps, vec![vec![66, 2]]);
    assert_eq!(sets.pps, vec![vec![68, 3]]);
    assert!(!sets.absorb(true, &au));
}

#[test]
fn description_needs_every_required_set() {
    let mut sets = ParameterSets::default();
    assert!(sets.description_sets(false).is_none());
    sets.absorb(false, &[0, 0, 1, 0x67, 1]);
    assert!(sets.description_sets(false).is_none());
    sets.absorb(false, &[0, 0, 1, 0x68, 2]);
    assert_eq!(sets.description_sets(false).unwrap(), vec![&[0x67u8, 1][..], &[0x68u8, 2][..]]);
    // HEVC also needs a VPS.
    let mut h = ParameterSets::default();
    h.absorb(true, &[0, 0, 1, 33 << 1, 2, 0, 0, 1, 34 << 1, 3]);
    assert!(h.description_sets(true).is_none());
    h.absorb(true, &[0, 0, 1, 32 << 1, 1]);
    assert_eq!(h.description_sets(true).unwrap(), vec![&[64u8, 1][..], &[66u8, 2][..], &[68u8, 3][..]]);
}

#[test]
fn joining_at_a_start_code_joins_the_units() {
    let a: Vec<u8> = vec![0, 0, 1, 0x67, 5, 0, 0, 0x41, 0];
    for b in [vec![0u8, 0, 0, 1, 0x68, 2, 0], vec![0u8, 0, 1, 0x65, 0, 0, 3], vec![]] {
        let mut ab = a.clone();
        ab.extend_from_slice(&b);
        let mut joined: Vec<&[u8]> = nal_units(&a);
        joined.extend(nal_units(&b));
        assert_eq!(nal_units(&ab), joined);
    }
}

#[test]
fn framed_units_come_back_out() {
    // Not empty, no trailing zero byte, no 00 00 01 inside (00 00 alone is fine).
    let plain: [&[u8]; 3] = [&[0x67, 0, 0, 2, 9], &[0x68, 0, 4], &[0x65, 1, 0, 0, 0, 7]];
    let codes: [&[u8]; 3] = [&[0, 0, 0, 1], &[0, 0, 1], &[0, 0, 0, 1]];
    let mut au: Vec<u8> = Vec::new();
    for (c, u) in codes.iter().zip(plain.iter()) {
        au.extend_from_slice(c);
        au.extend_from_slice(u);
    }
    assert_eq!(nal_units(&au), plain.to_vec());
}
