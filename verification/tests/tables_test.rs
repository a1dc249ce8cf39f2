//! Sample tables, index boxes and what is made of them.
use oxideav_mp4::auxinfo::parse_saio;
use oxideav_mp4::boxes::wrap_box;
use oxideav_mp4::cenc::{parse_pssh, parse_senc, parse_tenc};
use oxideav_mp4::error::{Detail, Error};
use oxideav_mp4::esds::{parse_esds, read_descr};
use oxideav_mp4::flags::SampleFlags;
use oxideav_mp4::fragment::{parse_tfhd, parse_traf, parse_trun, TrafState};
use oxideav_mp4::groups::BitCursor;
use oxideav_mp4::index::{
    build_ssix_box, parse_mfra_box, parse_prft_box, parse_sidx_box, parse_ssix_box, parse_tfra,
    read_var_u32, SsixRange, SsixRecord, SsixSubsegment,
};
use oxideav_mp4::movie::{find_track, parse_mvhd, ParsedMoov};
use oxideav_mp4::samples::expand_samples;
use oxideav_mp4::tables::{
    parse_co64, parse_ctts, parse_stco, parse_stsc, parse_stss, parse_stsz, parse_stts, parse_stz2,
};
use oxideav_mp4::track::{ElstEntry, Track};
use oxideav_mp4::trak::{parse_mdhd, parse_tkhd};

fn words(v: &[u32]) -> Vec<u8> {
    v.iter().flat_map(|x| x.to_be_bytes()).collect()
}

fn code(s: &[u8; 4]) -> u32 {
    u32::from_be_bytes(*s)
}

#[test]
fn time_to_sample_table() {
    assert_eq!(parse_stts(&words(&[0, 2, 3, 100, 1, 50])).unwrap(), vec![(3, 100), (1, 50)]);
    assert_eq!(parse_stts(&words(&[0, 0])).unwrap(), vec![]);
    assert_eq!(parse_stts(&[0; 7]), Err(Error::invalid("MP4: stts too short")));
    assert_eq!(parse_stts(&words(&[0, 2, 3, 100])), Err(Error::invalid("MP4: stts truncated")));
}

#[test]
fn sample_to_chunk_table() {
    assert_eq!(parse_stsc(&words(&[0, 2, 1, 4, 1, 3, 2, 1])).unwrap(), vec![(1, 4, 1), (3, 2, 1)]);
    assert_eq!(parse_stsc(&[0; 4]), Err(Error::invalid("MP4: stsc too short")));
    assert_eq!(parse_stsc(&words(&[0, 1, 1, 4])), Err(Error::invalid("MP4: stsc truncated")));
}

#[test]
fn sample_sizes_uniform_and_listed() {
    assert_eq!(parse_stsz(&words(&[0, 7, 3])).unwrap(), vec![7, 7, 7]);
    assert_eq!(parse_stsz(&words(&[0, 0, 2, 5, 6])).unwrap(), vec![5, 6]);
    assert_eq!(parse_stsz(&words(&[0, 0])), Err(Error::invalid("MP4: stsz too short")));
    assert_eq!(parse_stsz(&words(&[0, 0, 2, 5])), Err(Error::invalid("MP4: stsz truncated")));
}

#[test]
fn compact_sample_sizes() {
    let mut b = words(&[0, 4, 3]);
    b.extend_from_slice(&[0x12, 0x30]);
    assert_eq!(parse_stz2(&b).unwrap(), vec![1, 2, 3]);
    assert_eq!(parse_stz2(&b[..13]), Err(Error::invalid("MP4: stz2 4-bit truncated")));
    let mut b = words(&[0, 8, 2]);
    b.extend_from_slice(&[9, 200]);
    assert_eq!(parse_stz2(&b).unwrap(), vec![9, 200]);
    assert_eq!(parse_stz2(&b[..13]), Err(Error::invalid("MP4: stz2 8-bit truncated")));
    let mut b = words(&[0, 16, 2]);
    b.extend_from_slice(&[1, 0, 0, 1]);
    assert_eq!(parse_stz2(&b).unwrap(), vec![256, 1]);
    assert_eq!(parse_stz2(&b[..15]), Err(Error::invalid("MP4: stz2 16-bit truncated")));
    assert_eq!(parse_stz2(&words(&[0, 5, 0])), Err(Error::invalid("MP4: stz2 invalid field size")));
    assert_eq!(parse_stz2(&[0; 11]), Err(Error::invalid("MP4: stz2 too short")));
}

#[test]
fn sync_samples_and_chunk_offsets() {
    assert_eq!(parse_stss(&words(&[0, 2, 1, 30])).unwrap(), vec![1, 30]);
    assert_eq!(parse_stss(&words(&[0, 2, 1])), Err(Error::invalid("MP4: stss truncated")));
    assert_eq!(parse_stss(&words(&[0])), Err(Error::invalid("MP4: stss too short")));
    assert_eq!(parse_stco(&words(&[0, 2, 10, 0xFFFF_FFFF])).unwrap(), vec![10, 0xFFFF_FFFF]);
    assert_eq!(parse_stco(&words(&[0, 1])), Err(Error::invalid("MP4: stco truncated")));
    assert_eq!(parse_stco(&[]), Err(Error::invalid("MP4: stco too short")));
    assert_eq!(parse_co64(&words(&[0, 1, 1, 2])).unwrap(), vec![0x1_0000_0002]);
    assert_eq!(parse_co64(&words(&[0, 1, 1])), Err(Error::invalid("MP4: co64 truncated")));
    assert_eq!(parse_co64(&[]), Err(Error::invalid("MP4: co64 too short")));
}

#[test]
fn composition_offsets_are_signed() {
    assert_eq!(parse_ctts(&words(&[0, 1, 2, 5])).unwrap(), vec![(2, 5)]);
    assert_eq!(parse_ctts(&words(&[0x0100_0000, 1, 2, 0xFFFF_FFFE])).unwrap(), vec![(2, -2)]);
    assert_eq!(parse_ctts(&words(&[0, 1, 2])), Err(Error::invalid("MP4: ctts truncated")));
    assert_eq!(parse_ctts(&[0; 3]), Err(Error::invalid("MP4: ctts too short")));
}

#[test]
fn auxiliary_offsets_are_wide_in_all_versions_but_the_first() {
    assert_eq!(parse_saio(&words(&[0, 1, 9])).unwrap().offsets, vec![9]);
    assert_eq!(parse_saio(&words(&[0x0200_0000, 1, 1, 9])).unwrap().offsets, vec![0x1_0000_0009]);
}

#[test]
fn movie_and_track_headers() {
    let mut m = ParsedMoov::blank();
    parse_mvhd(&words(&[0, 0, 0, 600, 1200]), &mut m).unwrap();
    assert_eq!((m.movie_timescale, m.movie_duration), (600, 1200));
    parse_mvhd(&words(&[0x0100_0000, 0, 0, 0, 0, 90, 1, 2]), &mut m).unwrap();
    assert_eq!((m.movie_timescale, m.movie_duration), (90, 0x1_0000_0002));
    assert_eq!(parse_mvhd(&[], &mut m), Err(Error::invalid("MP4: mvhd empty")));
    assert_eq!(parse_mvhd(&[0; 19], &mut m), Err(Error::invalid("MP4: mvhd v0 too short")));
    assert_eq!(parse_mvhd(&[1; 31], &mut m), Err(Error::invalid("MP4: mvhd v1 too short")));

    let mut t = Track::blank();
    parse_tkhd(&words(&[0, 0, 0, 7]), &mut t).unwrap();
    assert_eq!(t.track_id, 7);
    parse_tkhd(&words(&[0x0100_0000, 0, 0, 0, 0, 8]), &mut t).unwrap();
    assert_eq!(t.track_id, 8);
    assert_eq!(parse_tkhd(&[], &mut t), Err(Error::invalid("MP4: tkhd empty")));
    assert_eq!(parse_tkhd(&[1; 20], &mut t), Err(Error::invalid("MP4: tkhd too short")));

    parse_mdhd(&words(&[0, 0, 0, 48000, 96000, 0]), &mut t).unwrap();
    assert_eq!((t.timescale, t.duration), (48000, Some(96000)));
    assert_eq!(parse_mdhd(&[0; 23], &mut t), Err(Error::invalid("MP4: mdhd too short")));
    assert_eq!(parse_mdhd(&[1; 24], &mut t), Err(Error::invalid("MP4: mdhd v1 too short")));
}

#[test]
fn segment_index() {
    let body = words(&[0, 1, 1000, 50, 20, 1, 0x8000_0010, 5, 0x9000_0000]);
    let r = parse_sidx_box(&body, 100).unwrap().unwrap();
    assert_eq!((r.reference_id, r.timescale), (1, 1000));
    assert_eq!((r.earliest_presentation_time, r.first_byte_offset), (50, 120));
    let e = r.references[0];
    assert!(e.is_sidx && e.starts_with_sap);
    assert_eq!((e.referenced_size, e.subsegment_duration, e.sap_type), (16, 5, 1));
    let wide = words(&[0x0100_0000, 1, 1000, 0, 50, 0xFFFF_FFFF, 0xFFFF_FFFF, 0]);
    let r = parse_sidx_box(&wide, 100).unwrap().unwrap();
    assert_eq!(r.first_byte_offset, u64::MAX);
    for (cut, text) in [
        (11, "MP4: sidx too short"),
        (19, "MP4: sidx v0 truncated"),
        (23, "MP4: sidx header truncated"),
        (35, "MP4: sidx references truncated"),
    ] {
        assert_eq!(parse_sidx_box(&body[..cut], 0).unwrap_err(), Error::invalid(text));
    }
    assert_eq!(parse_sidx_box(&wide[..27], 0).unwrap_err(), Error::invalid("MP4: sidx v1 truncated"));
}

#[test]
fn random_access_points() {
    let mut tfra = words(&[0, 3, 0b01_10_00, 2]);
    for (time, moof, traf, trun, sample) in [(10u32, 500u32, [0u8, 1], [0u8, 0, 2], 3u8), (20, 900, [1, 0], [0, 1, 0], 4)] {
        tfra.extend_from_slice(&time.to_be_bytes());
        tfra.extend_from_slice(&moof.to_be_bytes());
        tfra.extend_from_slice(&traf);
        tfra.extend_from_slice(&trun);
        tfra.push(sample);
    }
    let r = parse_tfra(&tfra).unwrap().unwrap();
    assert_eq!(r.track_id, 3);
    assert_eq!((r.entries[0].time, r.entries[0].moof_offset), (10, 500));
    assert_eq!((r.entries[0].traf_number, r.entries[0].trun_number, r.entries[0].sample_number), (1, 2, 3));
    assert_eq!((r.entries[1].traf_number, r.entries[1].trun_number, r.entries[1].sample_number), (256, 256, 4));
    assert_eq!(parse_tfra(&tfra[..11]).unwrap_err(), Error::invalid("MP4: tfra too short"));
    assert_eq!(parse_tfra(&tfra[..15]).unwrap_err(), Error::invalid("MP4: tfra entry_count truncated"));
    assert_eq!(parse_tfra(&tfra[..40]).unwrap_err(), Error::invalid("MP4: tfra entries truncated"));
    let mut mfra = wrap_box(code(b"tfra"), &tfra);
    mfra.extend_from_slice(&wrap_box(code(b"mfro"), &[0; 8]));
    assert_eq!(parse_mfra_box(&mfra).unwrap().len(), 1);
    assert_eq!(read_var_u32(&[]), 0);
    assert_eq!(read_var_u32(&[1, 2, 3]), 0x01_0203);
    assert_eq!(read_var_u32(&[9, 1, 2, 3, 4]), 0x0102_0304);
}

#[test]
fn producer_reference_times() {
    let r = parse_prft_box(&words(&[0, 5, 1, 2, 77])).unwrap().unwrap();
    assert_eq!((r.reference_track_id, r.ntp_timestamp, r.media_time, r.version), (5, 0x1_0000_0002, 77, 0));
    let r = parse_prft_box(&words(&[0x0100_0000, 5, 1, 2, 1, 7])).unwrap().unwrap();
    assert_eq!((r.media_time, r.version), (0x1_0000_0007, 1));
    assert_eq!(parse_prft_box(&[0; 15]).unwrap_err(), Error::invalid("MP4: prft too short"));
    assert_eq!(parse_prft_box(&[0; 19]).unwrap_err(), Error::invalid("MP4: prft v0 truncated"));
    assert_eq!(parse_prft_box(&[1; 23]).unwrap_err(), Error::invalid("MP4: prft v1 truncated"));
}

#[test]
fn subsegment_index_is_read_back_as_written() {
    let r = SsixRecord {
        subsegments: vec![
            SsixSubsegment { ranges: vec![] },
            SsixSubsegment {
                ranges: vec![SsixRange { level: 1, range_size: 0xFF_FFFF }, SsixRange { level: 2, range_size: 0 }],
            },
        ],
    };
    let b = build_ssix_box(&r).unwrap();
    assert_eq!(b.len(), 8 + 8 + 4 + 4 + 8);
    assert_eq!(&b[..8], &[0, 0, 0, 32, b's', b's', b'i', b'x']);
    assert_eq!(parse_ssix_box(&b[8..]).unwrap(), r);
    let wide = SsixRecord {
        subsegments: vec![SsixSubsegment { ranges: vec![SsixRange { level: 0, range_size: 0x100_0000 }] }],
    };
    assert_eq!(build_ssix_box(&wide), Err(Error::invalid("MP4: ssix range_size exceeds 24 bits")));
    assert_eq!(parse_ssix_box(&[0; 7]), Err(Error::invalid("MP4: ssix too short")));
    assert_eq!(parse_ssix_box(&[1; 8]), Err(Error::invalid("MP4: ssix unsupported version")));
    assert_eq!(parse_ssix_box(&words(&[0, 1])), Err(Error::invalid("MP4: ssix subsegment truncated")));
    assert_eq!(parse_ssix_box(&words(&[0, 1, 1])), Err(Error::invalid("MP4: ssix range list truncated")));
}

#[test]
fn bits_read_in_parts_and_at_once() {
    let data = [0xA5, 0x3C, 0x7E, 0x01, 0xFF];
    for m in 0..=16u32 {
        for n in 0..=16u32 {
            let mut parts = BitCursor::new(&data, 0);
            let a = parts.read(m).unwrap() as u64;
            let b = parts.read(n).unwrap() as u64;
            let mut whole = BitCursor::new(&data, 0);
            assert_eq!(whole.read(m + n).unwrap() as u64, (a << n) + b);
        }
    }
}

#[test]
fn flags_words_keep_all_but_reserved_bits() {
    for raw in [0u32, 0x0102_0304, 0xFFFF_FFFF, 0x0200_0000, 0x0001_0000, 0xF00F_F00F] {
        assert_eq!(SampleFlags::from_u32(raw).to_u32(), raw & 0x0FFF_FFFF);
    }
}

#[test]
fn descriptors() {
    assert_eq!(read_descr(&[5, 0x7F], 0), Some((5, 127, 2)));
    assert_eq!(read_descr(&[5, 0x81, 0x00], 0), Some((5, 128, 3)));
    assert_eq!(read_descr(&[5, 0x80, 0x80, 0x80, 0x80, 0], 0), None);
    assert_eq!(read_descr(&[5], 0), None);
    assert_eq!(read_descr(&[], 0), None);
    let info = parse_esds(&[3, 3, 0, 0, 0]).unwrap();
    assert!(info.dsi.is_empty() && info.oti.is_none());
    assert!(parse_esds(&[3, 4, 0, 0, 0]).is_none());
    let mut b = vec![3, 3 + 2 + 15];
    b.extend_from_slice(&[0, 0, 0x80, 0, 0, 4, 13, 0x6B]);
    b.extend_from_slice(&[0; 12]);
    assert_eq!(parse_esds(&b).unwrap().oti, Some(0x6B));
}

#[test]
fn expansion_places_samples_in_chunks() {
    let mut t = Track::blank();
    t.stsz = vec![10, 20, 30, 40, 50];
    t.stts = vec![(2, 100), (2, 50)];
    t.ctts = vec![(1, 7), (1, -3)];
    t.stsc = vec![(1, 2, 1), (2, 1, 1)];
    t.chunk_offsets = vec![1000, 5000, 7000];
    t.stss = vec![1, 4];
    t.elst = vec![
        ElstEntry { segment_duration: 1, media_time: -1, media_rate: 0 },
        ElstEntry { segment_duration: 1, media_time: 5, media_rate: 0 },
    ];
    let mut out = Vec::new();
    expand_samples(&t, 3, &mut out).unwrap();
    let offsets: Vec<u64> = out.iter().map(|s| s.offset).collect();
    assert_eq!(offsets, vec![1000, 1010, 5000, 7000, 7000]);
    let dts: Vec<i64> = out.iter().map(|s| s.dts).collect();
    assert_eq!(dts, vec![-5, 95, 195, 245, 295]);
    let pts: Vec<i64> = out.iter().map(|s| s.pts).collect();
    assert_eq!(pts, vec![2, 92, 195, 245, 295]);
    let durations: Vec<i64> = out.iter().map(|s| s.duration).collect();
    assert_eq!(durations, vec![100, 100, 50, 50, 0]);
    let keys: Vec<bool> = out.iter().map(|s| s.keyframe).collect();
    assert_eq!(keys, vec![true, false, false, true, false]);
    assert!(out.iter().all(|s| s.track_idx == 3));
}

#[test]
fn expansion_fails_at_a_chunk_without_offset() {
    let mut t = Track::blank();
    t.stsz = vec![1, 1];
    t.stsc = vec![(1, 1, 1), (5, 1, 1)];
    t.chunk_offsets = vec![0];
    let mut out = Vec::new();
    let e = expand_samples(&t, 2, &mut out).unwrap_err();
    assert_eq!(e, Error::InvalidData(Detail::ChunkOutOfRange { chunk: 2, track: 2 }));
    assert_eq!(e.message(), "invalid data: MP4: chunk index 2 out of range (track 2)");
    assert_eq!(out.len(), 1);
}

#[test]
fn track_fragment_header_defaults_and_errors() {
    let mut a = Track::blank();
    a.track_id = 4;
    a.trex.default_sample_size = 9;
    let tracks = vec![Track::blank(), a];
    assert_eq!(find_track(&tracks, 4), Some(1));
    assert_eq!(find_track(&tracks, 5), None);
    let blank = TrafState {
        track_idx: 0,
        tfhd_flags: 0,
        base_data_offset: 0,
        default_sample_duration: 0,
        default_sample_size: 0,
        default_sample_flags: 0,
        base_media_decode_time: None,
    };
    let mut s = blank;
    parse_tfhd(&words(&[0x02_0008, 4, 33]), 700, &tracks, &mut s).unwrap();
    assert_eq!((s.track_idx, s.base_data_offset), (1, 700));
    assert_eq!((s.default_sample_duration, s.default_sample_size), (33, 9));
    let mut s = blank;
    parse_tfhd(&words(&[0x3B, 4, 0, 800, 1, 2, 3, 4]), 700, &tracks, &mut s).unwrap();
    assert_eq!(s.base_data_offset, 800);
    assert_eq!((s.default_sample_duration, s.default_sample_size, s.default_sample_flags), (2, 3, 4));
    let e = parse_tfhd(&words(&[0, 6]), 0, &tracks, &mut s).unwrap_err();
    assert_eq!(e.message(), "invalid data: MP4: tfhd refers to unknown track_ID 6");
    for (flags, text) in [
        (0x01, "MP4: tfhd base_data_offset truncated"),
        (0x02, "MP4: tfhd sample_description_index truncated"),
        (0x08, "MP4: tfhd default_sample_duration truncated"),
        (0x10, "MP4: tfhd default_sample_size truncated"),
        (0x20, "MP4: tfhd default_sample_flags truncated"),
    ] {
        assert_eq!(parse_tfhd(&words(&[flags, 4]), 0, &tracks, &mut s), Err(Error::invalid(text)));
    }
    assert_eq!(parse_tfhd(&[0; 7], 0, &tracks, &mut s), Err(Error::invalid("MP4: tfhd too short")));
}

#[test]
fn track_run_errors() {
    assert_eq!(parse_trun(&[0; 7]).err(), Some(Error::invalid("MP4: trun too short")));
    assert_eq!(parse_trun(&words(&[1, 0])).err(), Some(Error::invalid("MP4: trun data_offset truncated")));
    assert_eq!(parse_trun(&words(&[4, 0])).err(), Some(Error::invalid("MP4: trun first_sample_flags truncated")));
    assert_eq!(parse_trun(&words(&[0x100, 2, 1])).err(), Some(Error::invalid("MP4: trun samples truncated")));
}

#[test]
fn track_fragment_without_times_goes_on_from_the_last() {
    let mut t = Track::blank();
    t.track_id = 1;
    t.trex.default_sample_duration = 10;
    t.trex.default_sample_flags = 0x0001_0000;
    let tracks = vec![t];
    let mut body = wrap_box(code(b"tfhd"), &words(&[0, 1]));
    body.extend_from_slice(&wrap_box(code(b"trun"), &words(&[0x0000_0205, 2, 64, 0x0200_0000, 5, 6])));
    body.extend_from_slice(&wrap_box(code(b"trun"), &words(&[0x0000_0200, 1, 7])));
    let (mut samples, mut next, mut senc, mut sai) = (Vec::new(), vec![1000], Vec::new(), Vec::new());
    parse_traf(&body, 5000, &tracks, &mut samples, &mut next, 1, &mut senc, &mut sai).unwrap();
    let got: Vec<(u64, u32, i64, bool)> = samples.iter().map(|s| (s.offset, s.size, s.dts, s.keyframe)).collect();
    assert_eq!(got, vec![(5064, 5, 1000, true), (5069, 6, 1010, false), (5075, 7, 1020, false)]);
    assert_eq!(next, vec![1030]);
    let e = parse_traf(&[], 0, &tracks, &mut samples, &mut next, 1, &mut senc, &mut sai).unwrap_err();
    assert_eq!(e, Error::invalid("MP4: traf missing tfhd"));
}

#[test]
fn encryption_boxes() {
    let mut tenc = vec![0, 0, 0, 0, 0, 0x19, 1, 8];
    tenc.extend_from_slice(&[7; 16]);
    let t = parse_tenc(&tenc).unwrap();
    assert_eq!((t.default_crypt_byte_block, t.default_per_sample_iv_size), (0, 8));
    assert!(t.default_constant_iv.is_none());
    assert!(parse_tenc(&tenc[..23]).is_err());

    let mut senc = words(&[2, 1]);
    senc.extend_from_slice(&[9; 8]);
    senc.extend_from_slice(&[0, 1, 0, 5, 0, 0, 0, 6]);
    let s = parse_senc(&senc, 8).unwrap();
    assert_eq!(s.flags, 2);
    assert_eq!(s.samples[0].iv, vec![9; 8]);
    assert_eq!(s.samples[0].subsamples, vec![(5, 6)]);
    assert!(parse_senc(&senc[..20], 8).is_err());

    let mut pssh = vec![1, 0, 0, 0];
    pssh.extend_from_slice(&[3; 16]);
    pssh.extend_from_slice(&words(&[1]));
    pssh.extend_from_slice(&[4; 16]);
    pssh.extend_from_slice(&words(&[2]));
    pssh.extend_from_slice(&[5, 6]);
    let p = parse_pssh(&pssh).unwrap();
    assert_eq!((p.kids.len(), p.data.clone()), (1, vec![5, 6]));
    assert!(parse_pssh(&pssh[..45]).is_err());
}
