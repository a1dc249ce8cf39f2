//! What holds between functions, on examples.
use oxideav_mp4::bytes::{push_u24, push_u32, push_u64, read_u24, read_u32, read_u64};
use oxideav_mp4::emsg::{build_emsg_box, parse_emsg_box};
use oxideav_mp4::error::Error;
use oxideav_mp4::frag::{build_moof, build_trex, build_trun, FragTrackState, FragmentDefaults, PendingSample};
use oxideav_mp4::fragment::{parse_moof, MoofRecord};
use oxideav_mp4::boxes::wrap_box;
use oxideav_mp4::index::parse_trep;
use oxideav_mp4::movie::parse_trex;
use oxideav_mp4::samples::{expand_samples, SampleRef};
use oxideav_mp4::stream::{build_ctx, build_stream_info};
use oxideav_mp4::toplevel::read_file;
use oxideav_mp4::track::{CslgBox, SaizBox, SdtpEntry, Track, VmhdBox};
use oxideav_mp4::trak::parse_tref;

fn words(v: &[u32]) -> Vec<u8> {
    v.iter().flat_map(|x| x.to_be_bytes()).collect()
}

fn boxed(code: &[u8; 4], payload: &[u8]) -> Vec<u8> {
    wrap_box(u32::from_be_bytes(*code), payload)
}

#[test]
fn numbers_are_read_back() {
    for v in [0u64, 1, 0xFF, 0x100, 0xFF_FFFF, 0x8000_0000, 0xFFFF_FFFF, 0x0123_4567_89AB_CDEF, u64::MAX] {
        let mut b = vec![9];
        push_u64(&mut b, v);
        push_u32(&mut b, v as u32);
        push_u24(&mut b, (v % 0x100_0000) as u32);
        assert_eq!(b.len(), 16);
        assert_eq!(&b[1..9], &v.to_be_bytes());
        assert_eq!(read_u64(&b, 1), v);
        assert_eq!(read_u32(&b, 9), v as u32);
        assert_eq!(read_u24(&b, 13), (v % 0x100_0000) as u32);
    }
}

#[test]
fn an_event_message_that_was_read_is_written_as_it_was() {
    let mut v0 = words(&[0]);
    v0.extend_from_slice("urn:x\0\u{E9}\0".as_bytes());
    v0.extend_from_slice(&words(&[1, 2, 3, 4]));
    v0.extend_from_slice(&[0, 1, 0]);
    let mut v1 = words(&[0x0100_0000, 1, 2, 3, 4, 5]);
    v1.extend_from_slice(b"\0v\0data");
    for body in [v0, v1] {
        let e = parse_emsg_box(&body).unwrap();
        let b = build_emsg_box(&e).unwrap();
        assert_eq!(&b[8..], &body[..]);
        assert_eq!(read_u32(&b, 0) as usize, b.len());
    }
}

#[test]
fn event_message_errors() {
    let text = |b: &[u8]| parse_emsg_box(b).unwrap_err().message();
    assert_eq!(text(&[0, 0, 0]), "invalid data: MP4 emsg: missing FullBox header");
    assert_eq!(text(&[7, 0, 0, 0]), "invalid data: MP4 emsg: undefined version 7 (field order unknown)");
    assert_eq!(text(&[0, 0, 0, 0, 1]), "invalid data: MP4 emsg: unterminated scheme_id_uri");
    assert_eq!(text(&[0, 0, 0, 0, 1, 0]), "invalid data: MP4 emsg: unterminated value");
    assert_eq!(text(&[0, 0, 0, 0, 0xFF, 0]), "invalid data: MP4 emsg: scheme_id_uri is not valid UTF-8");
    assert_eq!(text(&[0, 0, 0, 0, 0, 0, 1, 2, 3]), "invalid data: MP4 emsg: truncated timescale");
    assert_eq!(text(&[1, 0, 0, 0, 0, 0, 0, 1, 2]), "invalid data: MP4 emsg: truncated presentation_time");
}

#[test]
fn expansion_keeps_what_was_there() {
    let mut t = Track::blank();
    t.stsz = vec![1, 2];
    t.chunk_offsets = vec![50];
    t.stsc = vec![(1, 2, 1)];
    let first = SampleRef { track_idx: 9, offset: 7, size: 1, pts: 1, dts: 1, duration: 1, keyframe: false };
    let mut out = vec![first];
    expand_samples(&t, 0, &mut out).unwrap();
    assert_eq!(out.len(), 3);
    assert_eq!((out[0].track_idx, out[0].offset), (9, 7));
    assert_eq!((out[1].offset, out[2].offset), (50, 51));
}

#[test]
fn samples_of_one_offset_keep_their_order() {
    let trak = |id: u32| {
        let stbl = [
            boxed(b"stsz", &words(&[0, 1, 1])),
            boxed(b"stsc", &words(&[0, 1, 1, 1, 1])),
            boxed(b"stco", &words(&[0, 1, 60])),
        ]
        .concat();
        let mdia = boxed(b"mdia", &boxed(b"minf", &boxed(b"stbl", &stbl)));
        boxed(b"trak", &[boxed(b"tkhd", &words(&[0, 0, 0, id])), mdia].concat())
    };
    let moov = boxed(b"moov", &[trak(1), trak(2), trak(3)].concat());
    let file = [boxed(b"ftyp", b"isom"), moov].concat();
    let top = read_file(&file).unwrap();
    let movie = oxideav_mp4::demux::parse_movie(&top).unwrap();
    let ids = vec![String::new(); 3];
    let d = oxideav_mp4::demux::open(top, movie, &ids).unwrap();
    let order: Vec<u32> = d.samples.iter().map(|s| s.track_idx).collect();
    assert_eq!(order, vec![0, 1, 2]);
}

#[test]
fn references_of_a_type_come_once() {
    let body = [
        boxed(b"chap", &words(&[0, 3])),
        boxed(b"subt", &words(&[5])),
        boxed(b"chap", &words(&[4])),
    ]
    .concat();
    let mut t = Track::blank();
    parse_tref(&body, &mut t).unwrap();
    parse_tref(&body, &mut t).unwrap();
    assert_eq!(t.tref, vec![(*b"chap", vec![3]), (*b"subt", vec![5])]);
}

#[test]
fn option_names_are_distinct() {
    let mut t = Track::blank();
    assert_eq!(build_stream_info(0, &t, String::from("x")).params.options.len(), 0);
    t.protection_scheme = Some(*b"cenc");
    t.elng = Some(String::from("en"));
    t.tref = vec![(*b"chap", vec![1, 2]), ([0xFF, 1, 2, 3], vec![3]), (*b"none", vec![])];
    t.trgr = vec![(*b"msrc", 1), (*b"msrc", 1)];
    t.kinds = vec![(String::from("u"), String::new()), (String::from("u"), String::from("v"))];
    t.cslg = Some(CslgBox::default());
    t.vmhd = Some(VmhdBox { graphicsmode: 1, opcolor: [2, 3, 4] });
    t.stsh = vec![(1, 2), (3, 4)];
    t.sdtp = vec![SdtpEntry { is_leading: 1, sample_depends_on: 2, sample_is_depended_on: 2, sample_has_redundancy: 1 }];
    t.stdp = vec![5, 3, 9];
    t.padb = vec![0, 7, 7];
    t.saiz = vec![SaizBox { aux_info_type: Some([0xFF; 4]), per_sample: vec![1, 2], sample_count: 2, ..SaizBox::default() }];
    let o = build_stream_info(0, &t, String::from("x")).params.options;
    let mut names: Vec<&str> = o.iter().map(|(k, _)| k).collect();
    let n = names.len();
    names.sort_unstable();
    names.dedup();
    assert_eq!(names.len(), n);
    assert_eq!(o.get("protection_scheme"), Some("cenc"));
    assert_eq!(o.get("tref_chap"), Some("1 2"));
    assert_eq!(o.get("tref_ff010203"), Some("3"));
    assert_eq!(o.get("tref_none"), None);
    assert_eq!(o.get("trgr_1"), Some("msrc 1"));
    assert_eq!((o.get("kind_0"), o.get("kind_1")), (Some("u"), Some("u v")));
    assert_eq!(o.get("vmhd_opcolor"), Some("2 3 4"));
    assert_eq!(o.get("stdp_sum"), Some("17"));
    assert_eq!((o.get("stdp_min"), o.get("stdp_max")), (Some("3"), Some("9")));
    assert_eq!(o.get("padb_hist"), Some("1:0:0:0:0:0:0:2"));
    assert_eq!(o.get("saiz_0"), Some("type=???? default_size=0 count=2 sizes=1,2"));
}

#[test]
fn probes_see_what_a_track_says() {
    let mut t = Track::blank();
    assert!(build_ctx(&t).header.is_none());
    t.extradata = vec![1];
    t.channels = Some(2);
    let h = build_ctx(&t);
    assert_eq!((h.header, h.channels, h.width), (Some(&[1u8][..]), Some(2), None));
}

#[test]
fn children_of_extension_properties_fit() {
    let mut body = words(&[0, 1]);
    body.extend_from_slice(&boxed(b"abcd", &[1, 2, 3]));
    body.extend_from_slice(&words(&[100, u32::from_be_bytes(*b"efgh"), 0]));
    let r = parse_trep(&body).unwrap();
    let lens: Vec<usize> = r.children.iter().map(|c| c.payload_len).collect();
    assert_eq!(lens, vec![3, 4]);
    let total: usize = lens.iter().map(|n| n + 8).sum();
    assert!(total <= body.len() - 8);
}

fn pending(data: &[u8], duration: u32, flags: u32, cts: i32) -> PendingSample {
    PendingSample { data: data.to_vec(), duration, flags, composition_time_offset: cts }
}

#[test]
fn defaults_are_read_back() {
    let mut t = FragTrackState::new(5, Vec::new(), Vec::new(), 1000);
    t.lock_trex(1, 2, 3);
    t.lock_trex(7, 8, 9);
    let b = build_trex(&t);
    let mut tracks = vec![Track::blank(), Track::blank()];
    tracks[1].track_id = 5;
    parse_trex(&b[8..], &mut tracks).unwrap();
    let d = tracks[1].trex;
    assert_eq!(d.default_sample_description_index, 1);
    assert_eq!((d.default_sample_duration, d.default_sample_size, d.default_sample_flags), (1, 2, 3));
    assert_eq!(parse_trex(&b[9..], &mut tracks), Err(Error::invalid("MP4: trex too short")));
}

#[test]
fn a_run_leaves_out_what_its_defaults_hold() {
    let mut t = FragTrackState::new(5, Vec::new(), Vec::new(), 1000);
    t.pending.push(pending(b"abc", 4, 9, 0));
    // The defaults decide, not what the samples agree on.
    let d = FragmentDefaults {
        homogeneous_size: Some(7),
        homogeneous_duration: None,
        homogeneous_flags: Some(1),
        first_sample_distinct: true,
        first_sample_flags: 2,
    };
    let body = [1, 0, 1, 5, 0, 0, 0, 1, 255, 255, 255, 254, 0, 0, 0, 2, 0, 0, 0, 4];
    assert_eq!(build_trun(&t, -2, d), boxed(b"trun", &body));
}

#[test]
fn a_movie_fragment_is_read_back() {
    let key = 0x0200_0000;
    let not = 0x0001_0000;
    // Samples that agree on all, on all flags but the first, and on nothing.
    let runs = [
        vec![pending(b"aa", 4, key, 0), pending(b"bb", 4, key, 0)],
        vec![pending(b"c", 4, key, 1), pending(b"ddd", 4, not, -1), pending(b"ee", 4, not, 0)],
        vec![pending(b"", 1, not, 0), pending(b"f", 2, key, 0), pending(b"gg", 3, not, 0)],
    ];
    let mut tracks = Vec::new();
    let mut movie = Vec::new();
    for (i, run) in runs.iter().enumerate() {
        let mut t = FragTrackState::new(i as u32 + 1, Vec::new(), Vec::new(), 1000);
        t.pending = run.clone();
        t.next_bmdt = 100 * i as u64;
        tracks.push(t);
        let mut m = Track::blank();
        m.track_id = i as u32 + 1;
        m.trex.default_sample_size = 77;
        m.trex.default_sample_duration = 77;
        movie.push(m);
    }
    let moof = build_moof(42, &tracks);
    let start = 1000u64;
    let data: Vec<u8> = runs.iter().flatten().flat_map(|s| s.data.clone()).collect();
    let (mut samples, mut next, mut senc, mut sai, mut pssh) = (Vec::new(), vec![0; 3], Vec::new(), Vec::new(), Vec::new());
    let record = MoofRecord { moof_start: start, body: moof[8..].to_vec() };
    parse_moof(&record, &movie, &mut samples, &mut next, &mut senc, &mut sai, &mut pssh).unwrap();
    assert_eq!(next, vec![8, 112, 206]);
    let mut k = 0;
    for (i, run) in runs.iter().enumerate() {
        let mut dts = 100 * i as i64;
        for s in run {
            let got = samples[k];
            assert_eq!((got.track_idx, got.size, got.duration), (i as u32, s.data.len() as u32, s.duration as i64));
            assert_eq!((got.dts, got.pts), (dts, dts + s.composition_time_offset as i64));
            assert_eq!(got.keyframe, s.flags == key);
            let at = (got.offset - start) as usize - moof.len() - 8;
            assert_eq!(&data[at..at + s.data.len()], &s.data[..]);
            dts += s.duration as i64;
            k += 1;
        }
    }
    assert_eq!(k, samples.len());
}
