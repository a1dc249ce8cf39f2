//! Whole files: opening, reading packets, seeking, and reading back what was written.
use oxideav_mp4::demux::{open, parse_movie, Mp4Demuxer};
use oxideav_mp4::error::{Detail, Error};
use oxideav_mp4::frag::{sample_flags_for, Brand, BrandPreset, FragmentCadence};
use oxideav_mp4::boxes::wrap_box;
use oxideav_mp4::meta::{parse_ilst, parse_udta};
use oxideav_mp4::muxer::{open_fragmented, FragmentedMuxer, InitTrack, MuxPacket};
use oxideav_mp4::esds::{parse_esds, EsdsInfo};
use oxideav_mp4::stream::{build_stream_info, next_codec_step, CodecQuery, CodecStep, SampleFormat};
use oxideav_mp4::text::{decode_utf8_or_utf16, fourcc_token};
use oxideav_mp4::toplevel::read_file;
use oxideav_mp4::track::{MediaType, Track};

fn words(v: &[u32]) -> Vec<u8> {
    v.iter().flat_map(|x| x.to_be_bytes()).collect()
}

fn boxed(code: &[u8; 4], payload: &[u8]) -> Vec<u8> {
    wrap_box(u32::from_be_bytes(*code), payload)
}

fn cat(parts: &[Vec<u8>]) -> Vec<u8> {
    parts.concat()
}

fn mdia(handler: &[u8; 4], timescale: u32, tables: &[Vec<u8>]) -> Vec<u8> {
    let mdhd = boxed(b"mdhd", &words(&[0, 0, 0, timescale, 0, 0]));
    let mut h = words(&[0, 0]);
    h.extend_from_slice(handler);
    let hdlr = boxed(b"hdlr", &h);
    let minf = boxed(b"minf", &boxed(b"stbl", &cat(tables)));
    boxed(b"mdia", &cat(&[mdhd, hdlr, minf]))
}

fn tkhd(id: u32) -> Vec<u8> {
    boxed(b"tkhd", &words(&[0, 0, 0, id]))
}

fn mvhd() -> Vec<u8> {
    boxed(b"mvhd", &words(&[0, 0, 0, 1000, 2000]))
}

fn ftyp() -> Vec<u8> {
    boxed(b"ftyp", b"isom\0\0\0\0")
}

fn open_bytes(file: &[u8]) -> Result<Mp4Demuxer, Error> {
    let top = read_file(file)?;
    let movie = parse_movie(&top)?;
    let ids = vec![String::from("flac"); movie.tracks.len()];
    open(top, movie, &ids)
}

/// A file with two tracks of two chunks each; the chunks alternate.
fn two_tracks(extra: &[Vec<u8>]) -> Vec<u8> {
    let tables = |offsets: [u32; 2]| {
        vec![
            boxed(b"stts", &words(&[0, 1, 2, 10])),
            boxed(b"stsc", &words(&[0, 1, 1, 1, 1])),
            boxed(b"stsz", &words(&[0, 4, 2])),
            boxed(b"stco", &words(&[0, 2, offsets[0], offsets[1]])),
        ]
    };
    let trak = |id: u32, offsets: [u32; 2]| boxed(b"trak", &cat(&[tkhd(id), mdia(b"soun", 1000, &tables(offsets))]));
    let moov = boxed(b"moov", &cat(&[mvhd(), trak(1, [100, 300]), trak(2, [200, 400]), cat(extra)]));
    cat(&[ftyp(), moov])
}

#[test]
fn packets_come_in_order_of_offset() {
    let mut d = open_bytes(&two_tracks(&[])).unwrap();
    assert_eq!(d.format_name(), "mp4");
    assert_eq!(d.streams().len(), 2);
    assert_eq!(d.streams()[1].index, 1);
    assert_eq!(d.streams()[0].params.media_type, MediaType::Audio);
    assert_eq!(d.duration_micros(), Some(2_000_000));
    let mut got = Vec::new();
    while let Ok(p) = d.next_packet() {
        got.push((p.stream_index, p.offset, p.pts, p.size, p.timescale));
    }
    assert_eq!(got, vec![(0, 100, 0, 4, 1000), (1, 200, 0, 4, 1000), (0, 300, 10, 4, 1000), (1, 400, 10, 4, 1000)]);
    assert_eq!(d.next_packet(), Err(Error::Eof));
    assert_eq!(Error::Eof.message(), "end of stream");
}

#[test]
fn files_without_their_parts_are_refused() {
    assert_eq!(open_bytes(&[]).err(), Some(Error::invalid("MP4: missing ftyp box")));
    assert_eq!(open_bytes(&ftyp()).err(), Some(Error::invalid("MP4: missing moov box")));
    let empty = cat(&[ftyp(), boxed(b"moov", &mvhd())]);
    assert_eq!(open_bytes(&empty).err(), Some(Error::invalid("MP4: no tracks")));
    let bare = cat(&[ftyp(), boxed(b"moov", &cat(&[mvhd(), boxed(b"trak", &tkhd(1))]))]);
    assert_eq!(open_bytes(&bare).err(), Some(Error::invalid("MP4: no tracks")));
    let file = two_tracks(&[]);
    assert_eq!(open_bytes(&file[..file.len() - 1]).err(), Some(Error::invalid("MP4: truncated box payload")));
    let cut = cat(&[ftyp(), vec![0, 0, 0]]);
    assert_eq!(open_bytes(&cut).err(), Some(Error::invalid("MP4: truncated box header")));
    let small = cat(&[ftyp(), words(&[7, 0x6672_6565])]);
    assert_eq!(open_bytes(&small).err(), Some(Error::invalid("MP4: box smaller than its header")));
    let sidx = cat(&[ftyp(), words(&[0, 0x7369_6478])]);
    assert_eq!(open_bytes(&sidx).err(), Some(Error::invalid("MP4: open-ended sidx")));
    let moof = cat(&[ftyp(), words(&[0, 0x6D6F_6F66])]);
    assert_eq!(open_bytes(&moof).err(), Some(Error::invalid("MP4: open-ended moof")));
    // A box without a size runs to the end of the file, and one that is not read may be cut.
    let tail = cat(&[two_tracks(&[]), words(&[0, 0x6D64_6174, 1, 2])]);
    assert!(open_bytes(&tail).is_ok());
    let cut = cat(&[two_tracks(&[]), words(&[100, 0x6D64_6174, 1, 2])]);
    assert!(open_bytes(&cut).is_ok());
}

#[test]
fn seeking_without_indexes() {
    let mut d = open_bytes(&two_tracks(&[])).unwrap();
    assert_eq!(d.seek_to(1, 15), Ok(10));
    assert_eq!(d.next_packet().unwrap().offset, 400);
    assert_eq!(d.seek_to(1, 9), Ok(0));
    assert_eq!(d.next_packet().unwrap().offset, 200);
    assert_eq!(d.seek_to(0, -5), Ok(0));
    let before = d.cursor;
    assert_eq!(d.seek_to(2, 0), Err(Error::InvalidData(Detail::StreamOutOfRange(2))));
    assert_eq!(d.cursor, before);
    for s in d.samples.iter_mut() {
        s.keyframe = false;
    }
    let e = d.seek_to(1, 0).unwrap_err();
    assert_eq!(e, Error::NoKeyframe(1));
    assert_eq!(e.message(), "unsupported: MP4: no keyframes in stream 1 to seek to");
    assert_eq!(d.cursor, before);
}

#[test]
fn seeking_by_random_access_points() {
    let tfra = boxed(b"tfra", &cat(&[words(&[0, 2, 0, 2]), words(&[5, 150]), vec![1, 1, 1], words(&[8, 350]), vec![1, 1, 1]]));
    let file = cat(&[two_tracks(&[]), boxed(b"mfra", &tfra)]);
    let mut d = open_bytes(&file).unwrap();
    assert_eq!(d.tfra_seek_target(1, 7).unwrap().moof_offset, 150);
    assert_eq!(d.tfra_seek_target(1, 8).unwrap().moof_offset, 350);
    assert!(d.tfra_seek_target(1, 4).is_none());
    assert!(d.tfra_seek_target(0, 100).is_none());
    assert!(d.tfra_seek_target(9, 100).is_none());
    assert_eq!(d.seek_to(1, 9), Ok(10));
    assert_eq!(d.next_packet().unwrap().offset, 400);
    assert_eq!(d.seek_to(1, -1), Ok(0));
    assert_eq!(d.next_packet().unwrap().offset, 200);
}

#[test]
fn seeking_by_segment_indexes() {
    // Times in a timescale of half a millisecond; the index stands right before the data it is on.
    let head = two_tracks(&[]);
    let sidx = |ept: u32, first: u32| {
        boxed(b"sidx", &words(&[0, 1, 2000, ept, first, 2, 0x8000_0000, 0, 0, 100, 20, 0]))
    };
    let end = (head.len() + sidx(0, 0).len()) as u32;
    let file = cat(&[head, sidx(10, 1000)]);
    let mut d = open_bytes(&file).unwrap();
    let at = (end + 1000) as u64;
    assert_eq!(d.sidx_seek_target(0, 5), Some(at));
    assert_eq!(d.sidx_seek_target(0, 4), None);
    assert_eq!(d.sidx_seek_target(1, 5), None);
    for s in d.samples.iter_mut() {
        s.offset += at;
    }
    assert_eq!(d.seek_to(0, 0), Ok(0));
    assert_eq!(d.next_packet().unwrap().offset, 100 + at);
}

#[test]
fn metadata_of_boxes() {
    let name = boxed(b"\xa9nam", &boxed(b"data", b"\0\0\0\x01\0\0\0\0  A Title \n"));
    let other = boxed(b"abcd", &boxed(b"data", b"\0\0\0\x01\0\0\0\0x"));
    let ilst = boxed(b"ilst", &cat(&[name, other]));
    let meta = boxed(b"meta", &cat(&[words(&[0]), ilst]));
    let udta = boxed(b"udta", &meta);
    let leva = boxed(b"leva", &cat(&[vec![0, 0, 0, 0, 2], words(&[1]), vec![0x84], words(&[9]), words(&[2]), vec![2]]));
    let trep = boxed(b"trep", &cat(&[words(&[0, 1]), boxed(b"assp", &[0; 4])]));
    let mehd = boxed(b"mehd", &words(&[0, 3000]));
    let mvex = boxed(b"mvex", &cat(&[mehd, leva, trep]));
    let mut pssh = words(&[0]);
    pssh.extend_from_slice(&[0xAB; 16]);
    pssh.extend_from_slice(&words(&[3]));
    pssh.extend_from_slice(&[1, 2, 3]);
    let head = two_tracks(&[udta, mvex, boxed(b"pssh", &pssh)]);
    let pdin = boxed(b"pdin", &words(&[0, 100, 5]));
    let prft = boxed(b"prft", &words(&[0, 1, 0, 9, 4]));
    let ssix = boxed(b"ssix", &words(&[0, 2, 1, 0x0100_0005, 0]));
    let moof = boxed(b"moof", &cat(&[boxed(b"mfhd", &words(&[0, 6])), boxed(b"pssh", &pssh)]));
    let file = cat(&[head, pdin, prft, ssix, moof]);
    let d = open_bytes(&file).unwrap();
    let rows: Vec<(&str, &str)> = d.metadata().iter().map(|(k, v)| (k.as_str(), v.as_str())).collect();
    assert_eq!(
        rows,
        vec![
            ("title", "A Title"),
            ("mehd_fragment_duration", "3000"),
            ("pdin_count", "1"),
            ("pdin_0", "100 5"),
            ("leva_count", "2"),
            ("leva_0", "1 pad=1 at=4 sub_track_id=9"),
            ("leva_1", "2 pad=0 at=2"),
            ("trep_0", "1 children=1 assp"),
            ("prft_0", "1 9 4"),
            ("ssix_0", "2 1"),
            ("pssh_0", "abababababababababababababababab 0 3"),
            ("moof_pssh_0", "systemid=abababababababababababababababab seq=6 kids=0 data=3"),
        ]
    );
    assert_eq!(d.duration_micros(), Some(3_000_000));
    assert_eq!(d.pdin_entries().unwrap()[0].rate, 100);
    assert_eq!(d.leva_entries().unwrap().len(), 2);
    assert_eq!(d.treps()[0].children[0].payload_len, 4);
    assert_eq!(d.ssixes().len(), 1);
    assert_eq!(d.psshes()[0].data, vec![1, 2, 3]);
    assert_eq!(d.moof_psshes()[0].moof_sequence, 6);
    assert!(d.senc_records().is_empty() && d.sai_records().is_empty());
}

#[test]
fn texts_are_decoded() {
    let mut m = Vec::new();
    let utf16 = b"\0\0\0\0\0\0\xFE\xFF\0 \0H\0i\0\0\0\0";
    let latin = b"\0\0\0\0\0\0ab\xFFc\0rest";
    parse_udta(&cat(&[boxed(b"titl", utf16), boxed(b"auth", latin), boxed(b"gnre", b"\0\0\0\0\0\0")]), &mut m);
    assert_eq!(m, vec![
        (String::from("title"), String::from("Hi")),
        (String::from("artist"), String::from("ab\u{FFFD}c")),
    ]);
    assert_eq!(decode_utf8_or_utf16(b"\xFE\xFF\xD8\x3D\xDE\x00"), "\u{1F600}");
    assert_eq!(decode_utf8_or_utf16(b"\xFE\xFF\xD8\x3D"), "\u{FFFD}");
    assert_eq!(
        decode_utf8_or_utf16(b"\xFE\xFF\xD8\x34\xDD\x1E\0m\xDD\x1E\0i\xD8\x34\xD8\x34\xDD\x1E"),
        "\u{1D11E}m\u{FFFD}i\u{FFFD}\u{1D11E}"
    );
    assert_eq!(decode_utf8_or_utf16("\u{3000}x\u{2003}".as_bytes()), "x");
    assert_eq!(fourcc_token(b"ab c"), "ab c");
    assert_eq!(fourcc_token(b"ab\x01c"), "61620163");
    assert_eq!(fourcc_token(b"\xFFbcd"), "ff626364");
    let mut m = Vec::new();
    parse_ilst(&boxed(b"trkn", &boxed(b"data", b"\0\0\0\0\0\0\0\0\xC3\xA9 ")), &mut m);
    assert_eq!(m, vec![(String::from("track"), String::from("\u{E9}"))]);
}

#[test]
fn streams_know_their_sample_format() {
    let mut t = Track::blank();
    t.sample_size_bits = Some(24);
    t.codec_id_fourcc = *b"fLaC";
    let s = oxideav_mp4::stream::build_stream_info(4, &t, String::from("flac"));
    assert_eq!(s.params.sample_format, Some(SampleFormat::S24));
    assert_eq!((s.index, s.timescale, s.start_time), (4, 1, Some(0)));
    assert_eq!(s.params.media_type, MediaType::Data);
    let s = oxideav_mp4::stream::build_stream_info(0, &t, String::from("pcm_s16le"));
    assert_eq!(s.params.sample_format, Some(SampleFormat::S16));
    let s = oxideav_mp4::stream::build_stream_info(0, &t, String::from("aac"));
    assert_eq!(s.params.sample_format, None);
}

fn brand(preset: BrandPreset) -> Brand {
    Brand { preset, major: *b"iso6", compatible: vec![*b"iso6", *b"cmfc"] }
}

fn muxer(cadence: FragmentCadence, streams: u32, styp: bool) -> FragmentedMuxer {
    let init = (0..streams)
        .map(|i| InitTrack { tkhd: tkhd(i + 1), mdia: mdia(b"vide", 1000, &[]), media_time_scale: 1000 })
        .collect();
    let styp = if styp { Some(brand(BrandPreset::Other)) } else { None };
    open_fragmented(init, mvhd(), brand(BrandPreset::Mp4), true, cadence, styp).unwrap()
}

fn packet(stream_index: u32, pts: i64, keyframe: bool, data: &[u8]) -> MuxPacket {
    MuxPacket {
        stream_index,
        time_num: 1,
        time_den: 1000,
        pts: Some(pts),
        dts: Some(pts - 2),
        duration: Some(10),
        keyframe,
        data: data.to_vec(),
    }
}

/// Reads all packets of a file, with their data.
fn read_all(file: &[u8]) -> Vec<(u32, i64, i64, i64, bool, Vec<u8>)> {
    let mut d = open_bytes(file).unwrap();
    let mut out = Vec::new();
    while let Ok(p) = d.next_packet() {
        let at = p.offset as usize;
        out.push((p.stream_index, p.pts, p.dts, p.duration, p.keyframe, file[at..at + p.size as usize].to_vec()));
    }
    out
}

#[test]
fn a_written_file_is_read_back() {
    for styp in [false, true] {
        let mut m = muxer(FragmentCadence::EveryNPackets(2), 2, styp);
        let mut file = m.write_header().unwrap();
        file.extend(m.write_packet(&packet(0, 0, true, b"one")).unwrap());
        file.extend(m.write_packet(&packet(1, 0, true, b"sound")).unwrap());
        let first = m.write_packet(&packet(0, 10, false, b"two")).unwrap();
        assert!(!first.is_empty());
        file.extend(first);
        file.extend(m.write_packet(&packet(0, 20, false, b"three")).unwrap());
        file.extend(m.write_trailer().unwrap());
        assert_eq!(m.sequence_number, 2);
        let got = read_all(&file);
        assert_eq!(
            got,
            vec![
                (0, 2, 0, 10, true, b"one".to_vec()),
                (0, 12, 10, 10, false, b"two".to_vec()),
                (1, 2, 0, 10, true, b"sound".to_vec()),
                (0, 22, 20, 10, false, b"three".to_vec()),
            ]
        );
    }
}

#[test]
fn uneven_samples_are_read_back() {
    let mut m = muxer(FragmentCadence::AtEnd, 1, false);
    let mut file = m.write_header().unwrap();
    let rows: [(i64, bool, Option<i64>, &[u8]); 4] =
        [(0, true, Some(5), b"a"), (7, false, Some(6), b"bcd"), (9, true, Some(7), b""), (30, false, Some(0), b"ef")];
    for (pts, key, duration, data) in rows {
        let mut p = packet(0, pts, key, data);
        p.dts = Some(pts);
        p.duration = duration;
        assert!(m.write_packet(&p).unwrap().is_empty());
    }
    file.extend(m.write_trailer().unwrap());
    let got = read_all(&file);
    assert_eq!(
        got,
        vec![
            (0, 0, 0, 5, true, b"a".to_vec()),
            (0, 5, 5, 6, false, b"bcd".to_vec()),
            (0, 11, 11, 7, true, b"".to_vec()),
            (0, 18, 18, 1, false, b"ef".to_vec()),
        ]
    );
}

#[test]
fn durations_follow_from_times_where_they_are_missing() {
    let mut m = muxer(FragmentCadence::AtEnd, 1, false);
    m.write_header().unwrap();
    for (pts, want) in [(Some(100), 1), (Some(130), 30), (Some(120), 1), (None, 1), (Some(124), 3)] {
        let mut p = packet(0, 0, false, b"x");
        p.pts = pts;
        p.dts = None;
        p.duration = None;
        m.write_packet(&p).unwrap();
        assert_eq!(m.tracks[0].pending.last().unwrap().duration, want);
        assert_eq!(m.tracks[0].pending.last().unwrap().composition_time_offset, 0);
    }
    assert_eq!(m.tracks[0].cumulative_duration, 36);
    assert_eq!(m.tracks[0].packets_total, 5);
    assert_eq!((m.tracks[0].first_pts, m.tracks[0].prev_pts), (Some(100), Some(124)));
    assert_eq!(m.tracks[0].trex_default_sample_duration, 1);
}

#[test]
fn keyframes_start_fragments() {
    let mut m = muxer(FragmentCadence::EveryKeyframe, 1, false);
    let mut file = m.write_header().unwrap();
    assert!(m.write_packet(&packet(0, 0, true, b"k1")).unwrap().is_empty());
    assert!(m.write_packet(&packet(0, 10, false, b"p1")).unwrap().is_empty());
    let first = m.write_packet(&packet(0, 20, true, b"k2")).unwrap();
    assert!(!first.is_empty());
    assert_eq!(m.tracks[0].pending.len(), 1);
    assert_eq!(m.tracks[0].next_bmdt, 20);
    file.extend(first);
    file.extend(m.write_packet(&packet(0, 30, false, b"p2")).unwrap());
    file.extend(m.write_trailer().unwrap());
    let data: Vec<Vec<u8>> = read_all(&file).into_iter().map(|p| p.5).collect();
    assert_eq!(data, vec![b"k1".to_vec(), b"p1".to_vec(), b"k2".to_vec(), b"p2".to_vec()]);
}

#[test]
fn a_last_keyframe_waits_for_a_fragment_that_does_not_come() {
    let mut m = muxer(FragmentCadence::EveryKeyframe, 1, false);
    m.write_header().unwrap();
    m.write_packet(&packet(0, 0, true, b"k1")).unwrap();
    assert!(m.write_trailer().unwrap().is_empty());
    assert_eq!(m.tracks[0].pending.len(), 1);
    assert_eq!(m.tracks[0].cumulative_duration, 10);
    assert_eq!(m.sequence_number, 0);
}

#[test]
fn any_track_completes_a_fragment() {
    let mut m = muxer(FragmentCadence::EveryNPackets(2), 2, false);
    m.write_header().unwrap();
    assert!(m.write_packet(&packet(1, 0, true, b"a")).unwrap().is_empty());
    assert!(m.write_packet(&packet(0, 0, true, b"b")).unwrap().is_empty());
    assert!(!m.write_packet(&packet(1, 10, true, b"c")).unwrap().is_empty());
    assert_eq!((m.tracks[0].pending.len(), m.tracks[1].pending.len()), (0, 0));

    let mut m = muxer(FragmentCadence::EveryKeyframe, 2, false);
    m.write_header().unwrap();
    assert!(m.write_packet(&packet(0, 0, true, b"a")).unwrap().is_empty());
    assert!(m.write_packet(&packet(1, 0, true, b"b")).unwrap().is_empty());
    assert!(m.write_packet(&packet(1, 10, false, b"c")).unwrap().is_empty());
    assert!(!m.write_packet(&packet(1, 20, true, b"d")).unwrap().is_empty());
    assert_eq!(m.tracks[0].pending.len(), 0);
    assert_eq!(m.tracks[1].pending.len(), 1);
    assert_eq!(m.tracks[1].pending[0].data, b"d");
    assert_eq!((m.tracks[0].next_bmdt, m.tracks[1].next_bmdt), (10, 20));
}

#[test]
fn fragments_by_duration() {
    let mut m = muxer(FragmentCadence::EveryTicks(20), 2, false);
    m.write_header().unwrap();
    assert!(m.write_packet(&packet(0, 0, true, b"a")).unwrap().is_empty());
    assert!(m.write_packet(&packet(1, 0, true, b"b")).unwrap().is_empty());
    assert!(!m.write_packet(&packet(0, 10, true, b"c")).unwrap().is_empty());
    assert!(m.write_packet(&packet(1, 10, true, b"d")).unwrap().is_empty());
    assert_eq!((m.tracks[0].next_bmdt, m.tracks[1].next_bmdt), (20, 10));
}

#[test]
fn calls_in_the_wrong_order() {
    let mut m = muxer(FragmentCadence::EveryNPackets(0), 1, false);
    assert_eq!(m.format_name(), "mp4");
    let e = m.write_packet(&packet(0, 0, true, b"a")).unwrap_err();
    assert_eq!(e.message(), "mp4 muxer: write_header not called");
    let e = m.write_trailer().unwrap_err();
    assert_eq!(e.message(), "mp4 muxer: write_trailer before write_header");
    let head = m.write_header().unwrap();
    assert_eq!(&head[..24], b"\0\0\0\x18ftypiso6\0\0\x02\0iso6cmfc");
    let e = m.write_header().unwrap_err();
    assert_eq!(e.message(), "mp4 muxer: write_header called twice");
    let e = m.write_packet(&packet(3, 0, true, b"a")).unwrap_err();
    assert_eq!(e.message(), "invalid data: mp4 muxer: unknown stream index 3");
    for i in 0..5 {
        assert!(m.write_packet(&packet(0, i, true, b"a")).unwrap().is_empty());
    }
    assert!(!m.write_trailer().unwrap().is_empty());
    assert!(m.write_trailer().unwrap().is_empty());
    let e = open_fragmented(Vec::new(), mvhd(), brand(BrandPreset::Mov), true, FragmentCadence::AtEnd, None).err();
    assert_eq!(e, Some(Error::invalid("mp4 muxer: need at least one stream")));
    let mut m = muxer(FragmentCadence::AtEnd, 1, false);
    m.brand = brand(BrandPreset::Ismv);
    assert_eq!(m.format_name(), "ismv");
    m.fragmented = false;
    assert_eq!(m.format_name(), "mp4");
    m.brand = brand(BrandPreset::Mov);
    assert_eq!(m.format_name(), "mov");
    assert_eq!((sample_flags_for(true), sample_flags_for(false)), (0x0200_0000, 0x0001_0000));
}

#[test]
fn a_malformed_descriptor_inside_ends_the_list() {
    let nothing = EsdsInfo { dsi: Vec::new(), oti: None };
    // A decoder configuration that is too short.
    assert_eq!(parse_esds(&[3, 5, 0, 0, 0, 4, 0]), Some(nothing.clone()));
    // One that is longer than what holds it, and one without a length.
    assert_eq!(parse_esds(&[3, 5, 0, 0, 0, 6, 1]), Some(nothing.clone()));
    assert_eq!(parse_esds(&[3, 4, 0, 0, 0, 6]), Some(nothing));
    // One inside the decoder configuration: the object type stands.
    let mut b = vec![3, 20, 0, 0, 0, 4, 15, 0x40];
    b.extend_from_slice(&[0; 12]);
    b.extend_from_slice(&[5, 1]);
    assert_eq!(parse_esds(&b), Some(EsdsInfo { dsi: Vec::new(), oti: Some(0x40) }));
    // The outer descriptor: another tag, too long, too short, an address without a length.
    assert_eq!(parse_esds(&[4, 3, 0, 0, 0]), None);
    assert_eq!(parse_esds(&[3, 4, 0, 0, 0]), None);
    assert_eq!(parse_esds(&[3, 2, 0, 0]), None);
    assert_eq!(parse_esds(&[3, 3, 0, 0, 0x40]), None);
}

#[test]
fn codes_with_control_bytes_are_shown_as_digits() {
    let mut t = Track::blank();
    t.media_type = MediaType::Video;
    t.timescale = 90_000;
    t.codec_id_fourcc = *b"avc1";
    t.trgr = vec![([0, 1, 2, 3], 5), (*b"msrc", 6)];
    t.tref = vec![([0, 1, 2, 3], vec![7]), (*b"subt", vec![8, 9])];
    let s = build_stream_info(0, &t, String::from("h264"));
    assert_eq!(s.params.options.get("trgr_0"), Some("00010203 5"));
    assert_eq!(s.params.options.get("trgr_1"), Some("msrc 6"));
    assert_eq!(s.params.options.get("tref_00010203"), Some("7"));
    assert_eq!(s.params.options.get("tref_subt"), Some("8 9"));
}

/// A file whose sample tables end at 10, with an edit that starts at 3, and a track fragment behind it.
fn edited_file(traf: &[Vec<u8>]) -> Vec<u8> {
    let tables = [
        boxed(b"stts", &words(&[0, 1, 2, 5])),
        boxed(b"stsc", &words(&[0, 1, 1, 2, 1])),
        boxed(b"stsz", &words(&[0, 4, 2])),
        boxed(b"stco", &words(&[0, 1, 16])),
    ];
    let edts = boxed(b"edts", &boxed(b"elst", &words(&[0, 1, 10, 3, 0x1_0000])));
    let trak = boxed(b"trak", &cat(&[tkhd(1), edts, mdia(b"soun", 1000, &tables)]));
    let mfhd = boxed(b"mfhd", &words(&[0, 1]));
    let moof = boxed(b"moof", &cat(&[mfhd, boxed(b"traf", &cat(traf))]));
    cat(&[ftyp(), boxed(b"moov", &cat(&[mvhd(), trak])), moof])
}

fn dts_of(file: &[u8]) -> Vec<i64> {
    let mut d = open_bytes(file).unwrap();
    let mut out = Vec::new();
    while let Ok(p) = d.next_packet() {
        out.push(p.dts);
    }
    out
}

#[test]
fn a_fragment_goes_on_where_the_tables_end() {
    let tfhd = boxed(b"tfhd", &words(&[0x02_0000, 1]));
    let trun = boxed(b"trun", &words(&[0x301, 2, 5000, 4, 1, 4, 1]));
    assert_eq!(dts_of(&edited_file(&[tfhd.clone(), trun.clone()])), vec![-3, 2, 7, 11]);
    // With a time of its own, before the header or behind it.
    let tfdt = boxed(b"tfdt", &words(&[0x100_0000, 0, 5000]));
    assert_eq!(dts_of(&edited_file(&[tfhd.clone(), tfdt.clone(), trun.clone()])), vec![-3, 2, 4997, 5001]);
    assert_eq!(dts_of(&edited_file(&[tfdt, tfhd, trun])), vec![-3, 2, 4997, 5001]);
}

/// Searches for the codec of a track among codecs that answer as `codecs` says.
fn search(t: &Track, codecs: &[(CodecQuery, &str)]) -> (Vec<CodecQuery>, CodecStep) {
    let mut asked = Vec::new();
    let mut answer = None;
    loop {
        match next_codec_step(t, asked.last().copied(), answer) {
            CodecStep::Ask(q) => {
                answer = codecs.iter().find(|c| c.0 == q).map(|c| String::from(c.1));
                asked.push(q);
            }
            step => return (asked, step),
        }
    }
}

#[test]
fn the_first_answer_names_the_codec() {
    let mut t = Track::blank();
    t.codec_id_fourcc = *b"mp4a";
    let code = CodecQuery::Fourcc(*b"mp4a");
    let oti = CodecQuery::ObjectType(0x40);
    let found = |s: &str| CodecStep::Found(String::from(s));
    // Without an object type the code alone is asked for.
    assert_eq!(search(&t, &[(oti, "aac"), (code, "other")]), (vec![code], found("other")));
    assert_eq!(search(&t, &[(oti, "aac")]), (vec![code], CodecStep::FallBack(*b"mp4a", None)));
    // With one, the code is asked for only where nothing has answered to it.
    t.esds_oti = Some(0x40);
    assert_eq!(search(&t, &[(oti, "aac"), (code, "other")]), (vec![oti], found("aac")));
    assert_eq!(search(&t, &[(code, "other")]), (vec![oti, code], found("other")));
    assert_eq!(search(&t, &[]), (vec![oti, code], CodecStep::FallBack(*b"mp4a", Some(0x40))));
}

#[test]
fn times_are_put_into_the_timescale_of_the_track() {
    // Times in units of `num / den` seconds, and what comes of them at 1000 units in a second.
    let rows: [(i64, i64, i64, i64); 8] = [
        (90_000, 1, 90_000, 1000),
        (45, 1, 90_000, 1),
        (44, 1, 90_000, 0),
        (-45, 1, 90_000, -1),
        (3, 1001, 30_000, 100),
        (3, -1, -1000, 3),
        (7, 1, 0, 0),
        (i64::MAX, 1, 1, i64::MAX),
    ];
    for (v, num, den, want) in rows {
        let mut m = muxer(FragmentCadence::AtEnd, 1, false);
        m.write_header().unwrap();
        let mut p = packet(0, v, true, b"a");
        p.time_num = num;
        p.time_den = den;
        p.dts = Some(0);
        p.duration = Some(v);
        m.write_packet(&p).unwrap();
        let s = &m.tracks[0].pending[0];
        assert_eq!(m.tracks[0].prev_pts, Some(want));
        assert_eq!(s.duration, if want > 0 { want as u32 } else { 1 });
        assert_eq!(s.composition_time_offset, want as i32);
    }
}

#[test]
fn what_a_fragment_records_has_its_number() {
    let tfhd = boxed(b"tfhd", &words(&[0x02_0000, 1]));
    let saiz = boxed(b"saiz", &[0, 0, 0, 0, 8, 0, 0, 0, 1]);
    let traf = boxed(b"traf", &cat(&[tfhd, saiz]));
    let mfhd = boxed(b"mfhd", &words(&[0, 9]));
    // The header of a fragment may come last.
    for moof in [cat(&[mfhd.clone(), traf.clone()]), cat(&[traf, mfhd])] {
        let d = open_bytes(&cat(&[two_tracks(&[]), boxed(b"moof", &moof)])).unwrap();
        assert_eq!(d.sai_records().len(), 1);
        assert_eq!(d.sai_records()[0].moof_sequence, 9);
    }
}
