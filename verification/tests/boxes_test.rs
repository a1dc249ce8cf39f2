//! Parsing of the boxes of a file.
use oxideav_mp4::auxinfo::{parse_saio, parse_saiz, parse_subs};
use oxideav_mp4::entries::{parse_audio_sample_entry, parse_stsd, parse_subtitle_sample_entry};
use oxideav_mp4::error::Error;
use oxideav_mp4::esds::parse_esds_dsi;
use oxideav_mp4::flags::{parse_sample_flags, SampleFlags};
use oxideav_mp4::fragment::{
    parse_moof, parse_tfdt, parse_trun, MoofPsshRecord, MoofRecord, SaiRecord, SencRecord,
    TRUN_DATA_OFFSET_PRESENT, TRUN_SAMPLE_COMPOSITION_TIME_OFFSETS_PRESENT,
    TRUN_SAMPLE_DURATION_PRESENT, TRUN_SAMPLE_SIZE_PRESENT,
};
use oxideav_mp4::groups::{parse_csgp, parse_sbgp, parse_sgpd, BitCursor};
use oxideav_mp4::index::{
    build_ssix_box, parse_leva, parse_leva_box, parse_pdin, parse_pdin_box, parse_ssix, parse_ssix_box,
    parse_trep, parse_trep_box, PdinEntry, SsixRange, SsixRecord, SsixSubsegment,
};
use oxideav_mp4::movie::{parse_mehd, parse_trex};
use oxideav_mp4::samples::{expand_samples, SampleRef};
use oxideav_mp4::stream::build_stream_info;
use oxideav_mp4::tables::{parse_cslg, parse_padb, parse_sdtp, parse_stdp, parse_stsh, parse_vmhd};
use oxideav_mp4::track::{
    CopyrightRecord, CslgBox, MediaType, SaioBox, SaizBox, SbgpBox, SdtpEntry, SgpdBox, SubSampleEntry,
    SubTrack, SubTrackSampleGroup, SubsBox, SubsEntry, Track, TrexDefaults, TselBox, VmhdBox,
};
use oxideav_mp4::trak::{
    elst_leading_media_time, parse_cprt, parse_elng, parse_elst, parse_hdlr, parse_kind, parse_mdia,
    parse_minf, parse_stbl, parse_stri, parse_strk, parse_stsg, parse_track_udta, parse_trak,
    parse_tref, parse_trgr, parse_tsel,
};

fn build_esds_payload(asc: &[u8]) -> Vec<u8> {
    let mut dsi = Vec::new();
    dsi.push(0x05);
    dsi.push(asc.len() as u8);
    dsi.extend_from_slice(asc);

    // DecoderConfigDescriptor: tag 0x04, length = 13 + dsi.len().
    let mut dcd = vec![
        0x04,
        (13 + dsi.len()) as u8,
        0x40,               // object type: AAC
        (0x05 << 2) | 0x01, // stream type audio
    ];
    dcd.extend_from_slice(&[0, 0, 0]); // bufferSizeDB
    dcd.extend_from_slice(&[0, 0, 0, 0]); // maxBitrate
    dcd.extend_from_slice(&[0, 0, 0, 0]); // avgBitrate
    dcd.extend_from_slice(&dsi);

    // SLConfigDescriptor: tag 0x06, length 1, body 0x02.
    let slc = vec![0x06, 0x01, 0x02];

    // ES_Descriptor: tag 0x03, length = 3 + dcd + slc.
    let mut esd = Vec::new();
    esd.push(0x03);
    esd.push((3 + dcd.len() + slc.len()) as u8);
    esd.extend_from_slice(&[0, 0, 0]); // ES_ID + flags
    esd.extend_from_slice(&dcd);
    esd.extend_from_slice(&slc);
    esd
}

#[test]
fn extracts_asc_from_esds() {
    // Typical AAC-LC 44.1 kHz stereo ASC: 0x12, 0x10.
    let asc = [0x12, 0x10];
    let payload = build_esds_payload(&asc);
    let got = parse_esds_dsi(&payload).expect("dsi");
    assert_eq!(got, asc);
}

#[test]
fn handles_ber_multi_byte_length() {
    // Exercise the BER varint path by padding a descriptor length encoded
    // as 0x80 0x02 (two continuation bytes encoding the value 2).
    let asc = [0x11, 0x90];
    // Manually craft: tag 0x03, length encoded as 0x80|0x00, 0x80|0x00, 0x7F & len
    // Build the same ES_Descriptor body and then prefix tag/length directly.
    let mut body = Vec::new();
    body.extend_from_slice(&[0, 0, 0]); // ES_ID + flags

    // DCD with single-byte BER length
    let mut dsi = vec![0x05, asc.len() as u8];
    dsi.extend_from_slice(&asc);
    let mut dcd = vec![0x04, (13 + dsi.len()) as u8, 0x40, (0x05 << 2) | 0x01];
    dcd.extend_from_slice(&[0, 0, 0]);
    dcd.extend_from_slice(&[0, 0, 0, 0]);
    dcd.extend_from_slice(&[0, 0, 0, 0]);
    dcd.extend_from_slice(&dsi);
    body.extend_from_slice(&dcd);
    body.extend_from_slice(&[0x06, 0x01, 0x02]);

    // Prepend ES_Descriptor tag + 2-byte BER length.
    let body_len = body.len();
    assert!(body_len < 128);
    let hi = (body_len >> 7) as u8 | 0x80;
    let lo = (body_len & 0x7F) as u8;
    let mut payload = vec![0x03, hi, lo];
    payload.extend_from_slice(&body);

    let got = parse_esds_dsi(&payload).expect("dsi");
    assert_eq!(got, asc);
}

#[test]
fn rejects_non_es_descriptor() {
    let payload = vec![0x04, 0x01, 0x00];
    assert!(parse_esds_dsi(&payload).is_none());
}

/// Build a minimal AudioSampleEntryV0 (28-byte preamble) followed by
/// an arbitrary child box. Channels 2, sample-size 16, sample-rate
/// 48000, then `child_fourcc` carrying `child_body`.
fn build_audio_sample_entry(child_fourcc: &[u8; 4], child_body: &[u8]) -> Vec<u8> {
    let mut out = Vec::with_capacity(28 + 8 + child_body.len());
    // 28-byte preamble: 6 reserved + 2 data_ref_idx + 8 reserved
    // + 2 channels + 2 sample_size + 2 pre_defined + 2 reserved
    // + 4 sample_rate (16.16 fixed).
    out.extend_from_slice(&[0u8; 6]);
    out.extend_from_slice(&1u16.to_be_bytes()); // data_reference_index
    out.extend_from_slice(&[0u8; 8]); // reserved
    out.extend_from_slice(&2u16.to_be_bytes()); // channels
    out.extend_from_slice(&16u16.to_be_bytes()); // sample_size
    out.extend_from_slice(&[0u8; 4]); // pre_defined + reserved
    out.extend_from_slice(&((48_000u32) << 16).to_be_bytes()); // sample_rate 16.16
                                                               // Child box: 4-byte size + 4-byte fourcc + body.
    let total = (8 + child_body.len()) as u32;
    out.extend_from_slice(&total.to_be_bytes());
    out.extend_from_slice(child_fourcc);
    out.extend_from_slice(child_body);
    out
}

fn fresh_track() -> Track {
    Track {
        track_id: 0,
        media_type: MediaType::Audio,
        codec_id_fourcc: [0; 4],
        timescale: 0,
        duration: None,
        channels: None,
        sample_rate: None,
        sample_size_bits: None,
        width: None,
        height: None,
        extradata: Vec::new(),
        esds_oti: None,
        stts: Vec::new(),
        stsc: Vec::new(),
        stsz: Vec::new(),
        chunk_offsets: Vec::new(),
        stss: Vec::new(),
        ctts: Vec::new(),
        elst: Vec::new(),
        trex: TrexDefaults::default(),
        protection_scheme: None,
        tenc: None,
        tref: Vec::new(),
        trgr: Vec::new(),
        elng: None,
        kinds: Vec::new(),
        copyrights: Vec::new(),
        tsel: None,
        sub_tracks: Vec::new(),
        cslg: None,
        vmhd: None,
        stsh: Vec::new(),
        sbgp: Vec::new(),
        sgpd: Vec::new(),
        csgp: Vec::new(),
        sdtp: Vec::new(),
        stdp: Vec::new(),
        padb: Vec::new(),
        subs: Vec::new(),
        saiz: Vec::new(),
        saio: Vec::new(),
        stsd_entries: Vec::new(),
    }
}

fn build_enca_with_sinf(original: &[u8; 4], scheme: &[u8; 4]) -> Vec<u8> {
    // Preamble: 28 bytes.
    let mut out = Vec::new();
    out.extend_from_slice(&[0u8; 6]);
    out.extend_from_slice(&1u16.to_be_bytes());
    out.extend_from_slice(&[0u8; 8]);
    out.extend_from_slice(&2u16.to_be_bytes());
    out.extend_from_slice(&16u16.to_be_bytes());
    out.extend_from_slice(&[0u8; 4]);
    out.extend_from_slice(&((48_000u32) << 16).to_be_bytes());

    // Build sinf body: frma + schm.
    let mut sinf_body = Vec::new();
    // frma: 8 byte header + 4 byte data_format.
    sinf_body.extend_from_slice(&12u32.to_be_bytes());
    sinf_body.extend_from_slice(b"frma");
    sinf_body.extend_from_slice(original);
    // schm: 8 byte header + 4 byte FullBox version/flags + 4 byte
    // scheme_type + 4 byte scheme_version.
    sinf_body.extend_from_slice(&20u32.to_be_bytes());
    sinf_body.extend_from_slice(b"schm");
    sinf_body.extend_from_slice(&[0u8; 4]); // version + flags
    sinf_body.extend_from_slice(scheme);
    sinf_body.extend_from_slice(&[0u8; 4]); // scheme_version

    // sinf box header + body.
    let sinf_total = (8 + sinf_body.len()) as u32;
    out.extend_from_slice(&sinf_total.to_be_bytes());
    out.extend_from_slice(b"sinf");
    out.extend_from_slice(&sinf_body);
    out
}

#[test]
fn enca_sample_entry_recovers_original_format() {
    let entry_body = build_enca_with_sinf(b"mp4a", b"cenc");
    let mut stsd = Vec::new();
    stsd.extend_from_slice(&[0u8; 4]); // FullBox version/flags
    stsd.extend_from_slice(&1u32.to_be_bytes()); // entry_count
    let total = (8 + entry_body.len()) as u32;
    stsd.extend_from_slice(&total.to_be_bytes());
    stsd.extend_from_slice(b"enca");
    stsd.extend_from_slice(&entry_body);

    let mut t = fresh_track();
    parse_stsd(&stsd, &mut t).unwrap();
    assert_eq!(&t.codec_id_fourcc, b"mp4a");
    // Scheme type from sinf/schm.
    assert_eq!(t.protection_scheme, Some(*b"cenc"));
    // Preamble still parsed (channels populated despite the enc wrap).
    assert_eq!(t.channels, Some(2));
}

#[test]
fn encv_sample_entry_recovers_h264_original() {
    // Video variant: 78-byte preamble + sinf with frma=avc1, schm=cbcs.
    let mut entry_body = Vec::new();
    entry_body.extend_from_slice(&[0u8; 6]);
    entry_body.extend_from_slice(&1u16.to_be_bytes());
    entry_body.extend_from_slice(&[0u8; 16]); // pre_defined/reserved
    entry_body.extend_from_slice(&1280u16.to_be_bytes()); // width
    entry_body.extend_from_slice(&720u16.to_be_bytes()); // height
    entry_body.extend_from_slice(&((72u32) << 16).to_be_bytes()); // horizresolution
    entry_body.extend_from_slice(&((72u32) << 16).to_be_bytes()); // vertresolution
    entry_body.extend_from_slice(&[0u8; 4]); // reserved
    entry_body.extend_from_slice(&1u16.to_be_bytes()); // frame_count
    entry_body.extend_from_slice(&[0u8; 32]); // compressorname
    entry_body.extend_from_slice(&0x0018u16.to_be_bytes()); // depth
    entry_body.extend_from_slice(&(-1i16).to_be_bytes()); // pre_defined
                                                          // Total preamble: 78 bytes.
    assert_eq!(entry_body.len(), 78);

    let mut sinf_body = Vec::new();
    sinf_body.extend_from_slice(&12u32.to_be_bytes());
    sinf_body.extend_from_slice(b"frma");
    sinf_body.extend_from_slice(b"avc1");
    sinf_body.extend_from_slice(&20u32.to_be_bytes());
    sinf_body.extend_from_slice(b"schm");
    sinf_body.extend_from_slice(&[0u8; 4]);
    sinf_body.extend_from_slice(b"cbcs");
    sinf_body.extend_from_slice(&[0u8; 4]);

    let sinf_total = (8 + sinf_body.len()) as u32;
    entry_body.extend_from_slice(&sinf_total.to_be_bytes());
    entry_body.extend_from_slice(b"sinf");
    entry_body.extend_from_slice(&sinf_body);

    let mut stsd = Vec::new();
    stsd.extend_from_slice(&[0u8; 4]);
    stsd.extend_from_slice(&1u32.to_be_bytes());
    let total = (8 + entry_body.len()) as u32;
    stsd.extend_from_slice(&total.to_be_bytes());
    stsd.extend_from_slice(b"encv");
    stsd.extend_from_slice(&entry_body);

    let mut t = fresh_track();
    t.media_type = MediaType::Video;
    parse_stsd(&stsd, &mut t).unwrap();
    assert_eq!(&t.codec_id_fourcc, b"avc1");
    assert_eq!(t.protection_scheme, Some(*b"cbcs"));
    assert_eq!(t.width, Some(1280));
    assert_eq!(t.height, Some(720));
}

fn audio_sample_entry_body(channels: u16, dref: u16) -> Vec<u8> {
    let mut out = Vec::new();
    out.extend_from_slice(&[0u8; 6]); // reserved
    out.extend_from_slice(&dref.to_be_bytes()); // data_reference_index
    out.extend_from_slice(&[0u8; 8]); // reserved (2 × u32)
    out.extend_from_slice(&channels.to_be_bytes()); // channelcount
    out.extend_from_slice(&16u16.to_be_bytes()); // samplesize
    out.extend_from_slice(&[0u8; 4]); // pre_defined + reserved
    out.extend_from_slice(&((48_000u32) << 16).to_be_bytes()); // samplerate
    out
}

/// Wrap a SampleEntry body in its box header (size + FourCC).
fn boxed_sample_entry(fourcc: &[u8; 4], body: &[u8]) -> Vec<u8> {
    let mut out = Vec::new();
    let total = (8 + body.len()) as u32;
    out.extend_from_slice(&total.to_be_bytes());
    out.extend_from_slice(fourcc);
    out.extend_from_slice(body);
    out
}

/// Assemble a `stsd` body (FullBox header + entry_count + entries).
fn build_stsd(entries: &[Vec<u8>]) -> Vec<u8> {
    let mut out = Vec::new();
    out.extend_from_slice(&[0u8; 4]); // version + flags
    out.extend_from_slice(&(entries.len() as u32).to_be_bytes());
    for e in entries {
        out.extend_from_slice(e);
    }
    out
}

#[test]
fn stsd_records_all_entries_first_drives_active_codec() {
    let e0 = boxed_sample_entry(b"mp4a", &audio_sample_entry_body(2, 1));
    let e1 = boxed_sample_entry(b"ac-3", &audio_sample_entry_body(6, 1));
    let e2 = boxed_sample_entry(&[0x00, 0x01, 0x02, 0x03], &audio_sample_entry_body(1, 2));
    let stsd = build_stsd(&[e0, e1, e2]);

    let mut t = fresh_track();
    parse_stsd(&stsd, &mut t).unwrap();

    // Active codec is entry [0].
    assert_eq!(&t.codec_id_fourcc, b"mp4a");
    // Active entry's preamble still drives the audio fields.
    assert_eq!(t.channels, Some(2));

    // All three entries recorded in order with their FourCC + dref.
    assert_eq!(t.stsd_entries.len(), 3);
    assert_eq!(&t.stsd_entries[0].format, b"mp4a");
    assert_eq!(t.stsd_entries[0].data_reference_index, 1);
    assert_eq!(&t.stsd_entries[1].format, b"ac-3");
    assert_eq!(t.stsd_entries[1].data_reference_index, 1);
    assert_eq!(t.stsd_entries[2].format, [0x00, 0x01, 0x02, 0x03]);
    assert_eq!(t.stsd_entries[2].data_reference_index, 2);
}

#[test]
fn build_stream_info_surfaces_multi_stsd_on_options() {
    let e0 = boxed_sample_entry(b"mp4a", &audio_sample_entry_body(2, 1));
    let e1 = boxed_sample_entry(b"ac-3", &audio_sample_entry_body(6, 3));
    let stsd = build_stsd(&[e0, e1]);

    let mut t = fresh_track();
    t.timescale = 48_000;
    parse_stsd(&stsd, &mut t).unwrap();

    let info = build_stream_info(0, &t, String::from("unknown"));
    // entry_count surfaced.
    assert_eq!(info.params.options.get("stsd_count"), Some("2"));
    assert_eq!(info.params.options.get("stsd_1"), Some("mp4a dref=1"));
    assert_eq!(info.params.options.get("stsd_2"), Some("ac-3 dref=3"));
    // No phantom third key.
    assert_eq!(info.params.options.get("stsd_3"), None);
}

#[test]
fn build_stream_info_single_stsd_emits_no_keys() {
    // The overwhelmingly common single-description track surfaces no
    // stsd_* keys — the active codec already carries that info.
    let e0 = boxed_sample_entry(b"mp4a", &audio_sample_entry_body(2, 1));
    let stsd = build_stsd(&[e0]);

    let mut t = fresh_track();
    parse_stsd(&stsd, &mut t).unwrap();
    assert_eq!(t.stsd_entries.len(), 1);

    let info = build_stream_info(0, &t, String::from("unknown"));
    assert_eq!(info.params.options.get("stsd_count"), None);
    assert_eq!(info.params.options.get("stsd_1"), None);
}

#[test]
fn stsd_overcount_stops_at_present_entries() {
    // A forged entry_count larger than the bytes present: parse stops
    // at what it could read rather than inventing entries or erroring.
    let e0 = boxed_sample_entry(b"mp4a", &audio_sample_entry_body(2, 1));
    let e1 = boxed_sample_entry(b"ac-3", &audio_sample_entry_body(6, 1));
    let mut stsd = Vec::new();
    stsd.extend_from_slice(&[0u8; 4]); // version + flags
    stsd.extend_from_slice(&9u32.to_be_bytes()); // lie: claim 9 entries
    stsd.extend_from_slice(&e0);
    stsd.extend_from_slice(&e1);

    let mut t = fresh_track();
    parse_stsd(&stsd, &mut t).unwrap();
    // Only the two real entries are recorded.
    assert_eq!(t.stsd_entries.len(), 2);
    assert_eq!(&t.codec_id_fourcc, b"mp4a");
}

fn build_tenc_box_v0(kid: &[u8; 16], iv_size: u8) -> Vec<u8> {
    let mut body = Vec::new();
    body.extend_from_slice(&[0u8; 4]); // version=0 + flags
    body.push(0); // reserved
    body.push(0); // reserved
    body.push(1); // default_isProtected
    body.push(iv_size);
    body.extend_from_slice(kid);
    let mut out = Vec::with_capacity(8 + body.len());
    out.extend_from_slice(&((8 + body.len()) as u32).to_be_bytes());
    out.extend_from_slice(b"tenc");
    out.extend_from_slice(&body);
    out
}

fn build_tenc_box_v1_constant_iv(
    kid: &[u8; 16],
    crypt: u8,
    skip: u8,
    const_iv: &[u8],
) -> Vec<u8> {
    let mut body = Vec::new();
    body.extend_from_slice(&[1u8, 0, 0, 0]); // version=1 + flags
    body.push(0); // reserved
    body.push((crypt << 4) | (skip & 0x0F));
    body.push(1); // default_isProtected
    body.push(0); // default_Per_Sample_IV_Size = 0 ⇒ constant IV
    body.extend_from_slice(kid);
    body.push(const_iv.len() as u8);
    body.extend_from_slice(const_iv);
    let mut out = Vec::with_capacity(8 + body.len());
    out.extend_from_slice(&((8 + body.len()) as u32).to_be_bytes());
    out.extend_from_slice(b"tenc");
    out.extend_from_slice(&body);
    out
}

/// Build a `schi` box containing the given child box bytes
/// (already framed with their own 8-byte header).
fn build_schi_box(child: &[u8]) -> Vec<u8> {
    let mut out = Vec::with_capacity(8 + child.len());
    out.extend_from_slice(&((8 + child.len()) as u32).to_be_bytes());
    out.extend_from_slice(b"schi");
    out.extend_from_slice(child);
    out
}

fn build_sinf_body_with_schi(
    original: &[u8; 4],
    scheme: &[u8; 4],
    schi_child: &[u8],
) -> Vec<u8> {
    let mut sinf_body = Vec::new();
    // frma
    sinf_body.extend_from_slice(&12u32.to_be_bytes());
    sinf_body.extend_from_slice(b"frma");
    sinf_body.extend_from_slice(original);
    // schm
    sinf_body.extend_from_slice(&20u32.to_be_bytes());
    sinf_body.extend_from_slice(b"schm");
    sinf_body.extend_from_slice(&[0u8; 4]);
    sinf_body.extend_from_slice(scheme);
    sinf_body.extend_from_slice(&[0u8; 4]);
    // schi (containing tenc)
    let schi = build_schi_box(schi_child);
    sinf_body.extend_from_slice(&schi);
    sinf_body
}

fn build_enca_with_full_sinf(original: &[u8; 4], scheme: &[u8; 4], tenc_box: &[u8]) -> Vec<u8> {
    // 28-byte audio preamble.
    let mut out = Vec::new();
    out.extend_from_slice(&[0u8; 6]);
    out.extend_from_slice(&1u16.to_be_bytes());
    out.extend_from_slice(&[0u8; 8]);
    out.extend_from_slice(&2u16.to_be_bytes());
    out.extend_from_slice(&16u16.to_be_bytes());
    out.extend_from_slice(&[0u8; 4]);
    out.extend_from_slice(&((48_000u32) << 16).to_be_bytes());
    let sinf_body = build_sinf_body_with_schi(original, scheme, tenc_box);
    let sinf_total = (8 + sinf_body.len()) as u32;
    out.extend_from_slice(&sinf_total.to_be_bytes());
    out.extend_from_slice(b"sinf");
    out.extend_from_slice(&sinf_body);
    out
}

#[test]
fn enca_sample_entry_with_sinf_schi_tenc_populates_track_tenc_v0() {
    let kid: [u8; 16] = [
        0xAA, 0xBB, 0xCC, 0xDD, 0xEE, 0xFF, 0x00, 0x11, 0x22, 0x33, 0x44, 0x55, 0x66, 0x77,
        0x88, 0x99,
    ];
    let tenc_box = build_tenc_box_v0(&kid, 16);
    let entry_body = build_enca_with_full_sinf(b"mp4a", b"cenc", &tenc_box);
    let mut stsd = Vec::new();
    stsd.extend_from_slice(&[0u8; 4]);
    stsd.extend_from_slice(&1u32.to_be_bytes());
    let total = (8 + entry_body.len()) as u32;
    stsd.extend_from_slice(&total.to_be_bytes());
    stsd.extend_from_slice(b"enca");
    stsd.extend_from_slice(&entry_body);

    let mut t = fresh_track();
    parse_stsd(&stsd, &mut t).unwrap();
    assert_eq!(&t.codec_id_fourcc, b"mp4a");
    assert_eq!(t.protection_scheme, Some(*b"cenc"));
    let tenc = t.tenc.expect("tenc parsed from sinf/schi/tenc");
    assert_eq!(tenc.version, 0);
    assert_eq!(tenc.default_is_protected, 1);
    assert_eq!(tenc.default_per_sample_iv_size, 16);
    assert_eq!(tenc.default_kid, kid);
    assert!(tenc.default_constant_iv.is_none());
}

#[test]
fn encv_sample_entry_v1_pattern_with_constant_iv_lands_on_track() {
    // Build a v1 tenc with pattern 1:9 and an 8-byte constant IV,
    // wrap it in schi/sinf and an `encv` sample entry with scheme
    // `cbcs` (the typical CBC-S + pattern-encryption configuration).
    let kid = [0x01u8; 16];
    let civ = [0xDE, 0xAD, 0xBE, 0xEF, 0xCA, 0xFE, 0xBA, 0xBE];
    let tenc_box = build_tenc_box_v1_constant_iv(&kid, 1, 9, &civ);

    // 78-byte video preamble.
    let mut entry_body = Vec::new();
    entry_body.extend_from_slice(&[0u8; 6]);
    entry_body.extend_from_slice(&1u16.to_be_bytes());
    entry_body.extend_from_slice(&[0u8; 16]);
    entry_body.extend_from_slice(&1280u16.to_be_bytes());
    entry_body.extend_from_slice(&720u16.to_be_bytes());
    entry_body.extend_from_slice(&((72u32) << 16).to_be_bytes());
    entry_body.extend_from_slice(&((72u32) << 16).to_be_bytes());
    entry_body.extend_from_slice(&[0u8; 4]);
    entry_body.extend_from_slice(&1u16.to_be_bytes());
    entry_body.extend_from_slice(&[0u8; 32]);
    entry_body.extend_from_slice(&0x0018u16.to_be_bytes());
    entry_body.extend_from_slice(&(-1i16).to_be_bytes());
    assert_eq!(entry_body.len(), 78);

    let sinf_body = build_sinf_body_with_schi(b"avc1", b"cbcs", &tenc_box);
    let sinf_total = (8 + sinf_body.len()) as u32;
    entry_body.extend_from_slice(&sinf_total.to_be_bytes());
    entry_body.extend_from_slice(b"sinf");
    entry_body.extend_from_slice(&sinf_body);

    let mut stsd = Vec::new();
    stsd.extend_from_slice(&[0u8; 4]);
    stsd.extend_from_slice(&1u32.to_be_bytes());
    let total = (8 + entry_body.len()) as u32;
    stsd.extend_from_slice(&total.to_be_bytes());
    stsd.extend_from_slice(b"encv");
    stsd.extend_from_slice(&entry_body);

    let mut t = fresh_track();
    t.media_type = MediaType::Video;
    parse_stsd(&stsd, &mut t).unwrap();
    assert_eq!(&t.codec_id_fourcc, b"avc1");
    assert_eq!(t.protection_scheme, Some(*b"cbcs"));
    let tenc = t.tenc.expect("tenc parsed from sinf/schi/tenc");
    assert_eq!(tenc.version, 1);
    assert_eq!(tenc.default_crypt_byte_block, 1);
    assert_eq!(tenc.default_skip_byte_block, 9);
    assert_eq!(tenc.default_per_sample_iv_size, 0);
    assert_eq!(tenc.default_constant_iv.as_deref(), Some(&civ[..]));
}

#[test]
fn enca_sample_entry_without_tenc_leaves_track_tenc_none() {
    let entry_body = build_enca_with_sinf(b"mp4a", b"cenc");
    let mut stsd = Vec::new();
    stsd.extend_from_slice(&[0u8; 4]);
    stsd.extend_from_slice(&1u32.to_be_bytes());
    let total = (8 + entry_body.len()) as u32;
    stsd.extend_from_slice(&total.to_be_bytes());
    stsd.extend_from_slice(b"enca");
    stsd.extend_from_slice(&entry_body);

    let mut t = fresh_track();
    parse_stsd(&stsd, &mut t).unwrap();
    assert_eq!(&t.codec_id_fourcc, b"mp4a");
    assert_eq!(t.protection_scheme, Some(*b"cenc"));
    assert!(t.tenc.is_none());
}

#[test]
fn subtitle_handler_dispatches_subtitle_media_type() {
    // hdlr body layout: 4 bytes FullBox + 4 bytes pre_defined +
    // 4 bytes handler_type + 12 bytes reserved + name (null-term).
    let mut body = Vec::new();
    body.extend_from_slice(&[0u8; 4]); // FullBox
    body.extend_from_slice(&[0u8; 4]); // pre_defined
    body.extend_from_slice(b"subt"); // handler_type
    body.extend_from_slice(&[0u8; 12]); // reserved
    body.extend_from_slice(b"\0");

    let mut t = fresh_track();
    parse_hdlr(&body, &mut t).unwrap();
    assert_eq!(t.media_type, MediaType::Subtitle);

    // And `text` (timed text) also lands on Subtitle.
    let mut body2 = Vec::new();
    body2.extend_from_slice(&[0u8; 4]);
    body2.extend_from_slice(&[0u8; 4]);
    body2.extend_from_slice(b"text");
    body2.extend_from_slice(&[0u8; 12]);
    body2.extend_from_slice(b"\0");

    let mut t2 = fresh_track();
    parse_hdlr(&body2, &mut t2).unwrap();
    assert_eq!(t2.media_type, MediaType::Subtitle);

    // And `sbtl` (QuickTime subtitle handler) also lands on Subtitle.
    let mut body3 = Vec::new();
    body3.extend_from_slice(&[0u8; 4]);
    body3.extend_from_slice(&[0u8; 4]);
    body3.extend_from_slice(b"sbtl");
    body3.extend_from_slice(&[0u8; 12]);
    body3.extend_from_slice(b"\0");

    let mut t3 = fresh_track();
    parse_hdlr(&body3, &mut t3).unwrap();
    assert_eq!(t3.media_type, MediaType::Subtitle);
}

#[test]
fn tx3g_sample_entry_preserves_payload_as_extradata() {
    let mut entry = Vec::new();
    entry.extend_from_slice(&[0u8; 6]);
    entry.extend_from_slice(&1u16.to_be_bytes());
    // 18 bytes of "tx3g header" — arbitrary recognisable pattern.
    let tx3g_header = [
        0x00, 0x00, 0x00, 0x00, // display_flags
        0x00, 0x00, // horizontal/vertical justification
        0xFF, 0xFF, 0xFF, 0xFF, // background_color_rgba (white)
        0x00, 0x00, 0x00, 0x00, // default text box (top/left)
        0x00, 0x10, 0x00, 0x10, // default text box (bot/right)
    ];
    entry.extend_from_slice(&tx3g_header);

    let mut t = fresh_track();
    t.media_type = MediaType::Subtitle;
    t.codec_id_fourcc = *b"tx3g";
    parse_subtitle_sample_entry(&entry, &mut t).unwrap();
    // Post-preamble bytes preserved verbatim.
    assert_eq!(t.extradata, tx3g_header);
}

#[test]
fn stpp_sample_entry_preserves_xml_namespace_strings() {
    let mut entry = Vec::new();
    entry.extend_from_slice(&[0u8; 6]);
    entry.extend_from_slice(&1u16.to_be_bytes());
    entry.extend_from_slice(b"http://www.w3.org/ns/ttml\0\0\0");

    let mut t = fresh_track();
    t.media_type = MediaType::Subtitle;
    t.codec_id_fourcc = *b"stpp";
    parse_subtitle_sample_entry(&entry, &mut t).unwrap();
    assert!(t.extradata.starts_with(b"http://www.w3.org/ns/ttml"));
}

#[test]
fn surfaces_dac3_box_as_extradata() {
    let dac3 = [0x10, 0x4C, 0x40];
    let entry = build_audio_sample_entry(b"dac3", &dac3);
    let mut t = fresh_track();
    parse_audio_sample_entry(&entry, &mut t).unwrap();
    assert_eq!(t.extradata, dac3, "dac3 body should be surfaced verbatim");
    assert_eq!(t.channels, Some(2));
    assert_eq!(t.sample_rate, Some(48_000));
}

#[test]
fn surfaces_dec3_box_as_extradata() {
    let dec3 = [0x07, 0xC0, 0x20, 0x00, 0x00];
    let entry = build_audio_sample_entry(b"dec3", &dec3);
    let mut t = fresh_track();
    parse_audio_sample_entry(&entry, &mut t).unwrap();
    assert_eq!(t.extradata, dec3, "dec3 body should be surfaced verbatim");
}

#[test]
fn expand_samples_clamps_giant_samples_per_chunk() {
    let mut t = fresh_track();
    t.stsz = vec![1, 1, 1, 1]; // 4 samples
    t.stts = vec![(4, 100)]; // 4 samples × delta 100
    t.stsc = vec![(1, u32::MAX, 1)];
    t.chunk_offsets = vec![0, 100, 200, 300]; // 4 chunks
    let mut out = Vec::new();
    let start = std::time::Instant::now();
    expand_samples(&t, 0, &mut out).unwrap();
    let elapsed = start.elapsed();
    assert_eq!(out.len(), 4, "should yield exactly 4 samples");
    assert!(
        elapsed.as_millis() < 100,
        "expand_samples spun on adversarial spc: took {elapsed:?}",
    );
}

/// `tfdt` v0 carries `base_media_decode_time` as a 32-bit field.
#[test]
fn parse_tfdt_v0_carries_32bit_bmdt() {
    let mut body = Vec::new();
    body.extend_from_slice(&[0, 0, 0, 0]); // version 0 + flags
    body.extend_from_slice(&12_345u32.to_be_bytes());
    let bmdt = parse_tfdt(&body).unwrap();
    assert_eq!(bmdt, 12_345);
}

/// `tfdt` v1 carries `base_media_decode_time` as a 64-bit field.
#[test]
fn parse_tfdt_v1_carries_64bit_bmdt() {
    let mut body = Vec::new();
    body.extend_from_slice(&[1, 0, 0, 0]); // version 1 + flags
    body.extend_from_slice(&0x0000_0001_2345_6789u64.to_be_bytes());
    let bmdt = parse_tfdt(&body).unwrap();
    assert_eq!(bmdt, 0x0000_0001_2345_6789);
}

/// `trun` with explicit per-sample sizes / durations.
#[test]
fn parse_trun_extracts_sample_count_size_duration() {
    // flags: data-offset (0x000001) + sample-duration (0x000100)
    //      + sample-size (0x000200) = 0x000301
    let flags: u32 =
        TRUN_DATA_OFFSET_PRESENT | TRUN_SAMPLE_DURATION_PRESENT | TRUN_SAMPLE_SIZE_PRESENT;
    let mut body = Vec::new();
    body.push(0); // version
    body.extend_from_slice(&flags.to_be_bytes()[1..4]); // 24-bit flags
    body.extend_from_slice(&3u32.to_be_bytes()); // sample_count
    body.extend_from_slice(&0x12345678i32.to_be_bytes()); // data_offset
    for (dur, sz) in [(100u32, 50u32), (200, 60), (300, 70)] {
        body.extend_from_slice(&dur.to_be_bytes());
        body.extend_from_slice(&sz.to_be_bytes());
    }
    let parsed = parse_trun(&body).unwrap();
    assert_eq!(parsed.data_offset, Some(0x12345678));
    assert_eq!(parsed.samples.len(), 3);
    assert_eq!(parsed.samples[0].duration, Some(100));
    assert_eq!(parsed.samples[0].size, Some(50));
    assert_eq!(parsed.samples[2].duration, Some(300));
    assert_eq!(parsed.samples[2].size, Some(70));
}


/// `trun` with composition-time-offset (B-frames). v1 negative
/// offsets must be sign-extended.
#[test]
fn parse_trun_v1_signed_composition_offset() {
    let flags: u32 = TRUN_SAMPLE_COMPOSITION_TIME_OFFSETS_PRESENT;
    let mut body = Vec::new();
    body.push(1); // version 1 — signed cts offsets
    body.extend_from_slice(&flags.to_be_bytes()[1..4]);
    body.extend_from_slice(&2u32.to_be_bytes()); // sample_count
    body.extend_from_slice(&(-50i32).to_be_bytes());
    body.extend_from_slice(&(75i32).to_be_bytes());
    let parsed = parse_trun(&body).unwrap();
    assert_eq!(parsed.samples[0].composition_time_offset, Some(-50));
    assert_eq!(parsed.samples[1].composition_time_offset, Some(75));
}


/// `trex` populates per-track defaults that the fragment parser
/// reads when a `tfhd` doesn't override them.
#[test]
fn parse_trex_populates_track_defaults() {
    let mut t = fresh_track();
    t.track_id = 7;
    let mut tracks = vec![t];
    // FullBox header + track_ID(7) + DSDI(1) + ddur(1024) + dsiz(0) + dflg(0)
    let mut body = Vec::new();
    body.extend_from_slice(&[0, 0, 0, 0]); // version + flags
    body.extend_from_slice(&7u32.to_be_bytes()); // track_ID
    body.extend_from_slice(&1u32.to_be_bytes()); // DSDI
    body.extend_from_slice(&1024u32.to_be_bytes()); // default_sample_duration
    body.extend_from_slice(&0u32.to_be_bytes()); // default_sample_size
    body.extend_from_slice(&0u32.to_be_bytes()); // default_sample_flags
    parse_trex(&body, &mut tracks).unwrap();
    assert_eq!(tracks[0].trex.default_sample_duration, 1024);
    assert_eq!(tracks[0].trex.default_sample_description_index, 1);
}

/// Multi-segment `elst` records every entry; the leading-shift
/// helper picks the first non-empty `media_time`.
#[test]
fn parse_elst_v0_multi_segment() {
    // version 0, 2 entries:
    //   (dur=1000, media_time=-1, media_rate=0x10000)  // empty edit
    //   (dur=2000, media_time=500, media_rate=0x10000)
    let mut body = Vec::new();
    body.extend_from_slice(&[0, 0, 0, 0]); // version 0 + flags
    body.extend_from_slice(&2u32.to_be_bytes());
    // entry 1
    body.extend_from_slice(&1000u32.to_be_bytes());
    body.extend_from_slice(&(-1i32).to_be_bytes());
    body.extend_from_slice(&0x0001_0000u32.to_be_bytes());
    // entry 2
    body.extend_from_slice(&2000u32.to_be_bytes());
    body.extend_from_slice(&500i32.to_be_bytes());
    body.extend_from_slice(&0x0001_0000u32.to_be_bytes());
    let mut t = fresh_track();
    parse_elst(&body, &mut t).unwrap();
    assert_eq!(t.elst.len(), 2);
    assert_eq!(t.elst[0].media_time, -1);
    assert_eq!(t.elst[1].media_time, 500);
    assert_eq!(t.elst[1].segment_duration, 2000);
    assert_eq!(elst_leading_media_time(&t), 500);
}

#[test]
fn parse_tref_chap_single_id() {
    // Inner TrackReferenceTypeBox: size(12) "chap" track_ID(3)
    let inner = wrap_box_full_size(b"chap", &3u32.to_be_bytes());
    // Outer `tref` body is just the concatenation of inner boxes.
    let mut t = fresh_track();
    parse_tref(&inner, &mut t).unwrap();
    assert_eq!(t.tref.len(), 1);
    assert_eq!(&t.tref[0].0, b"chap");
    assert_eq!(t.tref[0].1, vec![3]);
}

/// Multiple typed references in one `tref` are surfaced in order.
#[test]
fn parse_tref_multiple_types() {
    let mut body = Vec::new();
    // subt → tracks 4, 5
    let mut subt_payload = Vec::new();
    subt_payload.extend_from_slice(&4u32.to_be_bytes());
    subt_payload.extend_from_slice(&5u32.to_be_bytes());
    body.extend(wrap_box_full_size(b"subt", &subt_payload));
    // cdsc → track 2
    body.extend(wrap_box_full_size(b"cdsc", &2u32.to_be_bytes()));
    let mut t = fresh_track();
    parse_tref(&body, &mut t).unwrap();
    assert_eq!(t.tref.len(), 2);
    assert_eq!(&t.tref[0].0, b"subt");
    assert_eq!(t.tref[0].1, vec![4, 5]);
    assert_eq!(&t.tref[1].0, b"cdsc");
    assert_eq!(t.tref[1].1, vec![2]);
}

#[test]
fn parse_tref_drops_zero_track_ids() {
    let mut payload = Vec::new();
    payload.extend_from_slice(&0u32.to_be_bytes());
    payload.extend_from_slice(&7u32.to_be_bytes());
    let body = wrap_box_full_size(b"font", &payload);
    let mut t = fresh_track();
    parse_tref(&body, &mut t).unwrap();
    assert_eq!(t.tref.len(), 1);
    assert_eq!(t.tref[0].1, vec![7]);
}

#[test]
fn parse_tref_misaligned_child_rejected() {
    let body = wrap_box_full_size(b"hint", &[0u8, 0, 0, 1, 0xFF]); // 5 bytes
    let mut t = fresh_track();
    let err = parse_tref(&body, &mut t).unwrap_err();
    assert!(matches!(err, Error::InvalidData(_)));
}

#[test]
fn parse_tref_duplicate_type_keeps_first() {
    let mut body = Vec::new();
    body.extend(wrap_box_full_size(b"subt", &1u32.to_be_bytes()));
    body.extend(wrap_box_full_size(b"subt", &2u32.to_be_bytes()));
    let mut t = fresh_track();
    parse_tref(&body, &mut t).unwrap();
    assert_eq!(t.tref.len(), 1);
    assert_eq!(t.tref[0].1, vec![1]);
}

/// Empty outer `tref` (no inner boxes) parses cleanly and yields no
/// references.
#[test]
fn parse_tref_empty_body_is_ok() {
    let mut t = fresh_track();
    parse_tref(&[], &mut t).unwrap();
    assert!(t.tref.is_empty());
}

/// Track references surface on `StreamInfo.params.options` as
/// `tref_<type>` keys whose value is a space-separated track-ID
/// list. Reference types with no IDs (after dropping zeros) are
/// suppressed.
#[test]
fn build_stream_info_surfaces_tref_on_options() {
    let mut t = fresh_track();
    t.media_type = MediaType::Subtitle;
    t.codec_id_fourcc = *b"tx3g";
    t.timescale = 1000;
    t.tref.push((*b"subt", vec![10, 11]));
    t.tref.push((*b"font", vec![20]));
    t.tref.push((*b"hint", vec![])); // empty after-zero strip: suppressed.
    let info = build_stream_info(0, &t, String::from("unknown"));
    assert_eq!(info.params.options.get("tref_subt"), Some("10 11"));
    assert_eq!(info.params.options.get("tref_font"), Some("20"));
    assert_eq!(info.params.options.get("tref_hint"), None);
}

#[test]
fn parse_trgr_msrc_single_child() {
    // Inner TrackGroupTypeBox: size(16) "msrc" [v+flags=0] track_group_id=42
    let mut inner_body = Vec::new();
    inner_body.extend_from_slice(&[0u8; 4]); // FullBox v0 + flags=0
    inner_body.extend_from_slice(&42u32.to_be_bytes());
    let body = wrap_box_full_size(b"msrc", &inner_body);
    let mut t = fresh_track();
    parse_trgr(&body, &mut t).unwrap();
    assert_eq!(t.trgr.len(), 1);
    assert_eq!(&t.trgr[0].0, b"msrc");
    assert_eq!(t.trgr[0].1, 42);
}

#[test]
fn parse_trgr_multiple_types() {
    let mut body = Vec::new();
    let mut msrc_payload = Vec::new();
    msrc_payload.extend_from_slice(&[0u8; 4]); // FullBox
    msrc_payload.extend_from_slice(&7u32.to_be_bytes());
    body.extend(wrap_box_full_size(b"msrc", &msrc_payload));
    let mut foo_payload = Vec::new();
    foo_payload.extend_from_slice(&[0u8; 4]); // FullBox
    foo_payload.extend_from_slice(&99u32.to_be_bytes());
    body.extend(wrap_box_full_size(b"foo ", &foo_payload));
    let mut t = fresh_track();
    parse_trgr(&body, &mut t).unwrap();
    assert_eq!(t.trgr.len(), 2);
    assert_eq!(&t.trgr[0].0, b"msrc");
    assert_eq!(t.trgr[0].1, 7);
    assert_eq!(&t.trgr[1].0, b"foo ");
    assert_eq!(t.trgr[1].1, 99);
}

#[test]
fn parse_trgr_repeated_type_kept_in_order() {
    let mut body = Vec::new();
    let mut p1 = Vec::new();
    p1.extend_from_slice(&[0u8; 4]);
    p1.extend_from_slice(&1u32.to_be_bytes());
    body.extend(wrap_box_full_size(b"msrc", &p1));
    let mut p2 = Vec::new();
    p2.extend_from_slice(&[0u8; 4]);
    p2.extend_from_slice(&2u32.to_be_bytes());
    body.extend(wrap_box_full_size(b"msrc", &p2));
    let mut t = fresh_track();
    parse_trgr(&body, &mut t).unwrap();
    assert_eq!(t.trgr.len(), 2);
    assert_eq!(t.trgr[0].1, 1);
    assert_eq!(t.trgr[1].1, 2);
}

#[test]
fn parse_trgr_short_child_rejected() {
    // 7-byte body: FullBox preamble + only 3 bytes where the id
    // should go.
    let body = wrap_box_full_size(b"msrc", &[0u8, 0, 0, 0, 0, 0, 0]);
    let mut t = fresh_track();
    let err = parse_trgr(&body, &mut t).unwrap_err();
    assert!(matches!(err, Error::InvalidData(_)));
}

#[test]
fn parse_trgr_skips_unknown_version_child() {
    let mut body = Vec::new();
    // Child 1: version = 1, skip.
    let mut p1 = Vec::new();
    p1.extend_from_slice(&[1u8, 0, 0, 0]); // version = 1
    p1.extend_from_slice(&5u32.to_be_bytes());
    body.extend(wrap_box_full_size(b"msrc", &p1));
    // Child 2: version = 0, kept.
    let mut p2 = Vec::new();
    p2.extend_from_slice(&[0u8; 4]);
    p2.extend_from_slice(&8u32.to_be_bytes());
    body.extend(wrap_box_full_size(b"msrc", &p2));
    let mut t = fresh_track();
    parse_trgr(&body, &mut t).unwrap();
    assert_eq!(t.trgr.len(), 1);
    assert_eq!(t.trgr[0].1, 8);
}

#[test]
fn parse_trgr_ignores_trailing_extension_bytes() {
    let mut inner_body = Vec::new();
    inner_body.extend_from_slice(&[0u8; 4]); // FullBox
    inner_body.extend_from_slice(&13u32.to_be_bytes());
    inner_body.extend_from_slice(&[0xCA, 0xFE, 0xBA, 0xBE]); // extension
    let body = wrap_box_full_size(b"msrc", &inner_body);
    let mut t = fresh_track();
    parse_trgr(&body, &mut t).unwrap();
    assert_eq!(t.trgr.len(), 1);
    assert_eq!(t.trgr[0].1, 13);
}

/// Empty outer `trgr` (no inner boxes) parses cleanly and yields no
/// entries.
#[test]
fn parse_trgr_empty_body_is_ok() {
    let mut t = fresh_track();
    parse_trgr(&[], &mut t).unwrap();
    assert!(t.trgr.is_empty());
}

/// `parse_trak` accepts a `trgr` box nested under `trak` and lands
/// its child entries on the resulting Track. Confirms the routing
/// glue inside `parse_trak`'s box match (not just the standalone
/// parser).
#[test]
fn parse_trak_picks_up_nested_trgr() {
    let mut tkhd = vec![0u8; 92]; // FullBox v0 + 84 bytes
    tkhd[12..16].copy_from_slice(&1u32.to_be_bytes()); // track_id = 1

    let mut mdhd = vec![0u8; 24];
    mdhd[12..16].copy_from_slice(&1000u32.to_be_bytes()); // timescale

    let mut hdlr = Vec::new();
    hdlr.extend_from_slice(&[0u8; 8]); // FullBox + pre_defined
    hdlr.extend_from_slice(b"vide"); // handler_type
    hdlr.extend_from_slice(&[0u8; 12]); // reserved[3]
    hdlr.extend_from_slice(b"\0"); // name (empty C string)

    let mut mdia = Vec::new();
    mdia.extend(wrap_box_full_size(b"mdhd", &mdhd));
    mdia.extend(wrap_box_full_size(b"hdlr", &hdlr));

    // trgr containing one msrc child with track_group_id = 555.
    let mut trgr_body = Vec::new();
    let mut msrc_body = Vec::new();
    msrc_body.extend_from_slice(&[0u8; 4]); // FullBox
    msrc_body.extend_from_slice(&555u32.to_be_bytes());
    trgr_body.extend(wrap_box_full_size(b"msrc", &msrc_body));

    let mut trak = Vec::new();
    trak.extend(wrap_box_full_size(b"tkhd", &tkhd));
    trak.extend(wrap_box_full_size(b"mdia", &mdia));
    trak.extend(wrap_box_full_size(b"trgr", &trgr_body));

    let t = parse_trak(&trak).unwrap().unwrap();
    assert_eq!(t.trgr.len(), 1);
    assert_eq!(&t.trgr[0].0, b"msrc");
    assert_eq!(t.trgr[0].1, 555);
}

#[test]
fn build_stream_info_surfaces_trgr_on_options() {
    let mut t = fresh_track();
    t.media_type = MediaType::Video;
    t.codec_id_fourcc = *b"avc1";
    t.timescale = 90_000;
    t.trgr.push((*b"msrc", 7));
    t.trgr.push((*b"msrc", 42)); // second of same type still surfaced.
    let info = build_stream_info(0, &t, String::from("unknown"));
    assert_eq!(info.params.options.get("trgr_0"), Some("msrc 7"));
    assert_eq!(info.params.options.get("trgr_1"), Some("msrc 42"));
}

#[test]
fn parse_elng_reads_bcp47_tag() {
    let mut body = Vec::new();
    body.extend_from_slice(&[0u8; 4]); // FullBox version+flags
    body.extend_from_slice(b"en-US\0"); // NULL-terminated tag
    let mut t = fresh_track();
    parse_elng(&body, &mut t);
    assert_eq!(t.elng.as_deref(), Some("en-US"));
}

/// A tag with region+script subtags (`zh-Hant-HK`) round-trips, and a
/// tag without an explicit NUL terminator (technically malformed but
/// tolerated) still parses.
#[test]
fn parse_elng_subtags_and_missing_nul() {
    let mut body = Vec::new();
    body.extend_from_slice(&[0u8; 4]);
    body.extend_from_slice(b"zh-Hant-HK\0");
    let mut t = fresh_track();
    parse_elng(&body, &mut t);
    assert_eq!(t.elng.as_deref(), Some("zh-Hant-HK"));

    // No trailing NUL: read to end of body.
    let mut body2 = Vec::new();
    body2.extend_from_slice(&[0u8; 4]);
    body2.extend_from_slice(b"fr-FR");
    let mut t2 = fresh_track();
    parse_elng(&body2, &mut t2);
    assert_eq!(t2.elng.as_deref(), Some("fr-FR"));
}

/// A too-short or empty-string `elng` leaves the track with no
/// extended language and never panics.
#[test]
fn parse_elng_malformed_is_silently_skipped() {
    // Only 3 bytes — shorter than the FullBox preamble.
    let mut t = fresh_track();
    parse_elng(&[0, 0, 0], &mut t);
    assert_eq!(t.elng, None);

    // FullBox preamble then an immediate NUL (empty tag).
    let mut body = Vec::new();
    body.extend_from_slice(&[0u8; 4]);
    body.push(0);
    let mut t2 = fresh_track();
    parse_elng(&body, &mut t2);
    assert_eq!(t2.elng, None);
}

/// The extended language tag surfaces on
/// `StreamInfo.params.options["language"]`.
#[test]
fn build_stream_info_surfaces_elng_on_options() {
    let mut t = fresh_track();
    t.media_type = MediaType::Audio;
    t.codec_id_fourcc = *b"mp4a";
    t.timescale = 48000;
    t.elng = Some("de-DE".to_string());
    let info = build_stream_info(0, &t, String::from("unknown"));
    assert_eq!(info.params.options.get("language"), Some("de-DE"));
}

/// No `elng` box → no `language` option (caller falls back to mdhd).
#[test]
fn build_stream_info_no_elng_no_language_option() {
    let mut t = fresh_track();
    t.media_type = MediaType::Audio;
    t.codec_id_fourcc = *b"mp4a";
    t.timescale = 48000;
    let info = build_stream_info(0, &t, String::from("unknown"));
    assert_eq!(info.params.options.get("language"), None);
}

/// End-to-end: an `elng` box nested inside `mdia` is picked up by
/// `parse_mdia` and lands on the track.
#[test]
fn parse_mdia_picks_up_nested_elng() {
    // Minimal mdhd (v0, 24 bytes) so timescale is set, then elng.
    let mut mdhd = Vec::new();
    mdhd.extend_from_slice(&[0u8; 4]); // version+flags
    mdhd.extend_from_slice(&[0u8; 8]); // creation+modification time
    mdhd.extend_from_slice(&1000u32.to_be_bytes()); // timescale
    mdhd.extend_from_slice(&0u32.to_be_bytes()); // duration
    mdhd.extend_from_slice(&[0u8; 4]); // language + pre_defined

    let mut elng = Vec::new();
    elng.extend_from_slice(&[0u8; 4]);
    elng.extend_from_slice(b"es-419\0");

    let mut mdia = Vec::new();
    mdia.extend(wrap_box_full_size(b"mdhd", &mdhd));
    mdia.extend(wrap_box_full_size(b"elng", &elng));

    let mut t = fresh_track();
    parse_mdia(&mdia, &mut t).unwrap();
    assert_eq!(t.timescale, 1000);
    assert_eq!(t.elng.as_deref(), Some("es-419"));
}

/// Build a self-contained Box (size + FourCC + payload, 32-bit
/// size field). Used as a building block for stuffing typed
/// reference children into a synthetic `tref` body.
fn wrap_box_full_size(fourcc: &[u8; 4], payload: &[u8]) -> Vec<u8> {
    let total = (8 + payload.len()) as u32;
    let mut out = Vec::with_capacity(total as usize);
    out.extend_from_slice(&total.to_be_bytes());
    out.extend_from_slice(fourcc);
    out.extend_from_slice(payload);
    out
}

#[test]
fn parse_kind_uri_only() {
    let mut body = Vec::new();
    body.extend_from_slice(&[0u8; 4]); // FullBox version+flags
    body.extend_from_slice(b"urn:mpeg:dash:role:2011\0");
    body.extend_from_slice(b"\0"); // empty value
    let mut t = fresh_track();
    parse_kind(&body, &mut t);
    assert_eq!(t.kinds.len(), 1);
    assert_eq!(t.kinds[0].0, "urn:mpeg:dash:role:2011");
    assert_eq!(t.kinds[0].1, "");
}

#[test]
fn parse_kind_uri_and_value() {
    let mut body = Vec::new();
    body.extend_from_slice(&[0u8; 4]);
    body.extend_from_slice(b"urn:mpeg:dash:role:2011\0");
    body.extend_from_slice(b"main\0");
    let mut t = fresh_track();
    parse_kind(&body, &mut t);
    assert_eq!(t.kinds.len(), 1);
    assert_eq!(t.kinds[0].0, "urn:mpeg:dash:role:2011");
    assert_eq!(t.kinds[0].1, "main");
}

/// A box that lacks the trailing value NUL is tolerated — the
/// value string is taken up to the end of the box. Matches the
/// `parse_elng` posture for optional-string boxes.
#[test]
fn parse_kind_missing_value_nul_tolerated() {
    let mut body = Vec::new();
    body.extend_from_slice(&[0u8; 4]);
    body.extend_from_slice(b"urn:example:role\0");
    body.extend_from_slice(b"alt"); // no trailing NUL
    let mut t = fresh_track();
    parse_kind(&body, &mut t);
    assert_eq!(t.kinds.len(), 1);
    assert_eq!(t.kinds[0].0, "urn:example:role");
    assert_eq!(t.kinds[0].1, "alt");
}

/// Empty URI (just two NULs) yields no kind — a kind with no URI
/// has nothing to identify.
#[test]
fn parse_kind_empty_uri_dropped() {
    let mut body = Vec::new();
    body.extend_from_slice(&[0u8; 4]);
    body.extend_from_slice(b"\0\0");
    let mut t = fresh_track();
    parse_kind(&body, &mut t);
    assert!(t.kinds.is_empty());
}

/// A too-short body (smaller than the FullBox preamble) is
/// silently skipped — the box is informational and a malformed
/// entry should never abort the demux.
#[test]
fn parse_kind_too_short_is_silently_skipped() {
    let mut t = fresh_track();
    parse_kind(&[0, 0, 0], &mut t);
    assert!(t.kinds.is_empty());
}

#[test]
fn parse_track_udta_collects_multiple_kinds() {
    let mut k1 = Vec::new();
    k1.extend_from_slice(&[0u8; 4]);
    k1.extend_from_slice(b"urn:mpeg:dash:role:2011\0");
    k1.extend_from_slice(b"caption\0");
    let mut k2 = Vec::new();
    k2.extend_from_slice(&[0u8; 4]);
    k2.extend_from_slice(b"urn:apple:hap:subtitles\0\0");

    let mut udta = Vec::new();
    udta.extend(wrap_box_full_size(b"kind", &k1));
    udta.extend(wrap_box_full_size(b"kind", &k2));

    let mut t = fresh_track();
    parse_track_udta(&udta, &mut t);
    assert_eq!(t.kinds.len(), 2);
    assert_eq!(t.kinds[0].0, "urn:mpeg:dash:role:2011");
    assert_eq!(t.kinds[0].1, "caption");
    assert_eq!(t.kinds[1].0, "urn:apple:hap:subtitles");
    assert_eq!(t.kinds[1].1, "");
}

/// Non-`kind` children inside a track-level `udta` are skipped
/// (file-wide metadata is the moov-level `udta` parser's job).
#[test]
fn parse_track_udta_ignores_non_kind_children() {
    // A `titl` inside a track-level udta: not a kind,
    // shouldn't crash, and shouldn't populate the kinds list.
    let mut titl = Vec::new();
    titl.extend_from_slice(&[0u8; 6]); // FullBox + 2-byte lang
    titl.extend_from_slice(b"My Track\0");
    let mut udta = Vec::new();
    udta.extend(wrap_box_full_size(b"titl", &titl));

    let mut t = fresh_track();
    parse_track_udta(&udta, &mut t);
    assert!(t.kinds.is_empty());
}

#[test]
fn build_stream_info_surfaces_kinds_on_options() {
    let mut t = fresh_track();
    t.media_type = MediaType::Subtitle;
    t.codec_id_fourcc = *b"wvtt";
    t.timescale = 1000;
    t.kinds
        .push(("urn:mpeg:dash:role:2011".to_string(), "caption".to_string()));
    t.kinds
        .push(("urn:apple:hap:subtitles".to_string(), String::new()));
    let info = build_stream_info(0, &t, String::from("unknown"));
    assert_eq!(
        info.params.options.get("kind_0"),
        Some("urn:mpeg:dash:role:2011 caption")
    );
    assert_eq!(
        info.params.options.get("kind_1"),
        Some("urn:apple:hap:subtitles")
    );
    assert_eq!(info.params.options.get("kind_2"), None);
}

/// A track with no `kind` boxes surfaces no `kind_*` options.
#[test]
fn build_stream_info_no_kind_no_kind_options() {
    let mut t = fresh_track();
    t.media_type = MediaType::Audio;
    t.codec_id_fourcc = *b"mp4a";
    t.timescale = 48000;
    let info = build_stream_info(0, &t, String::from("unknown"));
    assert_eq!(info.params.options.get("kind_0"), None);
}

/// End-to-end: a `kind` box nested inside `trak/udta` is picked up
/// by `parse_trak` and lands on the track.
#[test]
fn parse_trak_picks_up_nested_kind() {
    // Minimal tkhd (v0): FullBox (4) + created (4) + modified (4) +
    // track_ID (4) + reserved (4) + duration (4) + reserved (8) +
    // layer (2) + alt_group (2) + volume (2) + reserved (2) +
    // matrix (36) + width (4) + height (4) = 84 bytes.
    let mut tkhd = vec![0u8; 84];
    // Set track_ID at offset 4+4+4 = 12.
    tkhd[12..16].copy_from_slice(&7u32.to_be_bytes());
    // Minimal mdhd (v0, 24 bytes).
    let mut mdhd = Vec::new();
    mdhd.extend_from_slice(&[0u8; 4]); // version+flags
    mdhd.extend_from_slice(&[0u8; 8]); // created+modified
    mdhd.extend_from_slice(&1000u32.to_be_bytes()); // timescale
    mdhd.extend_from_slice(&0u32.to_be_bytes()); // duration
    mdhd.extend_from_slice(&[0u8; 4]); // language + pre_defined
                                       // Minimal hdlr identifying a video track.
    let mut hdlr = Vec::new();
    hdlr.extend_from_slice(&[0u8; 4]); // FullBox
    hdlr.extend_from_slice(&[0u8; 4]); // pre_defined
    hdlr.extend_from_slice(b"vide"); // handler_type
    hdlr.extend_from_slice(&[0u8; 12]); // reserved
    hdlr.push(0); // name (empty C string)
                  // Wrap the mdhd + hdlr into a minimal mdia.
    let mut mdia = Vec::new();
    mdia.extend(wrap_box_full_size(b"mdhd", &mdhd));
    mdia.extend(wrap_box_full_size(b"hdlr", &hdlr));
    // Minimal `kind` box: URI = "urn:mpeg:dash:role:2011", value = "main".
    let mut kind = Vec::new();
    kind.extend_from_slice(&[0u8; 4]);
    kind.extend_from_slice(b"urn:mpeg:dash:role:2011\0");
    kind.extend_from_slice(b"main\0");
    // Wrap kind in a track-level udta.
    let mut udta = Vec::new();
    udta.extend(wrap_box_full_size(b"kind", &kind));
    // Assemble the trak body.
    let mut trak = Vec::new();
    trak.extend(wrap_box_full_size(b"tkhd", &tkhd));
    trak.extend(wrap_box_full_size(b"mdia", &mdia));
    trak.extend(wrap_box_full_size(b"udta", &udta));

    let t = parse_trak(&trak).unwrap().unwrap();
    assert_eq!(t.track_id, 7);
    assert_eq!(t.kinds.len(), 1);
    assert_eq!(t.kinds[0].0, "urn:mpeg:dash:role:2011");
    assert_eq!(t.kinds[0].1, "main");
}

fn pack_lang(tag: &[u8; 3]) -> [u8; 2] {
    let c0 = (tag[0] - 0x60) as u16;
    let c1 = (tag[1] - 0x60) as u16;
    let c2 = (tag[2] - 0x60) as u16;
    let packed = (c0 << 10) | (c1 << 5) | c2;
    packed.to_be_bytes()
}

#[test]
fn parse_cprt_ascii_eng_notice() {
    let mut body = Vec::new();
    body.extend_from_slice(&[0u8; 4]); // FullBox version 0 + flags 0
    body.extend_from_slice(&pack_lang(b"eng"));
    body.extend_from_slice(b"(c) 2026 Example\0");
    let mut t = fresh_track();
    parse_cprt(&body, &mut t);
    assert_eq!(t.copyrights.len(), 1);
    assert_eq!(&t.copyrights[0].language, b"eng");
    assert_eq!(t.copyrights[0].notice, "(c) 2026 Example");
}

#[test]
fn parse_cprt_utf16be_notice_with_bom() {
    let mut body = Vec::new();
    body.extend_from_slice(&[0u8; 4]); // FullBox
    body.extend_from_slice(&pack_lang(b"jpn"));
    // BOM + "あ" (U+3042) + NULL terminator (U+0000).
    body.extend_from_slice(&[0xFE, 0xFF]);
    body.extend_from_slice(&[0x30, 0x42]);
    body.extend_from_slice(&[0x00, 0x00]);
    let mut t = fresh_track();
    parse_cprt(&body, &mut t);
    assert_eq!(t.copyrights.len(), 1);
    assert_eq!(&t.copyrights[0].language, b"jpn");
    assert_eq!(t.copyrights[0].notice, "あ");
}

#[test]
fn parse_cprt_unknown_version_is_dropped() {
    let mut body = Vec::new();
    body.push(1);
    body.extend_from_slice(&[0u8; 3]); // flags
    body.extend_from_slice(&pack_lang(b"eng"));
    body.extend_from_slice(b"ignored\0");
    let mut t = fresh_track();
    parse_cprt(&body, &mut t);
    assert!(t.copyrights.is_empty());
}

#[test]
fn parse_cprt_too_short_is_silently_dropped() {
    let mut t = fresh_track();
    parse_cprt(&[0, 0, 0, 0, 0], &mut t);
    assert!(t.copyrights.is_empty());
}

/// A `cprt` with an empty notice (just the FullBox + language +
/// terminator) is preserved as an empty-string entry. The decoded
/// language tag is still meaningful — "the track declares an empty
/// notice for this language" is not the same as the absence of
/// any `cprt` box.
#[test]
fn parse_cprt_empty_notice_preserves_language() {
    let mut body = Vec::new();
    body.extend_from_slice(&[0u8; 4]);
    body.extend_from_slice(&pack_lang(b"fra"));
    body.push(0); // notice is just the terminator
    let mut t = fresh_track();
    parse_cprt(&body, &mut t);
    assert_eq!(t.copyrights.len(), 1);
    assert_eq!(&t.copyrights[0].language, b"fra");
    assert_eq!(t.copyrights[0].notice, "");
}

#[test]
fn parse_track_udta_collects_multiple_cprts() {
    let mut c1 = Vec::new();
    c1.extend_from_slice(&[0u8; 4]);
    c1.extend_from_slice(&pack_lang(b"eng"));
    c1.extend_from_slice(b"(c) 2026 Example\0");
    let mut c2 = Vec::new();
    c2.extend_from_slice(&[0u8; 4]);
    c2.extend_from_slice(&pack_lang(b"fra"));
    c2.extend_from_slice(b"(c) 2026 Exemple\0");

    let mut udta = Vec::new();
    udta.extend(wrap_box_full_size(b"cprt", &c1));
    udta.extend(wrap_box_full_size(b"cprt", &c2));

    let mut t = fresh_track();
    parse_track_udta(&udta, &mut t);
    assert_eq!(t.copyrights.len(), 2);
    assert_eq!(&t.copyrights[0].language, b"eng");
    assert_eq!(t.copyrights[0].notice, "(c) 2026 Example");
    assert_eq!(&t.copyrights[1].language, b"fra");
    assert_eq!(t.copyrights[1].notice, "(c) 2026 Exemple");
}

/// Surfacing: each parsed `cprt` record shows up on `params.options`
/// as the pair `copyright_<n>` (notice) + `copyright_<n>_lang`
/// (3-letter language tag), keyed by 0-based encounter index. An
/// empty notice omits the notice key but keeps the `_lang` key so
/// a consumer can still tell "track declares an empty notice in
/// `eng`" from "track has no `cprt`".
#[test]
fn build_stream_info_surfaces_copyrights_on_options() {
    let mut t = fresh_track();
    t.media_type = MediaType::Audio;
    t.codec_id_fourcc = *b"mp4a";
    t.timescale = 48000;
    t.copyrights.push(CopyrightRecord {
        language: *b"eng",
        notice: "(c) 2026 Example".to_string(),
    });
    t.copyrights.push(CopyrightRecord {
        language: *b"jpn",
        notice: "".to_string(),
    });
    let info = build_stream_info(0, &t, String::from("unknown"));
    assert_eq!(
        info.params.options.get("copyright_0"),
        Some("(c) 2026 Example")
    );
    assert_eq!(info.params.options.get("copyright_0_lang"), Some("eng"));
    assert_eq!(info.params.options.get("copyright_1"), None);
    assert_eq!(info.params.options.get("copyright_1_lang"), Some("jpn"));
    assert_eq!(info.params.options.get("copyright_2"), None);
}

/// A track with no `cprt` records surfaces no `copyright_*` options.
#[test]
fn build_stream_info_no_copyrights_no_options() {
    let mut t = fresh_track();
    t.media_type = MediaType::Video;
    t.codec_id_fourcc = *b"avc1";
    t.timescale = 90000;
    let info = build_stream_info(0, &t, String::from("unknown"));
    assert_eq!(info.params.options.get("copyright_0"), None);
    assert_eq!(info.params.options.get("copyright_0_lang"), None);
}

/// End-to-end: a `cprt` box nested inside `trak/udta` is picked up
/// by `parse_trak` and lands on the track's `copyrights` list.
#[test]
fn parse_trak_picks_up_nested_cprt() {
    // Minimal tkhd (v0): 84 bytes; set track_ID at offset 12.
    let mut tkhd = vec![0u8; 84];
    tkhd[12..16].copy_from_slice(&11u32.to_be_bytes());
    // Minimal mdhd (v0, 24 bytes).
    let mut mdhd = Vec::new();
    mdhd.extend_from_slice(&[0u8; 4]); // version+flags
    mdhd.extend_from_slice(&[0u8; 8]); // created+modified
    mdhd.extend_from_slice(&1000u32.to_be_bytes()); // timescale
    mdhd.extend_from_slice(&0u32.to_be_bytes()); // duration
    mdhd.extend_from_slice(&[0u8; 4]); // language + pre_defined
                                       // Minimal hdlr identifying a video track.
    let mut hdlr = Vec::new();
    hdlr.extend_from_slice(&[0u8; 4]); // FullBox
    hdlr.extend_from_slice(&[0u8; 4]); // pre_defined
    hdlr.extend_from_slice(b"vide"); // handler_type
    hdlr.extend_from_slice(&[0u8; 12]); // reserved
    hdlr.push(0); // name (empty C string)
                  // Wrap mdhd + hdlr into a minimal mdia.
    let mut mdia = Vec::new();
    mdia.extend(wrap_box_full_size(b"mdhd", &mdhd));
    mdia.extend(wrap_box_full_size(b"hdlr", &hdlr));
    // Minimal `cprt` box: language `eng`, notice "(c) 2026 Example".
    let mut cprt = Vec::new();
    cprt.extend_from_slice(&[0u8; 4]);
    cprt.extend_from_slice(&pack_lang(b"eng"));
    cprt.extend_from_slice(b"(c) 2026 Example\0");
    // Wrap cprt in a track-level udta.
    let mut udta = Vec::new();
    udta.extend(wrap_box_full_size(b"cprt", &cprt));
    // Assemble the trak body.
    let mut trak = Vec::new();
    trak.extend(wrap_box_full_size(b"tkhd", &tkhd));
    trak.extend(wrap_box_full_size(b"mdia", &mdia));
    trak.extend(wrap_box_full_size(b"udta", &udta));

    let t = parse_trak(&trak).unwrap().unwrap();
    assert_eq!(t.track_id, 11);
    assert_eq!(t.copyrights.len(), 1);
    assert_eq!(&t.copyrights[0].language, b"eng");
    assert_eq!(t.copyrights[0].notice, "(c) 2026 Example");
}

#[test]
fn parse_tsel_switch_group_and_one_attribute() {
    let mut body = Vec::new();
    body.extend_from_slice(&[0u8; 4]); // FullBox version 0 + flags 0
    body.extend_from_slice(&1i32.to_be_bytes()); // switch_group = 1
    body.extend_from_slice(b"bitr"); // attribute_list[0]
    let mut t = fresh_track();
    parse_tsel(&body, &mut t);
    let tsel = t.tsel.as_ref().unwrap();
    assert_eq!(tsel.switch_group, 1);
    assert_eq!(tsel.attribute_list, vec![*b"bitr"]);
}

#[test]
fn parse_tsel_multiple_attributes_preserve_order() {
    let mut body = Vec::new();
    body.extend_from_slice(&[0u8; 4]); // FullBox
    body.extend_from_slice(&42i32.to_be_bytes()); // switch_group = 42
    body.extend_from_slice(b"bitr"); // bitrate (differentiating)
    body.extend_from_slice(b"cdec"); // codec (differentiating)
    body.extend_from_slice(b"lang"); // language (differentiating)
    let mut t = fresh_track();
    parse_tsel(&body, &mut t);
    let tsel = t.tsel.as_ref().unwrap();
    assert_eq!(tsel.switch_group, 42);
    assert_eq!(tsel.attribute_list, vec![*b"bitr", *b"cdec", *b"lang"]);
}

/// `tsel` with `switch_group = 0` and an empty attribute list is the
/// minimal legal body: 4-byte FullBox + 4-byte `switch_group`. The
/// box must still parse — surfacing a zero switch group lets a
/// consumer tell "present but no information" from "absent".
#[test]
fn parse_tsel_zero_switch_group_no_attributes() {
    let mut body = Vec::new();
    body.extend_from_slice(&[0u8; 4]); // FullBox
    body.extend_from_slice(&0i32.to_be_bytes()); // switch_group = 0
    let mut t = fresh_track();
    parse_tsel(&body, &mut t);
    let tsel = t.tsel.as_ref().unwrap();
    assert_eq!(tsel.switch_group, 0);
    assert!(tsel.attribute_list.is_empty());
}

#[test]
fn parse_tsel_negative_switch_group_preserved() {
    let mut body = Vec::new();
    body.extend_from_slice(&[0u8; 4]); // FullBox
    body.extend_from_slice(&(-7i32).to_be_bytes()); // switch_group = -7
    let mut t = fresh_track();
    parse_tsel(&body, &mut t);
    let tsel = t.tsel.as_ref().unwrap();
    assert_eq!(tsel.switch_group, -7);
}

#[test]
fn parse_tsel_too_short_silently_dropped() {
    let mut t = fresh_track();
    parse_tsel(&[0u8; 7], &mut t);
    assert!(t.tsel.is_none());
}

#[test]
fn parse_tsel_unknown_version_silently_dropped() {
    let mut body = Vec::new();
    body.extend_from_slice(&[1, 0, 0, 0]); // version 1 + flags 0
    body.extend_from_slice(&5i32.to_be_bytes()); // switch_group = 5
    let mut t = fresh_track();
    parse_tsel(&body, &mut t);
    assert!(t.tsel.is_none());
}

#[test]
fn parse_tsel_trailing_partial_fourcc_ignored() {
    let mut body = Vec::new();
    body.extend_from_slice(&[0u8; 4]); // FullBox
    body.extend_from_slice(&3i32.to_be_bytes()); // switch_group
    body.extend_from_slice(b"bitr"); // one complete attribute
    body.extend_from_slice(b"xy"); // 2 trailing bytes — dropped
    let mut t = fresh_track();
    parse_tsel(&body, &mut t);
    let tsel = t.tsel.as_ref().unwrap();
    assert_eq!(tsel.switch_group, 3);
    assert_eq!(tsel.attribute_list, vec![*b"bitr"]);
}

/// End-to-end: a `tsel` nested inside `trak/udta` is picked up by
/// `parse_track_udta` (alongside `kind`).
#[test]
fn parse_track_udta_picks_up_tsel() {
    let mut tsel = Vec::new();
    tsel.extend_from_slice(&[0u8; 4]); // FullBox
    tsel.extend_from_slice(&9i32.to_be_bytes()); // switch_group = 9
    tsel.extend_from_slice(b"bitr");
    tsel.extend_from_slice(b"lang");
    let mut udta = Vec::new();
    udta.extend(wrap_box_full_size(b"tsel", &tsel));

    let mut t = fresh_track();
    parse_track_udta(&udta, &mut t);
    let tb = t.tsel.as_ref().unwrap();
    assert_eq!(tb.switch_group, 9);
    assert_eq!(tb.attribute_list, vec![*b"bitr", *b"lang"]);
}

#[test]
fn parse_track_udta_collects_tsel_alongside_kind() {
    let mut kind = Vec::new();
    kind.extend_from_slice(&[0u8; 4]);
    kind.extend_from_slice(b"urn:mpeg:dash:role:2011\0");
    kind.extend_from_slice(b"alternate\0");

    let mut tsel = Vec::new();
    tsel.extend_from_slice(&[0u8; 4]);
    tsel.extend_from_slice(&2i32.to_be_bytes());
    tsel.extend_from_slice(b"cdec");

    let mut udta = Vec::new();
    udta.extend(wrap_box_full_size(b"kind", &kind));
    udta.extend(wrap_box_full_size(b"tsel", &tsel));

    let mut t = fresh_track();
    parse_track_udta(&udta, &mut t);
    assert_eq!(t.kinds.len(), 1);
    assert_eq!(t.kinds[0].1, "alternate");
    let tb = t.tsel.as_ref().unwrap();
    assert_eq!(tb.switch_group, 2);
    assert_eq!(tb.attribute_list, vec![*b"cdec"]);
}

/// Surfacing: a present `tsel` emits `tsel_switch_group` (always,
/// even when zero) and `tsel_attributes` (only when the list is
/// non-empty). The attributes render as space-separated FourCC
/// strings, matching the `tref_<type>` value convention.
#[test]
fn build_stream_info_surfaces_tsel_on_options() {
    let mut t = fresh_track();
    t.media_type = MediaType::Video;
    t.codec_id_fourcc = *b"avc1";
    t.timescale = 90000;
    t.tsel = Some(TselBox {
        switch_group: 11,
        attribute_list: vec![*b"bitr", *b"cdec"],
    });
    let info = build_stream_info(0, &t, String::from("unknown"));
    assert_eq!(info.params.options.get("tsel_switch_group"), Some("11"));
    assert_eq!(
        info.params.options.get("tsel_attributes"),
        Some("bitr cdec")
    );
}

/// A `tsel` with `switch_group = 0` and an empty attribute list
/// still emits the `tsel_switch_group` key (present-but-zero is
/// distinguishable from absent at the caller layer) but omits
/// `tsel_attributes`.
#[test]
fn build_stream_info_tsel_zero_no_attributes() {
    let mut t = fresh_track();
    t.media_type = MediaType::Audio;
    t.codec_id_fourcc = *b"mp4a";
    t.timescale = 48000;
    t.tsel = Some(TselBox {
        switch_group: 0,
        attribute_list: Vec::new(),
    });
    let info = build_stream_info(0, &t, String::from("unknown"));
    assert_eq!(info.params.options.get("tsel_switch_group"), Some("0"));
    assert_eq!(info.params.options.get("tsel_attributes"), None);
}

/// A track with no `tsel` surfaces no `tsel_*` options at all.
#[test]
fn build_stream_info_no_tsel_no_tsel_options() {
    let mut t = fresh_track();
    t.media_type = MediaType::Video;
    t.codec_id_fourcc = *b"avc1";
    t.timescale = 90000;
    let info = build_stream_info(0, &t, String::from("unknown"));
    assert_eq!(info.params.options.get("tsel_switch_group"), None);
    assert_eq!(info.params.options.get("tsel_attributes"), None);
}

/// A `tsel` attribute that contains non-printable bytes falls back
/// to 8-digit hex on the rendered surface, matching the
/// `tref_<type>` convention for unusual FourCCs.
#[test]
fn build_stream_info_tsel_attribute_non_printable_renders_as_hex() {
    let mut t = fresh_track();
    t.media_type = MediaType::Video;
    t.codec_id_fourcc = *b"avc1";
    t.timescale = 90000;
    t.tsel = Some(TselBox {
        switch_group: 1,
        attribute_list: vec![[0x00, 0x01, 0x02, 0x03], *b"bitr"],
    });
    let info = build_stream_info(0, &t, String::from("unknown"));
    assert_eq!(
        info.params.options.get("tsel_attributes"),
        Some("00010203 bitr")
    );
}

/// End-to-end: a `tsel` nested inside `trak/udta` is picked up by
/// `parse_trak` and lands on the track field.
#[test]
fn parse_trak_picks_up_nested_tsel() {
    let mut tkhd = vec![0u8; 84];
    tkhd[12..16].copy_from_slice(&13u32.to_be_bytes());
    let mut mdhd = Vec::new();
    mdhd.extend_from_slice(&[0u8; 4]);
    mdhd.extend_from_slice(&[0u8; 8]);
    mdhd.extend_from_slice(&1000u32.to_be_bytes());
    mdhd.extend_from_slice(&0u32.to_be_bytes());
    mdhd.extend_from_slice(&[0u8; 4]);
    let mut hdlr = Vec::new();
    hdlr.extend_from_slice(&[0u8; 4]);
    hdlr.extend_from_slice(&[0u8; 4]);
    hdlr.extend_from_slice(b"soun");
    hdlr.extend_from_slice(&[0u8; 12]);
    hdlr.push(0);
    let mut mdia = Vec::new();
    mdia.extend(wrap_box_full_size(b"mdhd", &mdhd));
    mdia.extend(wrap_box_full_size(b"hdlr", &hdlr));

    let mut tsel = Vec::new();
    tsel.extend_from_slice(&[0u8; 4]);
    tsel.extend_from_slice(&100i32.to_be_bytes());
    tsel.extend_from_slice(b"bitr");
    tsel.extend_from_slice(b"lang");

    let mut udta = Vec::new();
    udta.extend(wrap_box_full_size(b"tsel", &tsel));

    let mut trak = Vec::new();
    trak.extend(wrap_box_full_size(b"tkhd", &tkhd));
    trak.extend(wrap_box_full_size(b"mdia", &mdia));
    trak.extend(wrap_box_full_size(b"udta", &udta));

    let t = parse_trak(&trak).unwrap().unwrap();
    assert_eq!(t.track_id, 13);
    let tb = t.tsel.as_ref().unwrap();
    assert_eq!(tb.switch_group, 100);
    assert_eq!(tb.attribute_list, vec![*b"bitr", *b"lang"]);
}


fn stri_body(switch: i16, alt: i16, id: u32, attrs: &[&[u8; 4]]) -> Vec<u8> {
    let mut b = Vec::new();
    b.extend_from_slice(&[0u8; 4]); // FullBox version 0 + flags 0
    b.extend_from_slice(&switch.to_be_bytes());
    b.extend_from_slice(&alt.to_be_bytes());
    b.extend_from_slice(&id.to_be_bytes());
    for a in attrs {
        b.extend_from_slice(*a);
    }
    b
}

fn stsg_body(grouping_type: &[u8; 4], indices: &[u32]) -> Vec<u8> {
    let mut b = Vec::new();
    b.extend_from_slice(&[0u8; 4]); // FullBox
    b.extend_from_slice(grouping_type);
    b.extend_from_slice(&(indices.len() as u16).to_be_bytes());
    for i in indices {
        b.extend_from_slice(&i.to_be_bytes());
    }
    b
}

#[test]
fn parse_stri_fields_and_attributes() {
    let body = stri_body(1, 1, 2, &[b"vwsc", b"nvws"]);
    let st = parse_stri(&body).unwrap();
    assert_eq!(st.switch_group, 1);
    assert_eq!(st.alternate_group, 1);
    assert_eq!(st.sub_track_id, 2);
    assert_eq!(st.attribute_list, vec![*b"vwsc", *b"nvws"]);
    assert!(st.sample_groups.is_empty());
}

/// `stri` group fields are signed 16-bit (`template int(16)`); a
/// negative value must round-trip. The minimal legal body carries the
/// three fixed fields and an empty attribute list.
#[test]
fn parse_stri_negative_groups_no_attributes() {
    let body = stri_body(-3, -5, 0, &[]);
    let st = parse_stri(&body).unwrap();
    assert_eq!(st.switch_group, -3);
    assert_eq!(st.alternate_group, -5);
    assert_eq!(st.sub_track_id, 0);
    assert!(st.attribute_list.is_empty());
}

/// A `stri` body shorter than `FullBox + switch + alt + id` (12 bytes)
/// is rejected — without the fixed fields there is no usable selection
/// metadata.
#[test]
fn parse_stri_too_short_rejected() {
    assert!(parse_stri(&[0u8; 11]).is_none());
}

#[test]
fn parse_stri_unknown_version_rejected() {
    let mut body = stri_body(1, 1, 1, &[b"bitr"]);
    body[0] = 1; // version 1
    assert!(parse_stri(&body).is_none());
}

/// A trailing 1–3 byte fragment after the last complete attribute
/// FourCC is ignored ("attribute_list[] to the end of the box"),
/// matching the `parse_tsel` posture.
#[test]
fn parse_stri_trailing_partial_fourcc_ignored() {
    let mut body = stri_body(7, 0, 9, &[b"frar"]);
    body.extend_from_slice(b"xy"); // 2 trailing bytes — dropped
    let st = parse_stri(&body).unwrap();
    assert_eq!(st.attribute_list, vec![*b"frar"]);
}

#[test]
fn parse_stsg_grouping_and_indices() {
    let body = stsg_body(b"tele", &[1, 3, 7]);
    let sg = parse_stsg(&body).unwrap();
    assert_eq!(&sg.grouping_type, b"tele");
    assert_eq!(sg.group_description_indices, vec![1, 3, 7]);
}

/// `stsg` with `item_count = 0` is a legal empty definition (the box
/// names the grouping type but no description indices yet).
#[test]
fn parse_stsg_empty_index_list() {
    let body = stsg_body(b"roll", &[]);
    let sg = parse_stsg(&body).unwrap();
    assert_eq!(&sg.grouping_type, b"roll");
    assert!(sg.group_description_indices.is_empty());
}

/// A declared `item_count` that overruns the bytes present is rejected
/// — a truncated index list would lie about the sub track's groups.
#[test]
fn parse_stsg_overrunning_item_count_rejected() {
    let mut body = Vec::new();
    body.extend_from_slice(&[0u8; 4]); // FullBox
    body.extend_from_slice(b"tele");
    body.extend_from_slice(&3u16.to_be_bytes()); // claims 3 indices
    body.extend_from_slice(&1u32.to_be_bytes()); // only 1 present
    assert!(parse_stsg(&body).is_none());
}

/// Unknown FullBox version on `stsg` is rejected.
#[test]
fn parse_stsg_unknown_version_rejected() {
    let mut body = stsg_body(b"tele", &[1]);
    body[0] = 2;
    assert!(parse_stsg(&body).is_none());
}

#[test]
fn parse_strk_with_stri_and_strd_stsg() {
    let stri = stri_body(2, 2, 5, &[b"tesc"]);
    let stsg0 = stsg_body(b"tele", &[1, 2]);
    let stsg1 = stsg_body(b"roll", &[4]);
    let mut strd = Vec::new();
    strd.extend(wrap_box_full_size(b"stsg", &stsg0));
    strd.extend(wrap_box_full_size(b"stsg", &stsg1));
    let mut strk = Vec::new();
    strk.extend(wrap_box_full_size(b"stri", &stri));
    strk.extend(wrap_box_full_size(b"strd", &strd));

    let mut t = fresh_track();
    parse_strk(&strk, &mut t);
    assert_eq!(t.sub_tracks.len(), 1);
    let st = &t.sub_tracks[0];
    assert_eq!(st.switch_group, 2);
    assert_eq!(st.alternate_group, 2);
    assert_eq!(st.sub_track_id, 5);
    assert_eq!(st.attribute_list, vec![*b"tesc"]);
    assert_eq!(st.sample_groups.len(), 2);
    assert_eq!(&st.sample_groups[0].grouping_type, b"tele");
    assert_eq!(st.sample_groups[0].group_description_indices, vec![1, 2]);
    assert_eq!(&st.sample_groups[1].grouping_type, b"roll");
    assert_eq!(st.sample_groups[1].group_description_indices, vec![4]);
}

#[test]
fn parse_strk_stri_only_no_strd() {
    let stri = stri_body(1, 0, 3, &[]);
    let mut strk = Vec::new();
    strk.extend(wrap_box_full_size(b"stri", &stri));
    let mut t = fresh_track();
    parse_strk(&strk, &mut t);
    assert_eq!(t.sub_tracks.len(), 1);
    assert_eq!(t.sub_tracks[0].sub_track_id, 3);
    assert!(t.sub_tracks[0].sample_groups.is_empty());
}

/// A `strk` missing its mandatory `stri` contributes no sub track —
/// there is no selection metadata to surface.
#[test]
fn parse_strk_without_stri_dropped() {
    let strd = Vec::new();
    let mut strk = Vec::new();
    strk.extend(wrap_box_full_size(b"strd", &strd));
    let mut t = fresh_track();
    parse_strk(&strk, &mut t);
    assert!(t.sub_tracks.is_empty());
}

#[test]
fn parse_track_udta_collects_multiple_strk() {
    let strk_a = {
        let stri = stri_body(1, 1, 1, &[b"tesc"]);
        wrap_box_full_size(b"stri", &stri)
    };
    let strk_b = {
        let stri = stri_body(2, 1, 2, &[b"spsc"]);
        wrap_box_full_size(b"stri", &stri)
    };
    let mut udta = Vec::new();
    udta.extend(wrap_box_full_size(b"strk", &strk_a));
    udta.extend(wrap_box_full_size(b"strk", &strk_b));
    let mut t = fresh_track();
    parse_track_udta(&udta, &mut t);
    assert_eq!(t.sub_tracks.len(), 2);
    assert_eq!(t.sub_tracks[0].sub_track_id, 1);
    assert_eq!(t.sub_tracks[0].attribute_list, vec![*b"tesc"]);
    assert_eq!(t.sub_tracks[1].sub_track_id, 2);
    assert_eq!(t.sub_tracks[1].attribute_list, vec![*b"spsc"]);
}

/// Surfacing: a sub track emits `subtrack_<n>` carrying the three
/// selection fields plus optional `attrs=` / `stsg=` blocks.
#[test]
fn build_stream_info_surfaces_subtrack_on_options() {
    let mut t = fresh_track();
    t.media_type = MediaType::Video;
    t.codec_id_fourcc = *b"avc1";
    t.timescale = 90000;
    t.sub_tracks.push(SubTrack {
        switch_group: 4,
        alternate_group: 2,
        sub_track_id: 7,
        attribute_list: vec![*b"tesc", *b"bitr"],
        sample_groups: vec![SubTrackSampleGroup {
            grouping_type: *b"tele",
            group_description_indices: vec![1, 2],
        }],
    });
    let info = build_stream_info(0, &t, String::from("unknown"));
    assert_eq!(
        info.params.options.get("subtrack_0"),
        Some("id=7 switch=4 alt=2 attrs=tesc bitr stsg=tele:1,2")
    );
}

/// A sub track with no attributes and no sample groups surfaces only
/// the three always-present fixed fields.
#[test]
fn build_stream_info_subtrack_minimal() {
    let mut t = fresh_track();
    t.media_type = MediaType::Audio;
    t.codec_id_fourcc = *b"mp4a";
    t.timescale = 48000;
    t.sub_tracks.push(SubTrack {
        switch_group: 0,
        alternate_group: 0,
        sub_track_id: 0,
        attribute_list: Vec::new(),
        sample_groups: Vec::new(),
    });
    let info = build_stream_info(0, &t, String::from("unknown"));
    assert_eq!(
        info.params.options.get("subtrack_0"),
        Some("id=0 switch=0 alt=0")
    );
}

/// A track with no `strk` surfaces no `subtrack_*` options.
#[test]
fn build_stream_info_no_strk_no_subtrack_options() {
    let mut t = fresh_track();
    t.media_type = MediaType::Video;
    t.codec_id_fourcc = *b"avc1";
    t.timescale = 90000;
    let info = build_stream_info(0, &t, String::from("unknown"));
    assert_eq!(info.params.options.get("subtrack_0"), None);
}

/// End-to-end: a `strk` nested inside `trak/udta` is picked up by
/// `parse_trak` and lands on the track field.
#[test]
fn parse_trak_picks_up_nested_strk() {
    let mut tkhd = vec![0u8; 84];
    tkhd[12..16].copy_from_slice(&21u32.to_be_bytes());
    let mut mdhd = Vec::new();
    mdhd.extend_from_slice(&[0u8; 4]);
    mdhd.extend_from_slice(&[0u8; 8]);
    mdhd.extend_from_slice(&1000u32.to_be_bytes());
    mdhd.extend_from_slice(&0u32.to_be_bytes());
    mdhd.extend_from_slice(&[0u8; 4]);
    let mut hdlr = Vec::new();
    hdlr.extend_from_slice(&[0u8; 4]);
    hdlr.extend_from_slice(&[0u8; 4]);
    hdlr.extend_from_slice(b"vide");
    hdlr.extend_from_slice(&[0u8; 12]);
    hdlr.push(0);
    let mut mdia = Vec::new();
    mdia.extend(wrap_box_full_size(b"mdhd", &mdhd));
    mdia.extend(wrap_box_full_size(b"hdlr", &hdlr));

    let stri = stri_body(5, 5, 8, &[b"spsc"]);
    let stsg = stsg_body(b"tele", &[2]);
    let mut strd = Vec::new();
    strd.extend(wrap_box_full_size(b"stsg", &stsg));
    let mut strk = Vec::new();
    strk.extend(wrap_box_full_size(b"stri", &stri));
    strk.extend(wrap_box_full_size(b"strd", &strd));
    let mut udta = Vec::new();
    udta.extend(wrap_box_full_size(b"strk", &strk));

    let mut trak = Vec::new();
    trak.extend(wrap_box_full_size(b"tkhd", &tkhd));
    trak.extend(wrap_box_full_size(b"mdia", &mdia));
    trak.extend(wrap_box_full_size(b"udta", &udta));

    let t = parse_trak(&trak).unwrap().unwrap();
    assert_eq!(t.track_id, 21);
    assert_eq!(t.sub_tracks.len(), 1);
    let st = &t.sub_tracks[0];
    assert_eq!(st.switch_group, 5);
    assert_eq!(st.alternate_group, 5);
    assert_eq!(st.sub_track_id, 8);
    assert_eq!(st.attribute_list, vec![*b"spsc"]);
    assert_eq!(st.sample_groups.len(), 1);
    assert_eq!(&st.sample_groups[0].grouping_type, b"tele");
    assert_eq!(st.sample_groups[0].group_description_indices, vec![2]);
}

#[test]
fn parse_cslg_v0() {
    let mut body = Vec::new();
    body.extend_from_slice(&[0u8; 4]); // version 0 + flags 0
    body.extend_from_slice(&512i32.to_be_bytes()); // compositionToDTSShift
    body.extend_from_slice(&(-512i32).to_be_bytes()); // leastDecodeToDisplayDelta
    body.extend_from_slice(&1024i32.to_be_bytes()); // greatestDecodeToDisplayDelta
    body.extend_from_slice(&0i32.to_be_bytes()); // compositionStartTime
    body.extend_from_slice(&48000i32.to_be_bytes()); // compositionEndTime
    let c = parse_cslg(&body).unwrap();
    assert_eq!(c.composition_to_dts_shift, 512);
    assert_eq!(c.least_decode_to_display_delta, -512);
    assert_eq!(c.greatest_decode_to_display_delta, 1024);
    assert_eq!(c.composition_start_time, 0);
    assert_eq!(c.composition_end_time, 48000);
}

#[test]
fn parse_cslg_v1_64bit() {
    let big = (i32::MAX as i64) + 1_000; // > 2^31, needs 64 bits
    let mut body = Vec::new();
    body.extend_from_slice(&[1u8, 0, 0, 0]); // version 1 + flags 0
    body.extend_from_slice(&0i64.to_be_bytes()); // compositionToDTSShift
    body.extend_from_slice(&(-1_000i64).to_be_bytes()); // leastDecodeToDisplayDelta
    body.extend_from_slice(&2_000i64.to_be_bytes()); // greatestDecodeToDisplayDelta
    body.extend_from_slice(&0i64.to_be_bytes()); // compositionStartTime
    body.extend_from_slice(&big.to_be_bytes()); // compositionEndTime
    let c = parse_cslg(&body).unwrap();
    assert_eq!(c.composition_to_dts_shift, 0);
    assert_eq!(c.least_decode_to_display_delta, -1_000);
    assert_eq!(c.greatest_decode_to_display_delta, 2_000);
    assert_eq!(c.composition_start_time, 0);
    assert_eq!(c.composition_end_time, big);
}

/// A `cslg` with no room for even the FullBox preamble is rejected.
#[test]
fn parse_cslg_too_short() {
    assert!(parse_cslg(&[0u8, 0, 0]).is_err());
}

/// A `cslg` whose body is cut off mid-field (here a v0 box missing
/// its last 32-bit field) is rejected rather than silently zero-filled.
#[test]
fn parse_cslg_truncated() {
    let mut body = Vec::new();
    body.extend_from_slice(&[0u8; 4]); // version 0 + flags
    body.extend_from_slice(&0i32.to_be_bytes()); // 1/5
    body.extend_from_slice(&0i32.to_be_bytes()); // 2/5
    body.extend_from_slice(&0i32.to_be_bytes()); // 3/5
    body.extend_from_slice(&0i32.to_be_bytes()); // 4/5 — 5th missing
    assert!(parse_cslg(&body).is_err());
}

/// `parse_stbl` lands the `cslg` on the track alongside the other
/// sample-table boxes.
#[test]
fn parse_stbl_picks_up_cslg() {
    let mut cslg = Vec::new();
    cslg.extend_from_slice(&[0u8; 4]); // v0
    cslg.extend_from_slice(&100i32.to_be_bytes());
    cslg.extend_from_slice(&(-100i32).to_be_bytes());
    cslg.extend_from_slice(&200i32.to_be_bytes());
    cslg.extend_from_slice(&0i32.to_be_bytes());
    cslg.extend_from_slice(&5000i32.to_be_bytes());
    let mut stbl = Vec::new();
    stbl.extend(wrap_box_full_size(b"cslg", &cslg));

    let mut t = fresh_track();
    parse_stbl(&stbl, &mut t).unwrap();
    let c = t.cslg.expect("cslg should be parsed");
    assert_eq!(c.composition_to_dts_shift, 100);
    assert_eq!(c.least_decode_to_display_delta, -100);
    assert_eq!(c.greatest_decode_to_display_delta, 200);
    assert_eq!(c.composition_start_time, 0);
    assert_eq!(c.composition_end_time, 5000);
}

#[test]
fn parse_vmhd_graphicsmode_and_opcolor() {
    let mut body = Vec::new();
    body.extend_from_slice(&[0u8, 0, 0, 1]); // version 0, flags 1
    body.extend_from_slice(&0u16.to_be_bytes()); // graphicsmode = copy
    body.extend_from_slice(&0x1234u16.to_be_bytes()); // opcolor red
    body.extend_from_slice(&0x5678u16.to_be_bytes()); // opcolor green
    body.extend_from_slice(&0x9abcu16.to_be_bytes()); // opcolor blue
    let v = parse_vmhd(&body).unwrap();
    assert_eq!(v.graphicsmode, 0);
    assert_eq!(v.opcolor, [0x1234, 0x5678, 0x9abc]);
}

#[test]
fn parse_vmhd_nonzero_graphicsmode_preserved() {
    let mut body = Vec::new();
    body.extend_from_slice(&[0u8, 0, 0, 1]);
    body.extend_from_slice(&0x0100u16.to_be_bytes()); // graphicsmode
    body.extend_from_slice(&[0u8; 6]); // opcolor all zero
    let v = parse_vmhd(&body).unwrap();
    assert_eq!(v.graphicsmode, 0x0100);
    assert_eq!(v.opcolor, [0, 0, 0]);
}

/// The parser does not require `version == 0` — a stray non-zero
/// version byte still yields a usable header rather than a drop.
#[test]
fn parse_vmhd_tolerates_nonzero_version() {
    let mut body = Vec::new();
    body.extend_from_slice(&[3u8, 0, 0, 1]); // version 3
    body.extend_from_slice(&7u16.to_be_bytes());
    body.extend_from_slice(&[0u8; 6]);
    let v = parse_vmhd(&body).unwrap();
    assert_eq!(v.graphicsmode, 7);
}

/// A body shorter than the full 12 bytes (preamble + graphicsmode +
/// 3×opcolor) is rejected — a truncated tail would surface noise as
/// an opcolor component.
#[test]
fn parse_vmhd_too_short_is_rejected() {
    // 11 bytes: one short of the final opcolor-blue byte.
    let body = vec![0u8; 11];
    assert!(parse_vmhd(&body).is_err());
}

/// `parse_minf` lands the `vmhd` on the track.
#[test]
fn parse_minf_picks_up_vmhd() {
    let mut vmhd = Vec::new();
    vmhd.extend_from_slice(&[0u8, 0, 0, 1]);
    vmhd.extend_from_slice(&0u16.to_be_bytes());
    vmhd.extend_from_slice(&10u16.to_be_bytes());
    vmhd.extend_from_slice(&20u16.to_be_bytes());
    vmhd.extend_from_slice(&30u16.to_be_bytes());
    let mut minf = Vec::new();
    minf.extend(wrap_box_full_size(b"vmhd", &vmhd));

    let mut t = fresh_track();
    parse_minf(&minf, &mut t).unwrap();
    let v = t.vmhd.expect("vmhd should be parsed");
    assert_eq!(v.graphicsmode, 0);
    assert_eq!(v.opcolor, [10, 20, 30]);
}

#[test]
fn parse_minf_keeps_first_vmhd_ignores_duplicate() {
    let mut first = Vec::new();
    first.extend_from_slice(&[0u8, 0, 0, 1]);
    first.extend_from_slice(&1u16.to_be_bytes());
    first.extend_from_slice(&[0u8; 6]);
    let mut second = Vec::new();
    second.extend_from_slice(&[0u8, 0, 0, 1]);
    second.extend_from_slice(&2u16.to_be_bytes());
    second.extend_from_slice(&[0u8; 6]);
    let mut minf = Vec::new();
    minf.extend(wrap_box_full_size(b"vmhd", &first));
    minf.extend(wrap_box_full_size(b"vmhd", &second));

    let mut t = fresh_track();
    parse_minf(&minf, &mut t).unwrap();
    assert_eq!(t.vmhd.unwrap().graphicsmode, 1);
}

/// A malformed `vmhd` (too short) inside `minf` is dropped silently —
/// the walker continues and the track simply has no video header,
/// rather than failing the whole `minf` parse.
#[test]
fn parse_minf_drops_malformed_vmhd() {
    let short = vec![0u8; 5]; // far too short
    let mut minf = Vec::new();
    minf.extend(wrap_box_full_size(b"vmhd", &short));

    let mut t = fresh_track();
    parse_minf(&minf, &mut t).unwrap();
    assert!(t.vmhd.is_none());
}

/// Surfacing: a parsed `cslg` exposes its five fields on
/// `params.options` as `cslg_<field>` decimal strings.
#[test]
fn build_stream_info_surfaces_cslg_on_options() {
    let mut t = fresh_track();
    t.media_type = MediaType::Video;
    t.codec_id_fourcc = *b"avc1";
    t.timescale = 1000;
    t.cslg = Some(CslgBox {
        composition_to_dts_shift: 512,
        least_decode_to_display_delta: -512,
        greatest_decode_to_display_delta: 1024,
        composition_start_time: 0,
        composition_end_time: 90000,
    });
    let info = build_stream_info(0, &t, String::from("unknown"));
    assert_eq!(
        info.params.options.get("cslg_composition_to_dts_shift"),
        Some("512")
    );
    assert_eq!(
        info.params
            .options
            .get("cslg_least_decode_to_display_delta"),
        Some("-512")
    );
    assert_eq!(
        info.params
            .options
            .get("cslg_greatest_decode_to_display_delta"),
        Some("1024")
    );
    assert_eq!(
        info.params.options.get("cslg_composition_start_time"),
        Some("0")
    );
    assert_eq!(
        info.params.options.get("cslg_composition_end_time"),
        Some("90000")
    );
}

/// Absence: a track with no `cslg` emits none of the `cslg_*`
/// options keys.
#[test]
fn build_stream_info_no_cslg_no_options() {
    let mut t = fresh_track();
    t.media_type = MediaType::Video;
    t.codec_id_fourcc = *b"avc1";
    t.timescale = 1000;
    let info = build_stream_info(0, &t, String::from("unknown"));
    assert_eq!(
        info.params.options.get("cslg_composition_to_dts_shift"),
        None
    );
    assert_eq!(info.params.options.get("cslg_composition_end_time"), None);
}

/// Surfacing: a parsed `vmhd` exposes `vmhd_graphicsmode` (decimal)
/// and `vmhd_opcolor` (three space-separated decimal components) on
/// `params.options`.
#[test]
fn build_stream_info_surfaces_vmhd_on_options() {
    let mut t = fresh_track();
    t.media_type = MediaType::Video;
    t.codec_id_fourcc = *b"avc1";
    t.timescale = 1000;
    t.vmhd = Some(VmhdBox {
        graphicsmode: 0,
        opcolor: [10, 20, 30],
    });
    let info = build_stream_info(0, &t, String::from("unknown"));
    assert_eq!(info.params.options.get("vmhd_graphicsmode"), Some("0"));
    assert_eq!(info.params.options.get("vmhd_opcolor"), Some("10 20 30"));
}

/// Absence: a track with no `vmhd` emits neither `vmhd_*` key.
#[test]
fn build_stream_info_no_vmhd_no_options() {
    let mut t = fresh_track();
    t.media_type = MediaType::Video;
    t.codec_id_fourcc = *b"avc1";
    t.timescale = 1000;
    let info = build_stream_info(0, &t, String::from("unknown"));
    assert_eq!(info.params.options.get("vmhd_graphicsmode"), None);
    assert_eq!(info.params.options.get("vmhd_opcolor"), None);
}

#[test]
fn parse_stsh_two_entries() {
    let mut body = Vec::new();
    body.extend_from_slice(&[0u8; 4]); // version 0 + flags 0
    body.extend_from_slice(&2u32.to_be_bytes()); // entry_count
    body.extend_from_slice(&7u32.to_be_bytes()); // shadowed_sample_number
    body.extend_from_slice(&1u32.to_be_bytes()); // sync_sample_number
    body.extend_from_slice(&13u32.to_be_bytes());
    body.extend_from_slice(&10u32.to_be_bytes());
    let v = parse_stsh(&body).unwrap();
    assert_eq!(v, vec![(7, 1), (13, 10)]);
}

/// A zero-entry `stsh` (header only) parses to an empty table rather
/// than failing.
#[test]
fn parse_stsh_empty_table() {
    let mut body = Vec::new();
    body.extend_from_slice(&[0u8; 4]); // version 0 + flags 0
    body.extend_from_slice(&0u32.to_be_bytes()); // entry_count = 0
    let v = parse_stsh(&body).unwrap();
    assert!(v.is_empty());
}

/// An `stsh` with no room for even the FullBox + count preamble is
/// rejected.
#[test]
fn parse_stsh_too_short() {
    assert!(parse_stsh(&[0u8, 0, 0, 0, 0, 0, 0]).is_err());
}

/// An `stsh` whose body is cut off mid-entry (here a count of 2 but
/// only one full pair of bytes) is rejected rather than truncated to
/// the bytes present.
#[test]
fn parse_stsh_truncated() {
    let mut body = Vec::new();
    body.extend_from_slice(&[0u8; 4]); // version 0 + flags
    body.extend_from_slice(&2u32.to_be_bytes()); // claims 2 entries
    body.extend_from_slice(&7u32.to_be_bytes()); // shadowed (entry 1)
    body.extend_from_slice(&1u32.to_be_bytes()); // sync (entry 1)
    body.extend_from_slice(&13u32.to_be_bytes()); // shadowed (entry 2) — sync missing
    assert!(parse_stsh(&body).is_err());
}

#[test]
fn parse_stsh_huge_count_rejected() {
    let mut body = Vec::new();
    body.extend_from_slice(&[0u8; 4]); // version 0 + flags
    body.extend_from_slice(&u32::MAX.to_be_bytes()); // claims ~4 billion entries
    body.extend_from_slice(&1u32.to_be_bytes()); // only one u32 of payload
    assert!(parse_stsh(&body).is_err());
}

/// `parse_stbl` lands the `stsh` on the track alongside the other
/// sample-table boxes.
#[test]
fn parse_stbl_picks_up_stsh() {
    let mut stsh = Vec::new();
    stsh.extend_from_slice(&[0u8; 4]); // v0
    stsh.extend_from_slice(&1u32.to_be_bytes()); // one entry
    stsh.extend_from_slice(&5u32.to_be_bytes()); // shadowed
    stsh.extend_from_slice(&2u32.to_be_bytes()); // sync
    let mut stbl = Vec::new();
    stbl.extend(wrap_box_full_size(b"stsh", &stsh));

    let mut t = fresh_track();
    parse_stbl(&stbl, &mut t).unwrap();
    assert_eq!(t.stsh, vec![(5, 2)]);
}

/// Surfacing: a parsed `stsh` exposes its pairs on `params.options`
/// as `stsh_<n>` = `"shadowed sync"` decimal strings.
#[test]
fn build_stream_info_surfaces_stsh_on_options() {
    let mut t = fresh_track();
    t.media_type = MediaType::Video;
    t.codec_id_fourcc = *b"avc1";
    t.timescale = 1000;
    t.stsh = vec![(7, 1), (13, 10)];
    let info = build_stream_info(0, &t, String::from("unknown"));
    assert_eq!(info.params.options.get("stsh_0"), Some("7 1"));
    assert_eq!(info.params.options.get("stsh_1"), Some("13 10"));
}

/// Absence: a track with no `stsh` emits none of the `stsh_*` keys.
#[test]
fn build_stream_info_no_stsh_no_options() {
    let mut t = fresh_track();
    t.media_type = MediaType::Video;
    t.codec_id_fourcc = *b"avc1";
    t.timescale = 1000;
    let info = build_stream_info(0, &t, String::from("unknown"));
    assert_eq!(info.params.options.get("stsh_0"), None);
}


#[test]
fn parse_sbgp_v0_two_runs() {
    let mut body = Vec::new();
    body.extend_from_slice(&[0u8; 4]); // version 0 + flags 0
    body.extend_from_slice(b"roll"); // grouping_type
    body.extend_from_slice(&2u32.to_be_bytes()); // entry_count
    body.extend_from_slice(&10u32.to_be_bytes()); // sample_count
    body.extend_from_slice(&1u32.to_be_bytes()); // group_description_index
    body.extend_from_slice(&5u32.to_be_bytes());
    body.extend_from_slice(&0u32.to_be_bytes()); // index 0 = "no group"
    let sb = parse_sbgp(&body).unwrap();
    assert_eq!(&sb.grouping_type, b"roll");
    assert_eq!(sb.grouping_type_parameter, None);
    assert_eq!(sb.entries, vec![(10, 1), (5, 0)]);
}

#[test]
fn parse_sbgp_v1_with_parameter() {
    let mut body = Vec::new();
    body.extend_from_slice(&[1u8, 0, 0, 0]); // version 1 + flags 0
    body.extend_from_slice(b"rap "); // grouping_type
    body.extend_from_slice(&7u32.to_be_bytes()); // grouping_type_parameter
    body.extend_from_slice(&1u32.to_be_bytes()); // entry_count
    body.extend_from_slice(&3u32.to_be_bytes()); // sample_count
    body.extend_from_slice(&2u32.to_be_bytes()); // group_description_index
    let sb = parse_sbgp(&body).unwrap();
    assert_eq!(&sb.grouping_type, b"rap ");
    assert_eq!(sb.grouping_type_parameter, Some(7));
    assert_eq!(sb.entries, vec![(3, 2)]);
}

#[test]
fn parse_sbgp_keeps_fragment_local_index() {
    let mut body = Vec::new();
    body.extend_from_slice(&[0u8; 4]);
    body.extend_from_slice(b"sync");
    body.extend_from_slice(&1u32.to_be_bytes());
    body.extend_from_slice(&1u32.to_be_bytes()); // sample_count
    body.extend_from_slice(&0x1_0001u32.to_be_bytes()); // fragment-local idx
    let sb = parse_sbgp(&body).unwrap();
    assert_eq!(sb.entries, vec![(1, 0x1_0001)]);
}

/// A zero-entry `sbgp` (header only) parses to an empty table.
#[test]
fn parse_sbgp_empty_table() {
    let mut body = Vec::new();
    body.extend_from_slice(&[0u8; 4]);
    body.extend_from_slice(b"roll");
    body.extend_from_slice(&0u32.to_be_bytes()); // entry_count = 0
    let sb = parse_sbgp(&body).unwrap();
    assert!(sb.entries.is_empty());
}

/// An `sbgp` cut off mid-entry is rejected rather than truncated.
#[test]
fn parse_sbgp_truncated_entry_rejected() {
    let mut body = Vec::new();
    body.extend_from_slice(&[0u8; 4]);
    body.extend_from_slice(b"roll");
    body.extend_from_slice(&2u32.to_be_bytes()); // claims 2 entries
    body.extend_from_slice(&1u32.to_be_bytes()); // only one full pair
    body.extend_from_slice(&1u32.to_be_bytes());
    assert!(parse_sbgp(&body).is_err());
}

/// An `sbgp` too short for the grouping_type is rejected.
#[test]
fn parse_sbgp_too_short() {
    assert!(parse_sbgp(&[0u8, 0, 0, 0, b'r']).is_err());
}

#[test]
fn parse_sgpd_v1_fixed_length() {
    let mut body = Vec::new();
    body.extend_from_slice(&[1u8, 0, 0, 0]); // version 1 + flags 0
    body.extend_from_slice(b"roll"); // grouping_type
    body.extend_from_slice(&2u32.to_be_bytes()); // default_length = 2
    body.extend_from_slice(&2u32.to_be_bytes()); // entry_count = 2
    body.extend_from_slice(&[0xFF, 0xFB]); // entry 0 (roll_distance)
    body.extend_from_slice(&[0x00, 0x05]); // entry 1
    let sg = parse_sgpd(&body).unwrap();
    assert_eq!(&sg.grouping_type, b"roll");
    assert_eq!(sg.default_sample_description_index, None);
    assert_eq!(sg.entries, vec![vec![0xFF, 0xFB], vec![0x00, 0x05]]);
}

#[test]
fn parse_sgpd_v1_variable_length() {
    let mut body = Vec::new();
    body.extend_from_slice(&[1u8, 0, 0, 0]); // version 1 + flags 0
    body.extend_from_slice(b"prol"); // grouping_type
    body.extend_from_slice(&0u32.to_be_bytes()); // default_length = 0
    body.extend_from_slice(&2u32.to_be_bytes()); // entry_count = 2
    body.extend_from_slice(&3u32.to_be_bytes()); // description_length 0 = 3
    body.extend_from_slice(&[0xAA, 0xBB, 0xCC]);
    body.extend_from_slice(&1u32.to_be_bytes()); // description_length 1 = 1
    body.extend_from_slice(&[0xDD]);
    let sg = parse_sgpd(&body).unwrap();
    assert_eq!(&sg.grouping_type, b"prol");
    assert_eq!(sg.entries, vec![vec![0xAA, 0xBB, 0xCC], vec![0xDD]]);
}

#[test]
fn parse_sgpd_v2_default_index() {
    let mut body = Vec::new();
    body.extend_from_slice(&[2u8, 0, 0, 0]); // version 2 + flags 0
    body.extend_from_slice(b"alst"); // grouping_type
    body.extend_from_slice(&1u32.to_be_bytes()); // default_sample_description_index
    body.extend_from_slice(&0u32.to_be_bytes()); // entry_count = 0
    let sg = parse_sgpd(&body).unwrap();
    assert_eq!(&sg.grouping_type, b"alst");
    assert_eq!(sg.default_sample_description_index, Some(1));
    assert!(sg.entries.is_empty());
}

#[test]
fn parse_sgpd_v0_combined_blob_fallback() {
    let mut body = Vec::new();
    body.extend_from_slice(&[0u8; 4]); // version 0 + flags 0
    body.extend_from_slice(b"roll"); // grouping_type
    body.extend_from_slice(&2u32.to_be_bytes()); // entry_count = 2
    body.extend_from_slice(&[0x11, 0x22, 0x33, 0x44]); // opaque tail
    let sg = parse_sgpd(&body).unwrap();
    assert_eq!(sg.entries, vec![vec![0x11, 0x22, 0x33, 0x44]]);
}

/// A variable-length `sgpd` whose declared description_length runs past
/// the body is rejected.
#[test]
fn parse_sgpd_variable_truncated_rejected() {
    let mut body = Vec::new();
    body.extend_from_slice(&[1u8, 0, 0, 0]);
    body.extend_from_slice(b"roll");
    body.extend_from_slice(&0u32.to_be_bytes()); // default_length = 0
    body.extend_from_slice(&1u32.to_be_bytes()); // entry_count = 1
    body.extend_from_slice(&8u32.to_be_bytes()); // claims 8 bytes
    body.extend_from_slice(&[0x01, 0x02]); // only 2 present
    assert!(parse_sgpd(&body).is_err());
}

/// The MSB-first `BitCursor` reads big-endian bit fields across byte
/// boundaries, including a zero-width read.
#[test]
fn bit_cursor_reads_msb_first() {
    // 0b1010_0110 0b1100_0001
    let data = [0xA6u8, 0xC1];
    let mut c = BitCursor::new(&data, 0);
    assert_eq!(c.read(0), Some(0)); // zero width consumes nothing
    assert_eq!(c.read(4), Some(0b1010));
    assert_eq!(c.read(4), Some(0b0110));
    assert_eq!(c.read(8), Some(0b1100_0001));
    assert_eq!(c.read(1), None); // exhausted
}

/// The cursor honours a non-zero byte anchor and rejects an
/// over-long read.
#[test]
fn bit_cursor_anchor_and_overrun() {
    let data = [0x00, 0xFF, 0x0F];
    let mut c = BitCursor::new(&data, 1); // start at byte 1
    assert_eq!(c.read(12), Some(0xFF0)); // 0xFF then top nibble of 0x0F
    assert_eq!(c.read(8), None); // only 4 bits left
    assert_eq!(c.read(4), Some(0x0F));
}

#[test]
fn parse_csgp_16bit_widths() {
    // index_size_code=2, count_size_code=2, pattern_size_code=2,
    // gtpp=0  →  flags = 2 | (2<<2) | (2<<4) = 0x2A.
    let mut body = Vec::new();
    body.extend_from_slice(&[0u8, 0, 0, 0x2A]); // version 0 + flags
    body.extend_from_slice(b"roll"); // grouping_type
    body.extend_from_slice(&2u32.to_be_bytes()); // pattern_count = 2
                                                 // pattern 1: length 1, sample_count 3
    body.extend_from_slice(&1u16.to_be_bytes());
    body.extend_from_slice(&3u16.to_be_bytes());
    // pattern 2: length 2, sample_count 1
    body.extend_from_slice(&2u16.to_be_bytes());
    body.extend_from_slice(&1u16.to_be_bytes());
    // indices: pattern 1 → [5]; pattern 2 → [0, 7]
    body.extend_from_slice(&5u16.to_be_bytes());
    body.extend_from_slice(&0u16.to_be_bytes());
    body.extend_from_slice(&7u16.to_be_bytes());
    let cg = parse_csgp(&body).unwrap();
    assert_eq!(&cg.grouping_type, b"roll");
    assert_eq!(cg.grouping_type_parameter, None);
    assert_eq!(cg.patterns.len(), 2);
    assert_eq!(cg.patterns[0].sample_count, 3);
    assert_eq!(cg.patterns[0].indices, vec![5]);
    assert_eq!(cg.patterns[1].sample_count, 1);
    assert_eq!(cg.patterns[1].indices, vec![0, 7]);
}

#[test]
fn parse_csgp_4bit_packed() {
    // size codes all 0 → flags 0; gtpp=0.
    let mut body = Vec::new();
    body.extend_from_slice(&[0u8, 0, 0, 0]); // version 0 + flags 0
    body.extend_from_slice(b"sync"); // grouping_type
    body.extend_from_slice(&1u32.to_be_bytes()); // pattern_count = 1
                                                 // pattern_length=3 (0b0011), sample_count=2 (0b0010) → 0x32
                                                 // indices [1, 2, 4] → 0b0001 0010 0100 = 0x12 0x4_ (12 bits,
                                                 // padded to a byte boundary by the box's size).
    body.push(0x32);
    body.push(0x12);
    body.push(0x40); // top nibble = index 4, low nibble padding
    let cg = parse_csgp(&body).unwrap();
    assert_eq!(&cg.grouping_type, b"sync");
    assert_eq!(cg.patterns.len(), 1);
    assert_eq!(cg.patterns[0].sample_count, 2);
    assert_eq!(cg.patterns[0].indices, vec![1, 2, 4]);
}

#[test]
fn parse_csgp_with_grouping_type_parameter() {
    // size codes all 2 (16-bit) plus presence bit (1<<6 = 0x40):
    // flags = 0x2A | 0x40 = 0x6A.
    let mut body = Vec::new();
    body.extend_from_slice(&[0u8, 0, 0, 0x6A]);
    body.extend_from_slice(b"rap ");
    body.extend_from_slice(&9u32.to_be_bytes()); // grouping_type_parameter
    body.extend_from_slice(&1u32.to_be_bytes()); // pattern_count = 1
    body.extend_from_slice(&1u16.to_be_bytes()); // pattern_length
    body.extend_from_slice(&4u16.to_be_bytes()); // sample_count
    body.extend_from_slice(&2u16.to_be_bytes()); // index
    let cg = parse_csgp(&body).unwrap();
    assert_eq!(&cg.grouping_type, b"rap ");
    assert_eq!(cg.grouping_type_parameter, Some(9));
    assert_eq!(cg.patterns[0].sample_count, 4);
    assert_eq!(cg.patterns[0].indices, vec![2]);
}

#[test]
fn parse_csgp_fragment_local_index_preserved() {
    // index_size_code=3 (32-bit), count/pattern codes 2 (16-bit):
    // flags = 3 | (2<<2) | (2<<4) = 0x2B.
    let mut body = Vec::new();
    body.extend_from_slice(&[0u8, 0, 0, 0x2B]);
    body.extend_from_slice(b"seig");
    body.extend_from_slice(&1u32.to_be_bytes()); // pattern_count
    body.extend_from_slice(&1u16.to_be_bytes()); // pattern_length
    body.extend_from_slice(&1u16.to_be_bytes()); // sample_count
    body.extend_from_slice(&0x8000_0001u32.to_be_bytes()); // frag-local idx
    let cg = parse_csgp(&body).unwrap();
    assert_eq!(cg.patterns[0].indices, vec![0x8000_0001]);
}

/// A `csgp` truncated mid-index is rejected, not silently shortened.
#[test]
fn parse_csgp_truncated_index_rejected() {
    let mut body = Vec::new();
    body.extend_from_slice(&[0u8, 0, 0, 0x2A]); // 16-bit widths
    body.extend_from_slice(b"roll");
    body.extend_from_slice(&1u32.to_be_bytes()); // pattern_count
    body.extend_from_slice(&2u16.to_be_bytes()); // pattern_length = 2
    body.extend_from_slice(&1u16.to_be_bytes()); // sample_count
    body.extend_from_slice(&5u16.to_be_bytes()); // only one of two indices
    assert!(parse_csgp(&body).is_err());
}

/// A `csgp` too short even for the FullBox header is rejected.
#[test]
fn parse_csgp_too_short() {
    assert!(parse_csgp(&[0u8, 0]).is_err());
}

/// `parse_stbl` accumulates multiple `sbgp`/`sgpd` instances (one per
/// grouping type) on the track rather than overwriting.
#[test]
fn parse_stbl_accumulates_sample_groups() {
    // sbgp(roll)
    let mut sbgp = Vec::new();
    sbgp.extend_from_slice(&[0u8; 4]);
    sbgp.extend_from_slice(b"roll");
    sbgp.extend_from_slice(&1u32.to_be_bytes());
    sbgp.extend_from_slice(&4u32.to_be_bytes());
    sbgp.extend_from_slice(&1u32.to_be_bytes());
    // sgpd(roll) v1 fixed length 2
    let mut sgpd = Vec::new();
    sgpd.extend_from_slice(&[1u8, 0, 0, 0]);
    sgpd.extend_from_slice(b"roll");
    sgpd.extend_from_slice(&2u32.to_be_bytes()); // default_length
    sgpd.extend_from_slice(&1u32.to_be_bytes()); // entry_count
    sgpd.extend_from_slice(&[0xFF, 0xFB]);

    let mut stbl = Vec::new();
    stbl.extend(wrap_box_full_size(b"sbgp", &sbgp));
    stbl.extend(wrap_box_full_size(b"sgpd", &sgpd));

    let mut t = fresh_track();
    parse_stbl(&stbl, &mut t).unwrap();
    assert_eq!(t.sbgp.len(), 1);
    assert_eq!(&t.sbgp[0].grouping_type, b"roll");
    assert_eq!(t.sbgp[0].entries, vec![(4, 1)]);
    assert_eq!(t.sgpd.len(), 1);
    assert_eq!(&t.sgpd[0].grouping_type, b"roll");
    assert_eq!(t.sgpd[0].entries, vec![vec![0xFF, 0xFB]]);
}

/// Surfacing: a parsed `sbgp` exposes its run-length map on
/// `params.options` as `sbgp_<n>` (grouping type, optional `param=`,
/// then `count:index` pairs); `sgpd` exposes `sgpd_<n>` (grouping
/// type, optional `default=`, then hex entry payloads).
#[test]
fn build_stream_info_surfaces_sample_groups_on_options() {
    let mut t = fresh_track();
    t.media_type = MediaType::Audio;
    t.codec_id_fourcc = *b"mp4a";
    t.timescale = 48000;
    t.sbgp = vec![
        SbgpBox {
            grouping_type: *b"roll",
            grouping_type_parameter: None,
            entries: vec![(10, 1), (5, 0)],
        },
        SbgpBox {
            grouping_type: *b"rap ",
            grouping_type_parameter: Some(7),
            entries: vec![(3, 2)],
        },
    ];
    t.sgpd = vec![SgpdBox {
        grouping_type: *b"roll",
        default_sample_description_index: Some(1),
        entries: vec![vec![0xFF, 0xFB], vec![0x00, 0x05]],
    }];
    let info = build_stream_info(0, &t, String::from("unknown"));
    assert_eq!(info.params.options.get("sbgp_0"), Some("roll 10:1 5:0"));
    assert_eq!(info.params.options.get("sbgp_1"), Some("rap  param=7 3:2"));
    assert_eq!(
        info.params.options.get("sgpd_0"),
        Some("roll default=1 fffb 0005")
    );
}

/// Absence: a track with no sample groups emits none of the
/// `sbgp_*` / `sgpd_*` keys.
#[test]
fn build_stream_info_no_sample_groups_no_options() {
    let mut t = fresh_track();
    t.media_type = MediaType::Video;
    t.codec_id_fourcc = *b"avc1";
    t.timescale = 1000;
    let info = build_stream_info(0, &t, String::from("unknown"));
    assert_eq!(info.params.options.get("sbgp_0"), None);
    assert_eq!(info.params.options.get("sgpd_0"), None);
}


fn pack_sdtp(is_leading: u8, depends_on: u8, depended_on: u8, redundancy: u8) -> u8 {
    ((is_leading & 0x03) << 6)
        | ((depends_on & 0x03) << 4)
        | ((depended_on & 0x03) << 2)
        | (redundancy & 0x03)
}

#[test]
fn parse_sdtp_two_entries() {
    let mut body = Vec::new();
    body.extend_from_slice(&[0u8; 4]); // FullBox preamble (version 0 + flags 0)
    body.push(pack_sdtp(2, 2, 1, 2)); // I-picture
    body.push(pack_sdtp(1, 1, 2, 2)); // disposable leading
    let v = parse_sdtp(&body).unwrap();
    assert_eq!(v.len(), 2);
    assert_eq!(v[0].is_leading, 2);
    assert_eq!(v[0].sample_depends_on, 2);
    assert_eq!(v[0].sample_is_depended_on, 1);
    assert_eq!(v[0].sample_has_redundancy, 2);
    assert_eq!(v[1].is_leading, 1);
    assert_eq!(v[1].sample_depends_on, 1);
    assert_eq!(v[1].sample_is_depended_on, 2);
    assert_eq!(v[1].sample_has_redundancy, 2);
}

/// A zero-sample `sdtp` (FullBox preamble only) parses to an empty
/// table rather than failing — implied `sample_count` from `stsz`
/// may legitimately be zero (an empty track).
#[test]
fn parse_sdtp_empty_table() {
    let body = vec![0u8; 4]; // FullBox preamble only
    let v = parse_sdtp(&body).unwrap();
    assert!(v.is_empty());
}

/// An `sdtp` too short for even the FullBox preamble is rejected.
#[test]
fn parse_sdtp_too_short() {
    assert!(parse_sdtp(&[0u8, 0, 0]).is_err());
}

#[test]
fn parse_sdtp_field_order() {
    let mut body = Vec::new();
    body.extend_from_slice(&[0u8; 4]); // FullBox preamble
    body.push(0b11_10_01_00); // is_leading=3 depends_on=2 depended_on=1 redundancy=0
    let v = parse_sdtp(&body).unwrap();
    assert_eq!(v.len(), 1);
    assert_eq!(v[0].is_leading, 3);
    assert_eq!(v[0].sample_depends_on, 2);
    assert_eq!(v[0].sample_is_depended_on, 1);
    assert_eq!(v[0].sample_has_redundancy, 0);
}

#[test]
fn parse_sdtp_all_unknowns() {
    let mut body = Vec::new();
    body.extend_from_slice(&[0u8; 4]); // FullBox preamble
    body.push(0u8);
    body.push(0u8);
    body.push(0u8);
    let v = parse_sdtp(&body).unwrap();
    assert_eq!(v.len(), 3);
    for e in &v {
        assert_eq!(e.is_leading, 0);
        assert_eq!(e.sample_depends_on, 0);
        assert_eq!(e.sample_is_depended_on, 0);
        assert_eq!(e.sample_has_redundancy, 0);
    }
}

/// `parse_stbl` lands the `sdtp` on the track alongside the other
/// sample-table boxes (proves the dispatch arm is wired).
#[test]
fn parse_stbl_picks_up_sdtp() {
    let mut sdtp = Vec::new();
    sdtp.extend_from_slice(&[0u8; 4]); // FullBox preamble
    sdtp.push(pack_sdtp(2, 2, 1, 2)); // I-picture
    sdtp.push(pack_sdtp(0, 1, 2, 0)); // disposable
    let mut stbl = Vec::new();
    stbl.extend(wrap_box_full_size(b"sdtp", &sdtp));

    let mut t = fresh_track();
    parse_stbl(&stbl, &mut t).unwrap();
    assert_eq!(t.sdtp.len(), 2);
    assert_eq!(t.sdtp[0].sample_depends_on, 2);
    assert_eq!(t.sdtp[1].sample_is_depended_on, 2);
}

#[test]
fn build_stream_info_surfaces_sdtp_summary_on_options() {
    let mut t = fresh_track();
    t.media_type = MediaType::Video;
    t.codec_id_fourcc = *b"avc1";
    t.timescale = 1000;
    t.sdtp = vec![
        // I-picture: depends_on=2 (independent), depended_on=1 (not
        // disposable), not leading, no redundancy.
        SdtpEntry {
            is_leading: 2,
            sample_depends_on: 2,
            sample_is_depended_on: 1,
            sample_has_redundancy: 0,
        },
        // Disposable B-frame: depended_on=2.
        SdtpEntry {
            is_leading: 2,
            sample_depends_on: 1,
            sample_is_depended_on: 2,
            sample_has_redundancy: 0,
        },
        // Leading decodable B-frame: is_leading=3.
        SdtpEntry {
            is_leading: 3,
            sample_depends_on: 1,
            sample_is_depended_on: 2,
            sample_has_redundancy: 0,
        },
        // Sample with redundant coding: has_redundancy=1.
        SdtpEntry {
            is_leading: 2,
            sample_depends_on: 1,
            sample_is_depended_on: 1,
            sample_has_redundancy: 1,
        },
    ];
    let info = build_stream_info(0, &t, String::from("unknown"));
    assert_eq!(info.params.options.get("sdtp_count"), Some("4"));
    assert_eq!(info.params.options.get("sdtp_leading_count"), Some("1"));
    assert_eq!(info.params.options.get("sdtp_independent_count"), Some("1"));
    assert_eq!(info.params.options.get("sdtp_disposable_count"), Some("2"));
    assert_eq!(info.params.options.get("sdtp_redundant_count"), Some("1"));
}

/// Absence: a track with no `sdtp` emits none of the summary keys.
#[test]
fn build_stream_info_no_sdtp_no_options() {
    let mut t = fresh_track();
    t.media_type = MediaType::Video;
    t.codec_id_fourcc = *b"avc1";
    t.timescale = 1000;
    let info = build_stream_info(0, &t, String::from("unknown"));
    assert_eq!(info.params.options.get("sdtp_count"), None);
    assert_eq!(info.params.options.get("sdtp_leading_count"), None);
    assert_eq!(info.params.options.get("sdtp_independent_count"), None);
    assert_eq!(info.params.options.get("sdtp_disposable_count"), None);
    assert_eq!(info.params.options.get("sdtp_redundant_count"), None);
}


#[test]
fn parse_stdp_three_entries() {
    let mut body = Vec::new();
    body.extend_from_slice(&[0u8; 4]); // FullBox preamble (version 0 + flags 0)
    body.extend_from_slice(&0x0001u16.to_be_bytes());
    body.extend_from_slice(&0x0102u16.to_be_bytes());
    body.extend_from_slice(&0xFFFFu16.to_be_bytes());
    let v = parse_stdp(&body).unwrap();
    assert_eq!(v, vec![0x0001u16, 0x0102, 0xFFFF]);
}

/// A zero-sample `stdp` (FullBox preamble only) parses to an empty
/// table rather than failing — the implied `sample_count` from
/// `stsz` may legitimately be zero.
#[test]
fn parse_stdp_empty_table() {
    let body = vec![0u8; 4];
    let v = parse_stdp(&body).unwrap();
    assert!(v.is_empty());
}

/// An `stdp` too short for even the FullBox preamble is rejected.
#[test]
fn parse_stdp_too_short() {
    assert!(parse_stdp(&[0u8, 0, 0]).is_err());
}

#[test]
fn parse_stdp_trailing_odd_byte_ignored() {
    let mut body = Vec::new();
    body.extend_from_slice(&[0u8; 4]); // FullBox preamble
    body.extend_from_slice(&0x0001u16.to_be_bytes());
    body.extend_from_slice(&0x0002u16.to_be_bytes());
    body.push(0xAA); // stray byte
    let v = parse_stdp(&body).unwrap();
    assert_eq!(v, vec![0x0001u16, 0x0002]);
}

/// `parse_stbl` lands the `stdp` on the track alongside the other
/// sample-table boxes (proves the dispatch arm is wired).
#[test]
fn parse_stbl_picks_up_stdp() {
    let mut stdp = Vec::new();
    stdp.extend_from_slice(&[0u8; 4]); // FullBox preamble
    stdp.extend_from_slice(&0x0001u16.to_be_bytes());
    stdp.extend_from_slice(&0x0005u16.to_be_bytes());
    let mut stbl = Vec::new();
    stbl.extend(wrap_box_full_size(b"stdp", &stdp));

    let mut t = fresh_track();
    parse_stbl(&stbl, &mut t).unwrap();
    assert_eq!(t.stdp, vec![0x0001u16, 0x0005]);
}

#[test]
fn build_stream_info_surfaces_stdp_summary_on_options() {
    let mut t = fresh_track();
    t.media_type = MediaType::Video;
    t.codec_id_fourcc = *b"avc1";
    t.timescale = 1000;
    t.stdp = vec![1u16, 5, 7, 3];
    let info = build_stream_info(0, &t, String::from("unknown"));
    assert_eq!(info.params.options.get("stdp_count"), Some("4"));
    assert_eq!(info.params.options.get("stdp_min"), Some("1"));
    assert_eq!(info.params.options.get("stdp_max"), Some("7"));
    assert_eq!(info.params.options.get("stdp_sum"), Some("16"));
}

#[test]
fn build_stream_info_stdp_single_entry_min_eq_max() {
    let mut t = fresh_track();
    t.media_type = MediaType::Video;
    t.codec_id_fourcc = *b"avc1";
    t.timescale = 1000;
    t.stdp = vec![42u16];
    let info = build_stream_info(0, &t, String::from("unknown"));
    assert_eq!(info.params.options.get("stdp_count"), Some("1"));
    assert_eq!(info.params.options.get("stdp_min"), Some("42"));
    assert_eq!(info.params.options.get("stdp_max"), Some("42"));
    assert_eq!(info.params.options.get("stdp_sum"), Some("42"));
}

/// Absence: a track with no `stdp` emits none of the summary keys.
#[test]
fn build_stream_info_no_stdp_no_options() {
    let mut t = fresh_track();
    t.media_type = MediaType::Video;
    t.codec_id_fourcc = *b"avc1";
    t.timescale = 1000;
    let info = build_stream_info(0, &t, String::from("unknown"));
    assert_eq!(info.params.options.get("stdp_count"), None);
    assert_eq!(info.params.options.get("stdp_min"), None);
    assert_eq!(info.params.options.get("stdp_max"), None);
    assert_eq!(info.params.options.get("stdp_sum"), None);
}

fn pack_padb(pad1: u8, pad2: u8) -> u8 {
    ((pad1 & 0x07) << 4) | (pad2 & 0x07)
}

/// `padb` with four samples (one byte holding two pairs of pad
/// counts) round-trips through the typed accessor and yields the
/// per-sample u8 vec in decode order.
#[test]
fn parse_padb_four_samples_two_bytes() {
    let mut body = Vec::new();
    body.extend_from_slice(&[0u8; 4]); // FullBox preamble (v0, flags 0)
    body.extend_from_slice(&4u32.to_be_bytes()); // sample_count = 4
    body.push(pack_padb(1, 2)); // samples 1, 2
    body.push(pack_padb(3, 7)); // samples 3, 4
    let v = parse_padb(&body).unwrap();
    assert_eq!(v, vec![1u8, 2, 3, 7]);
}

#[test]
fn parse_padb_odd_sample_count_drops_trailing_nibble() {
    let mut body = Vec::new();
    body.extend_from_slice(&[0u8; 4]); // FullBox preamble
    body.extend_from_slice(&3u32.to_be_bytes()); // sample_count = 3
    body.push(pack_padb(2, 4)); // samples 1, 2
    body.push(pack_padb(6, 5)); // sample 3; pad2 unused
    let v = parse_padb(&body).unwrap();
    assert_eq!(v, vec![2u8, 4, 6]);
}

/// `padb` with `sample_count == 0` (zero-sample table) is permitted
/// and yields an empty vec.
#[test]
fn parse_padb_zero_samples() {
    let mut body = Vec::new();
    body.extend_from_slice(&[0u8; 4]); // FullBox preamble
    body.extend_from_slice(&0u32.to_be_bytes()); // sample_count = 0
    let v = parse_padb(&body).unwrap();
    assert!(v.is_empty());
}

/// A `padb` body too short for even the FullBox + sample_count
/// preamble (8 bytes) is rejected outright.
#[test]
fn parse_padb_too_short_preamble() {
    assert!(parse_padb(&[0u8; 4]).is_err());
    assert!(parse_padb(&[0u8; 7]).is_err());
}

#[test]
fn parse_padb_truncated_payload() {
    let mut body = Vec::new();
    body.extend_from_slice(&[0u8; 4]); // FullBox preamble
    body.extend_from_slice(&10u32.to_be_bytes()); // sample_count = 10
    body.push(0); // only 1 of the 5 needed bytes
    body.push(0);
    assert!(parse_padb(&body).is_err());
}

#[test]
fn parse_padb_masks_reserved_bit() {
    let mut body = Vec::new();
    body.extend_from_slice(&[0u8; 4]);
    body.extend_from_slice(&2u32.to_be_bytes()); // sample_count = 2
                                                 // pad1 = 5 (0b101) with reserved bit set: nibble = 0b1101 = 0xD
                                                 // pad2 = 2 (0b010) with reserved bit set: nibble = 0b1010 = 0xA
    body.push(0xDA);
    let v = parse_padb(&body).unwrap();
    assert_eq!(v, vec![5u8, 2]);
}

/// `parse_stbl` lands the `padb` on the track alongside the other
/// sample-table boxes (proves the dispatch arm is wired).
#[test]
fn parse_stbl_picks_up_padb() {
    let mut padb = Vec::new();
    padb.extend_from_slice(&[0u8; 4]); // FullBox preamble
    padb.extend_from_slice(&2u32.to_be_bytes()); // sample_count = 2
    padb.push(pack_padb(4, 1));
    let mut stbl = Vec::new();
    stbl.extend(wrap_box_full_size(b"padb", &padb));

    let mut t = fresh_track();
    parse_stbl(&stbl, &mut t).unwrap();
    assert_eq!(t.padb, vec![4u8, 1]);
}

/// Surfacing: a parsed `padb` exposes its summary on `params.options`
/// as four `padb_*` keys (count + max + nonzero_count + 8-bucket
/// histogram). The histogram fully captures the value distribution
/// in a single key; consumers can recover any aggregate from it.
#[test]
fn build_stream_info_surfaces_padb_summary_on_options() {
    let mut t = fresh_track();
    t.media_type = MediaType::Audio;
    t.codec_id_fourcc = *b"mp4a";
    t.timescale = 48_000;
    // Eight samples with pad counts {0, 0, 1, 2, 2, 7, 7, 7}:
    // count=8, max=7, nonzero=6
    // histogram = [2,1,2,0,0,0,0,3]
    t.padb = vec![0u8, 0, 1, 2, 2, 7, 7, 7];
    let info = build_stream_info(0, &t, String::from("unknown"));
    assert_eq!(info.params.options.get("padb_count"), Some("8"));
    assert_eq!(info.params.options.get("padb_max"), Some("7"));
    assert_eq!(info.params.options.get("padb_nonzero_count"), Some("6"));
    assert_eq!(
        info.params.options.get("padb_hist"),
        Some("2:1:2:0:0:0:0:3")
    );
}

/// A `padb` whose every entry is zero (the byte-aligned-bitstream
/// case) still emits the summary keys — the box's presence is the
/// signal that the producer accounted for padding, even if every
/// sample happens to be byte-aligned.
#[test]
fn build_stream_info_padb_all_zero_emits_keys() {
    let mut t = fresh_track();
    t.media_type = MediaType::Audio;
    t.codec_id_fourcc = *b"mp4a";
    t.timescale = 48_000;
    t.padb = vec![0u8; 5];
    let info = build_stream_info(0, &t, String::from("unknown"));
    assert_eq!(info.params.options.get("padb_count"), Some("5"));
    assert_eq!(info.params.options.get("padb_max"), Some("0"));
    assert_eq!(info.params.options.get("padb_nonzero_count"), Some("0"));
    assert_eq!(
        info.params.options.get("padb_hist"),
        Some("5:0:0:0:0:0:0:0")
    );
}

/// Absence: a track with no `padb` emits none of the summary keys.
#[test]
fn build_stream_info_no_padb_no_options() {
    let mut t = fresh_track();
    t.media_type = MediaType::Audio;
    t.codec_id_fourcc = *b"mp4a";
    t.timescale = 48_000;
    let info = build_stream_info(0, &t, String::from("unknown"));
    assert_eq!(info.params.options.get("padb_count"), None);
    assert_eq!(info.params.options.get("padb_max"), None);
    assert_eq!(info.params.options.get("padb_nonzero_count"), None);
    assert_eq!(info.params.options.get("padb_hist"), None);
}

fn build_pdin(entries: &[(u32, u32)]) -> Vec<u8> {
    let mut body = Vec::new();
    body.extend_from_slice(&[0u8; 4]); // FullBox(v=0, flags=0)
    for (rate, delay) in entries {
        body.extend_from_slice(&rate.to_be_bytes());
        body.extend_from_slice(&delay.to_be_bytes());
    }
    body
}

/// `pdin` with a representative two-entry table round-trips through
/// the typed accessor in file order, with both u32 fields preserved
/// verbatim.
#[test]
fn parse_pdin_two_entries_preserves_order() {
    let body = build_pdin(&[(125_000, 2_500), (250_000, 1_200)]);
    let r = parse_pdin(&body).unwrap();
    assert_eq!(r.entries.len(), 2);
    assert_eq!(
        r.entries[0],
        PdinEntry {
            rate: 125_000,
            initial_delay: 2_500,
        }
    );
    assert_eq!(
        r.entries[1],
        PdinEntry {
            rate: 250_000,
            initial_delay: 1_200,
        }
    );
}

/// `pdin` with zero pairs (preamble only, 4-byte body) is permitted:
/// a producer's way of signalling "no progressive-download hints".
#[test]
fn parse_pdin_empty_body_yields_empty_entries() {
    let body = build_pdin(&[]);
    let r = parse_pdin(&body).unwrap();
    assert!(r.entries.is_empty());
}

/// A `pdin` body shorter than the 4-byte FullBox preamble is
/// rejected outright — `parse_pdin` cannot recover the version bits.
#[test]
fn parse_pdin_too_short_preamble() {
    for n in 0..4 {
        let body = vec![0u8; n];
        assert!(parse_pdin(&body).is_err(), "len {n} must err");
    }
}

#[test]
fn parse_pdin_unaligned_payload_is_rejected() {
    // 4-byte preamble + 12 bytes (1.5 pairs) → unaligned.
    let mut body = Vec::new();
    body.extend_from_slice(&[0u8; 4]);
    body.extend_from_slice(&[0u8; 12]);
    assert!(parse_pdin(&body).is_err());

    // 4-byte preamble + 9 bytes (just past one pair) → unaligned.
    let mut body = Vec::new();
    body.extend_from_slice(&[0u8; 4]);
    body.extend_from_slice(&[0u8; 9]);
    assert!(parse_pdin(&body).is_err());
}

#[test]
fn parse_pdin_tolerates_nonzero_version() {
    let mut body = Vec::new();
    body.push(0xAA); // bogus version
    body.extend_from_slice(&[0u8; 3]); // flags
    body.extend_from_slice(&1u32.to_be_bytes());
    body.extend_from_slice(&2u32.to_be_bytes());
    let r = parse_pdin(&body).unwrap();
    assert_eq!(
        r.entries,
        vec![PdinEntry {
            rate: 1,
            initial_delay: 2,
        }]
    );
}

#[test]
fn parse_pdin_big_endian_byte_order() {
    let mut body = Vec::new();
    body.extend_from_slice(&[0u8; 4]); // preamble
                                       // rate = 0x01_02_03_04, initial_delay = 0x05_06_07_08 in big-endian.
    body.extend_from_slice(&[0x01, 0x02, 0x03, 0x04]);
    body.extend_from_slice(&[0x05, 0x06, 0x07, 0x08]);
    let r = parse_pdin(&body).unwrap();
    assert_eq!(r.entries.len(), 1);
    assert_eq!(r.entries[0].rate, 0x01_02_03_04);
    assert_eq!(r.entries[0].initial_delay, 0x05_06_07_08);
}

/// `parse_pdin_box` (the public wrapper) routes through the same
/// `parse_pdin` impl as the internal call, so tooling that has the
/// payload bytes in hand recovers the same `PdinRecord`.
#[test]
fn parse_pdin_box_public_entry_matches_internal() {
    let body = build_pdin(&[(64_000, 5_000), (128_000, 2_400), (256_000, 1_000)]);
    let r_public = parse_pdin_box(&body).unwrap();
    let r_internal = parse_pdin(&body).unwrap();
    assert_eq!(r_public.entries, r_internal.entries);
    assert_eq!(r_public.entries.len(), 3);
}

#[derive(Clone, Copy, Debug)]
struct LevaBuild {
    track_id: u32,
    padding_flag: bool,
    assignment_type: u8,
    grouping_type: u32,
    grouping_type_parameter: u32,
    sub_track_id: u32,
}

fn build_leva(entries: &[LevaBuild]) -> Vec<u8> {
    let mut body = Vec::new();
    body.extend_from_slice(&[0u8; 4]); // FullBox(v=0, flags=0)
    body.push(entries.len() as u8); // level_count
    for e in entries {
        body.extend_from_slice(&e.track_id.to_be_bytes());
        let packed = (if e.padding_flag { 0x80 } else { 0 }) | (e.assignment_type & 0x7f);
        body.push(packed);
        match e.assignment_type {
            0 => body.extend_from_slice(&e.grouping_type.to_be_bytes()),
            1 => {
                body.extend_from_slice(&e.grouping_type.to_be_bytes());
                body.extend_from_slice(&e.grouping_type_parameter.to_be_bytes());
            }
            2 | 3 => {}
            4 => body.extend_from_slice(&e.sub_track_id.to_be_bytes()),
            _ => {}
        }
    }
    body
}

#[test]
fn parse_leva_mixed_assignment_types_preserved() {
    let entries = vec![
        LevaBuild {
            track_id: 1,
            padding_flag: false,
            assignment_type: 0,
            grouping_type: u32::from_be_bytes(*b"roll"),
            grouping_type_parameter: 0,
            sub_track_id: 0,
        },
        LevaBuild {
            track_id: 7,
            padding_flag: true,
            assignment_type: 4,
            grouping_type: 0,
            grouping_type_parameter: 0,
            sub_track_id: 0xAABB_CCDD,
        },
    ];
    let body = build_leva(&entries);
    let r = parse_leva(&body).unwrap();
    assert_eq!(r.entries.len(), 2);

    assert_eq!(r.entries[0].track_id, 1);
    assert!(!r.entries[0].padding_flag);
    assert_eq!(r.entries[0].assignment_type, 0);
    assert_eq!(r.entries[0].grouping_type, u32::from_be_bytes(*b"roll"));
    assert_eq!(r.entries[0].grouping_type_parameter, 0);
    assert_eq!(r.entries[0].sub_track_id, 0);

    assert_eq!(r.entries[1].track_id, 7);
    assert!(r.entries[1].padding_flag);
    assert_eq!(r.entries[1].assignment_type, 4);
    assert_eq!(r.entries[1].sub_track_id, 0xAABB_CCDD);
}

#[test]
fn parse_leva_assignment_type_one_carries_both_grouping_fields() {
    let entries = vec![LevaBuild {
        track_id: 42,
        padding_flag: false,
        assignment_type: 1,
        grouping_type: u32::from_be_bytes(*b"sync"),
        grouping_type_parameter: 0xDEAD_BEEF,
        sub_track_id: 0,
    }];
    let body = build_leva(&entries);
    let r = parse_leva(&body).unwrap();
    assert_eq!(r.entries.len(), 1);
    assert_eq!(r.entries[0].assignment_type, 1);
    assert_eq!(r.entries[0].grouping_type, u32::from_be_bytes(*b"sync"));
    assert_eq!(r.entries[0].grouping_type_parameter, 0xDEAD_BEEF);
}

/// `leva` with assignment_type 2 or 3 (level by track / by
/// track-subsegment) is just the 5-byte header — no variant tail.
/// Two back-to-back type-2 / type-3 entries round-trip cleanly.
#[test]
fn parse_leva_assignment_types_two_three_have_no_tail() {
    let entries = vec![
        LevaBuild {
            track_id: 11,
            padding_flag: false,
            assignment_type: 2,
            grouping_type: 0,
            grouping_type_parameter: 0,
            sub_track_id: 0,
        },
        LevaBuild {
            track_id: 12,
            padding_flag: true,
            assignment_type: 3,
            grouping_type: 0,
            grouping_type_parameter: 0,
            sub_track_id: 0,
        },
    ];
    let body = build_leva(&entries);
    // Body: 4 preamble + 1 level_count + 2*5 entry bytes = 15 total.
    assert_eq!(body.len(), 4 + 1 + 2 * 5);
    let r = parse_leva(&body).unwrap();
    assert_eq!(r.entries.len(), 2);
    assert_eq!(r.entries[0].assignment_type, 2);
    assert_eq!(r.entries[0].track_id, 11);
    assert_eq!(r.entries[1].assignment_type, 3);
    assert_eq!(r.entries[1].track_id, 12);
    assert!(r.entries[1].padding_flag);
}

#[test]
fn parse_leva_zero_level_count_yields_empty_entries() {
    let body = build_leva(&[]);
    let r = parse_leva(&body).unwrap();
    assert!(r.entries.is_empty());
}

/// A `leva` body shorter than the 4-byte FullBox preamble is
/// rejected — `parse_leva` can't recover the version bits.
#[test]
fn parse_leva_too_short_preamble() {
    for n in 0..4 {
        let body = vec![0u8; n];
        assert!(parse_leva(&body).is_err(), "len {n} must err");
    }
}

/// A `leva` body with the FullBox preamble but no `level_count`
/// byte is rejected.
#[test]
fn parse_leva_missing_level_count_byte() {
    let body = vec![0u8; 4];
    assert!(parse_leva(&body).is_err());
}

/// A `leva` body that claims `level_count = 1` but stops before
/// the entry's 5-byte header is rejected as truncated rather than
/// silently treated as zero entries — a short table would lie
/// about which levels exist.
#[test]
fn parse_leva_truncated_entry_header_is_rejected() {
    let mut body = Vec::new();
    body.extend_from_slice(&[0u8; 4]); // preamble
    body.push(1); // level_count = 1
                  // Only 4 bytes of the 5-byte header (track_id but no packed byte).
    body.extend_from_slice(&[0u8; 4]);
    assert!(parse_leva(&body).is_err());
}

/// `leva` assignment_type = 0 with a truncated `grouping_type` (3
/// bytes instead of 4) is rejected.
#[test]
fn parse_leva_truncated_grouping_type_for_at0_is_rejected() {
    let mut body = Vec::new();
    body.extend_from_slice(&[0u8; 4]); // preamble
    body.push(1); // level_count
    body.extend_from_slice(&5u32.to_be_bytes()); // track_id
    body.push(0); // padding=0 | at=0
                  // Only 3 of 4 grouping_type bytes.
    body.extend_from_slice(&[0u8; 3]);
    assert!(parse_leva(&body).is_err());
}

/// `leva` assignment_type = 1 with a truncated tail (4 of 8
/// bytes) is rejected.
#[test]
fn parse_leva_truncated_grouping_parameter_for_at1_is_rejected() {
    let mut body = Vec::new();
    body.extend_from_slice(&[0u8; 4]); // preamble
    body.push(1); // level_count
    body.extend_from_slice(&5u32.to_be_bytes()); // track_id
    body.push(1); // padding=0 | at=1
    body.extend_from_slice(&7u32.to_be_bytes()); // grouping_type
                                                 // Missing the 4-byte grouping_type_parameter.
    assert!(parse_leva(&body).is_err());
}

/// `leva` assignment_type = 4 with a truncated `sub_track_id` (2
/// bytes instead of 4) is rejected.
#[test]
fn parse_leva_truncated_sub_track_id_for_at4_is_rejected() {
    let mut body = Vec::new();
    body.extend_from_slice(&[0u8; 4]); // preamble
    body.push(1); // level_count
    body.extend_from_slice(&5u32.to_be_bytes()); // track_id
    body.push(4); // padding=0 | at=4
    body.extend_from_slice(&[0u8; 2]); // only 2 of 4 sub_track_id bytes
    assert!(parse_leva(&body).is_err());
}

#[test]
fn parse_leva_reserved_assignment_type_consumes_no_tail() {
    let mut body = Vec::new();
    body.extend_from_slice(&[0u8; 4]); // preamble
    body.push(2); // level_count = 2
                  // Entry 0: track_id = 9, padding = 1, at = 5 (reserved).
    body.extend_from_slice(&9u32.to_be_bytes());
    body.push(0x80 | 5);
    // Entry 1: track_id = 10, padding = 0, at = 2 (no tail).
    body.extend_from_slice(&10u32.to_be_bytes());
    body.push(2);
    let r = parse_leva(&body).unwrap();
    assert_eq!(r.entries.len(), 2);
    assert_eq!(r.entries[0].track_id, 9);
    assert!(r.entries[0].padding_flag);
    assert_eq!(r.entries[0].assignment_type, 5);
    assert_eq!(r.entries[0].grouping_type, 0);
    assert_eq!(r.entries[0].grouping_type_parameter, 0);
    assert_eq!(r.entries[0].sub_track_id, 0);
    // The second entry must have parsed cleanly, proving the
    // reserved entry didn't consume the next header's bytes.
    assert_eq!(r.entries[1].track_id, 10);
    assert_eq!(r.entries[1].assignment_type, 2);
}

#[test]
fn parse_leva_tolerates_nonzero_version() {
    let mut body = Vec::new();
    body.push(0xCC); // bogus version
    body.extend_from_slice(&[0u8; 3]); // flags
    body.push(1); // level_count
    body.extend_from_slice(&42u32.to_be_bytes()); // track_id
    body.push(0x80 | 3); // padding=1 | at=3 (no tail)
    let r = parse_leva(&body).unwrap();
    assert_eq!(r.entries.len(), 1);
    assert_eq!(r.entries[0].track_id, 42);
    assert!(r.entries[0].padding_flag);
    assert_eq!(r.entries[0].assignment_type, 3);
}

#[test]
fn parse_leva_big_endian_byte_order() {
    let mut body = Vec::new();
    body.extend_from_slice(&[0u8; 4]); // preamble
    body.push(1); // level_count
    body.extend_from_slice(&[0x11, 0x22, 0x33, 0x44]); // track_id
    body.push(0); // packed byte: padding=0 | at=0
    body.extend_from_slice(&[0xAB, 0xCD, 0xEF, 0x01]); // grouping_type
    let r = parse_leva(&body).unwrap();
    assert_eq!(r.entries.len(), 1);
    assert_eq!(r.entries[0].track_id, 0x1122_3344);
    assert_eq!(r.entries[0].grouping_type, 0xABCD_EF01);
}

/// `parse_leva` masks the 7-bit `assignment_type` against the
/// `padding_flag` high bit — both halves of the packed byte are
/// independently recoverable.
#[test]
fn parse_leva_packed_byte_splits_padding_and_assignment_type() {
    for padding in [false, true] {
        for at in 0u8..=4 {
            let mut body = Vec::new();
            body.extend_from_slice(&[0u8; 4]);
            body.push(1);
            body.extend_from_slice(&3u32.to_be_bytes());
            body.push((if padding { 0x80 } else { 0 }) | at);
            match at {
                0 => body.extend_from_slice(&0u32.to_be_bytes()),
                1 => body.extend_from_slice(&[0u8; 8]),
                2 | 3 => {}
                4 => body.extend_from_slice(&0u32.to_be_bytes()),
                _ => {}
            }
            let r = parse_leva(&body).unwrap();
            assert_eq!(r.entries.len(), 1);
            assert_eq!(r.entries[0].padding_flag, padding);
            assert_eq!(r.entries[0].assignment_type, at);
        }
    }
}

/// `parse_leva_box` (the public wrapper) routes through the same
/// `parse_leva` impl as the internal call, so tooling that has
/// the payload bytes in hand recovers the same `LevaRecord`.
#[test]
fn parse_leva_box_public_entry_matches_internal() {
    let entries = vec![
        LevaBuild {
            track_id: 1,
            padding_flag: true,
            assignment_type: 0,
            grouping_type: u32::from_be_bytes(*b"rap "),
            grouping_type_parameter: 0,
            sub_track_id: 0,
        },
        LevaBuild {
            track_id: 2,
            padding_flag: false,
            assignment_type: 1,
            grouping_type: u32::from_be_bytes(*b"alst"),
            grouping_type_parameter: 0x1234_5678,
            sub_track_id: 0,
        },
        LevaBuild {
            track_id: 3,
            padding_flag: false,
            assignment_type: 4,
            grouping_type: 0,
            grouping_type_parameter: 0,
            sub_track_id: 99,
        },
    ];
    let body = build_leva(&entries);
    let r_public = parse_leva_box(&body).unwrap();
    let r_internal = parse_leva(&body).unwrap();
    assert_eq!(r_public.entries, r_internal.entries);
    assert_eq!(r_public.entries.len(), 3);
}


/// Build a child box (8-byte header + payload) for embedding in a
/// `trep` body.
fn build_child_box(fourcc: &[u8; 4], payload: &[u8]) -> Vec<u8> {
    let size = 8 + payload.len();
    let mut v = Vec::with_capacity(size);
    v.extend_from_slice(&(size as u32).to_be_bytes());
    v.extend_from_slice(fourcc);
    v.extend_from_slice(payload);
    v
}

/// Build a `trep` body: 4-byte FullBox preamble + 4-byte track_id +
/// the concatenated child boxes.
fn build_trep(track_id: u32, children: &[Vec<u8>]) -> Vec<u8> {
    let mut v = Vec::new();
    v.extend_from_slice(&[0u8; 4]); // version + flags = 0
    v.extend_from_slice(&track_id.to_be_bytes());
    for c in children {
        v.extend_from_slice(c);
    }
    v
}

/// A `trep` carrying just its `track_id` (no children) parses to an
/// empty `children` list. Body is 4 preamble + 4 track_id = 8 bytes.
#[test]
fn parse_trep_track_id_only() {
    let body = build_trep(0x0102_0304, &[]);
    assert_eq!(body.len(), 8);
    let r = parse_trep(&body).unwrap();
    assert_eq!(r.track_id, 0x0102_0304);
    assert!(r.children.is_empty());
}

/// A `trep` with two child boxes records each child's fourcc and
/// payload length, in file order, without recursing into them.
#[test]
fn parse_trep_records_children_in_order() {
    let assp = build_child_box(b"assp", &[0xaa; 12]);
    let unkn = build_child_box(b"xyzw", &[]);
    let body = build_trep(7, &[assp, unkn]);
    let r = parse_trep(&body).unwrap();
    assert_eq!(r.track_id, 7);
    assert_eq!(r.children.len(), 2);
    assert_eq!(&r.children[0].fourcc, b"assp");
    assert_eq!(r.children[0].payload_len, 12);
    assert_eq!(&r.children[1].fourcc, b"xyzw");
    assert_eq!(r.children[1].payload_len, 0);
}

/// A `trep` body shorter than the 4-byte FullBox preamble is
/// rejected — there's nothing to recover.
#[test]
fn parse_trep_too_short_preamble() {
    for n in 0..4 {
        let body = vec![0u8; n];
        assert!(parse_trep(&body).is_err(), "len {n} must err");
    }
}

/// A `trep` body with the preamble but a truncated `track_id` (fewer
/// than 4 bytes after the preamble) is rejected.
#[test]
fn parse_trep_truncated_track_id() {
    for extra in 0..4 {
        let mut body = vec![0u8; 4]; // preamble
        body.extend_from_slice(&vec![0u8; extra]);
        assert!(
            parse_trep(&body).is_err(),
            "track_id with {extra} bytes must err",
        );
    }
}

/// A non-zero FullBox version is tolerated (the layout up to
/// `track_id` is unambiguous), matching the `parse_leva` posture.
#[test]
fn parse_trep_tolerates_nonzero_version() {
    let mut body = build_trep(42, &[build_child_box(b"assp", &[1, 2, 3, 4])]);
    body[0] = 0x01; // flip the version byte
    let r = parse_trep(&body).unwrap();
    assert_eq!(r.track_id, 42);
    assert_eq!(r.children.len(), 1);
    assert_eq!(r.children[0].payload_len, 4);
}

/// A child whose declared size overruns the remaining `trep` body is
/// clamped to the bytes available, recorded with the clamped length,
/// and ends the child walk (no sibling can follow an over-long box).
#[test]
fn parse_trep_clamps_overlong_child() {
    let mut body = build_trep(3, &[]);
    // Child header declaring size 0x40 (64) but only 4 payload
    // bytes actually present after the 8-byte header.
    body.extend_from_slice(&64u32.to_be_bytes());
    body.extend_from_slice(b"assp");
    body.extend_from_slice(&[0xff; 4]);
    let r = parse_trep(&body).unwrap();
    assert_eq!(r.children.len(), 1);
    assert_eq!(&r.children[0].fourcc, b"assp");
    // Available after the header = 4 bytes; clamped payload_len = 4.
    assert_eq!(r.children[0].payload_len, 4);
}

#[test]
fn parse_trep_trailing_partial_child_header_ignored() {
    let mut body = build_trep(9, &[build_child_box(b"assp", &[0; 4])]);
    // Append 5 stray bytes — too few for an 8-byte box header.
    body.extend_from_slice(&[0x11; 5]);
    let r = parse_trep(&body).unwrap();
    assert_eq!(r.track_id, 9);
    assert_eq!(r.children.len(), 1);
    assert_eq!(&r.children[0].fourcc, b"assp");
}

/// A child using the 64-bit `largesize` form (size32 == 1) is read
/// via its 16-byte header and the largesize field.
#[test]
fn parse_trep_child_largesize_form() {
    let mut body = build_trep(5, &[]);
    // size32 = 1 signals a 64-bit largesize follows the fourcc.
    let payload = [0x55u8; 6];
    let total: u64 = (16 + payload.len()) as u64;
    body.extend_from_slice(&1u32.to_be_bytes());
    body.extend_from_slice(b"assp");
    body.extend_from_slice(&total.to_be_bytes());
    body.extend_from_slice(&payload);
    let r = parse_trep(&body).unwrap();
    assert_eq!(r.children.len(), 1);
    assert_eq!(&r.children[0].fourcc, b"assp");
    assert_eq!(r.children[0].payload_len, 6);
}

/// `parse_trep_box` (the public wrapper) routes through the same
/// internal parser as the `open()` walk.
#[test]
fn parse_trep_box_public_entry_matches_internal() {
    let body = build_trep(123, &[build_child_box(b"assp", &[7; 8])]);
    let r_public = parse_trep_box(&body).unwrap();
    let r_internal = parse_trep(&body).unwrap();
    assert_eq!(r_public.track_id, r_internal.track_id);
    assert_eq!(r_public.children, r_internal.children);
    assert_eq!(r_public.track_id, 123);
}

/// `parse_ssix_box` (the public wrapper) routes through the same
/// internal parser as the `open()` walk, and `build_ssix_box`
/// round-trips a record through it (modulo the 8-byte box header
/// the builder prepends).
#[test]
fn ssix_public_entries_round_trip() {
    let record = SsixRecord {
        subsegments: vec![
            SsixSubsegment {
                ranges: vec![
                    SsixRange {
                        level: 0,
                        range_size: 1_024,
                    },
                    SsixRange {
                        level: 1,
                        range_size: 0xFF_FFFF,
                    },
                ],
            },
            SsixSubsegment {
                ranges: vec![
                    SsixRange {
                        level: 0,
                        range_size: 512,
                    },
                    SsixRange {
                        level: 2,
                        range_size: 7,
                    },
                ],
            },
        ],
    };
    let boxed = build_ssix_box(&record).unwrap();
    assert_eq!(&boxed[4..8], b"ssix");
    assert_eq!(
        boxed.len(),
        u32::from_be_bytes(boxed[..4].try_into().unwrap()) as usize
    );
    let body = &boxed[8..];
    let r_public = parse_ssix_box(body).unwrap();
    let r_internal = parse_ssix(body).unwrap();
    assert_eq!(r_public, r_internal);
    assert_eq!(r_public, record);
}

type SubsV0Row = (u16, u8, u8, u32);
type SubsV1Row = (u32, u8, u8, u32);

fn build_subs_v0(flags: u32, entries: &[(u32, &[SubsV0Row])]) -> Vec<u8> {
    let mut body = Vec::new();
    body.push(0u8); // version
    body.extend_from_slice(&flags.to_be_bytes()[1..]); // 24-bit flags
    body.extend_from_slice(&(entries.len() as u32).to_be_bytes());
    for (sample_delta, subs) in entries {
        body.extend_from_slice(&sample_delta.to_be_bytes());
        body.extend_from_slice(&(subs.len() as u16).to_be_bytes());
        for (size, prio, disc, csp) in subs.iter() {
            body.extend_from_slice(&size.to_be_bytes());
            body.push(*prio);
            body.push(*disc);
            body.extend_from_slice(&csp.to_be_bytes());
        }
    }
    body
}

/// Build a v1 `subs` body — `subsample_size` widens to 32-bit.
fn build_subs_v1(flags: u32, entries: &[(u32, &[SubsV1Row])]) -> Vec<u8> {
    let mut body = Vec::new();
    body.push(1u8);
    body.extend_from_slice(&flags.to_be_bytes()[1..]);
    body.extend_from_slice(&(entries.len() as u32).to_be_bytes());
    for (sample_delta, subs) in entries {
        body.extend_from_slice(&sample_delta.to_be_bytes());
        body.extend_from_slice(&(subs.len() as u16).to_be_bytes());
        for (size, prio, disc, csp) in subs.iter() {
            body.extend_from_slice(&size.to_be_bytes());
            body.push(*prio);
            body.push(*disc);
            body.extend_from_slice(&csp.to_be_bytes());
        }
    }
    body
}

#[test]
fn parse_subs_v0_round_trip() {
    let body = build_subs_v0(
        0,
        &[
            (
                1,
                &[
                    (100, 5, 0, 0x0000_0001),
                    (50, 4, 1, 0x0000_0002),
                    (25, 3, 0, 0),
                ],
            ),
            (2, &[(80, 6, 0, 0xdead_beef)]),
        ],
    );
    let s = parse_subs(&body).unwrap();
    assert_eq!(s.version, 0);
    assert_eq!(s.flags, 0);
    assert_eq!(s.entries.len(), 2);
    assert_eq!(s.entries[0].sample_delta, 1);
    assert_eq!(s.entries[0].subsamples.len(), 3);
    assert_eq!(s.entries[0].subsamples[0].subsample_size, 100);
    assert_eq!(s.entries[0].subsamples[0].subsample_priority, 5);
    assert_eq!(s.entries[0].subsamples[0].discardable, 0);
    assert_eq!(s.entries[0].subsamples[0].codec_specific_parameters, 1);
    assert_eq!(s.entries[0].subsamples[2].subsample_size, 25);
    assert_eq!(s.entries[1].sample_delta, 2);
    assert_eq!(s.entries[1].subsamples.len(), 1);
    assert_eq!(
        s.entries[1].subsamples[0].codec_specific_parameters,
        0xdead_beef
    );
}

#[test]
fn parse_subs_v1_size_is_32bit() {
    let body = build_subs_v1(0, &[(1, &[(0x0001_2345, 0, 0, 0)])]);
    let s = parse_subs(&body).unwrap();
    assert_eq!(s.version, 1);
    assert_eq!(s.entries[0].subsamples[0].subsample_size, 0x0001_2345);
}

#[test]
fn parse_subs_empty_subsample_count() {
    let body = build_subs_v0(0, &[(5, &[])]);
    let s = parse_subs(&body).unwrap();
    assert_eq!(s.entries.len(), 1);
    assert_eq!(s.entries[0].sample_delta, 5);
    assert!(s.entries[0].subsamples.is_empty());
}

#[test]
fn parse_subs_preserves_flags() {
    let body = build_subs_v0(0x00_aa_55, &[(1, &[])]);
    let s = parse_subs(&body).unwrap();
    assert_eq!(s.flags, 0x00_aa_55);
}

/// A body too short to hold even the FullBox preamble + entry_count
/// is rejected.
#[test]
fn parse_subs_too_short() {
    assert!(parse_subs(&[0u8; 7]).is_err());
}

/// A truncated sub-sample row (entry_count promises 1 entry, but the
/// body runs out mid-sub-sample) is rejected rather than silently
/// returning the partial table.
#[test]
fn parse_subs_truncated_subsample() {
    let mut body = Vec::new();
    body.extend_from_slice(&[0u8; 4]); // FullBox preamble
    body.extend_from_slice(&1u32.to_be_bytes()); // entry_count = 1
    body.extend_from_slice(&1u32.to_be_bytes()); // sample_delta
    body.extend_from_slice(&1u16.to_be_bytes()); // subsample_count = 1
    body.extend_from_slice(&[0u8; 3]); // truncated subsample (need 8)
    assert!(parse_subs(&body).is_err());
}

/// `parse_stbl` lands the `subs` on the track alongside the other
/// sample-table boxes (proves the dispatch arm is wired).
#[test]
fn parse_stbl_picks_up_subs() {
    let subs_body = build_subs_v0(0, &[(1, &[(42, 0, 0, 0)])]);
    let mut stbl = Vec::new();
    stbl.extend(wrap_box_full_size(b"subs", &subs_body));
    let mut t = fresh_track();
    parse_stbl(&stbl, &mut t).unwrap();
    assert_eq!(t.subs.len(), 1);
    assert_eq!(t.subs[0].entries[0].subsamples[0].subsample_size, 42);
}

#[test]
fn parse_stbl_accumulates_multiple_subs() {
    let s1 = build_subs_v0(0, &[(1, &[(10, 0, 0, 0)])]);
    let s2 = build_subs_v0(1, &[(2, &[(20, 0, 0, 0)])]);
    let mut stbl = Vec::new();
    stbl.extend(wrap_box_full_size(b"subs", &s1));
    stbl.extend(wrap_box_full_size(b"subs", &s2));
    let mut t = fresh_track();
    parse_stbl(&stbl, &mut t).unwrap();
    assert_eq!(t.subs.len(), 2);
    assert_eq!(t.subs[0].flags, 0);
    assert_eq!(t.subs[1].flags, 1);
}

#[test]
fn build_stream_info_surfaces_subs_on_options() {
    let mut t = fresh_track();
    t.media_type = MediaType::Video;
    t.codec_id_fourcc = *b"avc1";
    t.timescale = 1000;
    t.subs.push(SubsBox {
        version: 0,
        flags: 0x42,
        entries: vec![
            SubsEntry {
                sample_delta: 1,
                subsamples: vec![
                    SubSampleEntry {
                        subsample_size: 100,
                        subsample_priority: 5,
                        discardable: 0,
                        codec_specific_parameters: 0x0000_0001,
                    },
                    SubSampleEntry {
                        subsample_size: 50,
                        subsample_priority: 0,
                        discardable: 1,
                        codec_specific_parameters: 0x0000_0002,
                    },
                ],
            },
            SubsEntry {
                sample_delta: 3,
                subsamples: Vec::new(),
            },
        ],
    });
    let info = build_stream_info(0, &t, String::from("unknown"));
    let got = info.params.options.get("subs_0").unwrap();
    assert_eq!(
        got,
        "v0 flags=66 delta=1:100,5,0,00000001;50,0,1,00000002 delta=3"
    );
}

/// Absence: a track with no `subs` emits no `subs_<n>` keys.
#[test]
fn build_stream_info_no_subs_no_options() {
    let mut t = fresh_track();
    t.media_type = MediaType::Video;
    t.codec_id_fourcc = *b"avc1";
    t.timescale = 1000;
    let info = build_stream_info(0, &t, String::from("unknown"));
    assert_eq!(info.params.options.get("subs_0"), None);
}


#[test]
fn parse_saiz_constant_size_no_aux_type_key() {
    let mut body = Vec::new();
    body.extend_from_slice(&[0u8; 4]); // version=0, flags=0
    body.push(16u8); // default_sample_info_size = 16
    body.extend_from_slice(&5u32.to_be_bytes()); // sample_count = 5
    let sz = parse_saiz(&body).expect("saiz parses");
    assert_eq!(sz.aux_info_type, None);
    assert_eq!(sz.aux_info_type_parameter, None);
    assert_eq!(sz.default_sample_info_size, 16);
    assert_eq!(sz.sample_count, 5);
    assert!(sz.per_sample.is_empty());
}

#[test]
fn parse_saiz_variable_size_with_aux_type_key() {
    let mut body = Vec::new();
    body.extend_from_slice(&[0u8, 0, 0, 1]); // version=0, flags=1
    body.extend_from_slice(b"cenc"); // aux_info_type
    body.extend_from_slice(&0u32.to_be_bytes()); // aux_info_type_parameter
    body.push(0u8); // default_sample_info_size = 0 → per-sample table
    body.extend_from_slice(&3u32.to_be_bytes()); // sample_count = 3
    body.extend_from_slice(&[12u8, 24u8, 36u8]); // sample_info_size[]
    let sz = parse_saiz(&body).expect("saiz parses");
    assert_eq!(sz.aux_info_type, Some(*b"cenc"));
    assert_eq!(sz.aux_info_type_parameter, Some(0));
    assert_eq!(sz.default_sample_info_size, 0);
    assert_eq!(sz.sample_count, 3);
    assert_eq!(sz.per_sample, vec![12, 24, 36]);
}

#[test]
fn parse_saiz_truncated_per_sample_returns_err() {
    let mut body = Vec::new();
    body.extend_from_slice(&[0u8; 4]); // version=0, flags=0
    body.push(0u8); // default_sample_info_size = 0 → per-sample table
    body.extend_from_slice(&100u32.to_be_bytes()); // claims 100 samples
    body.extend_from_slice(&[1u8, 2u8, 3u8]); // only 3 bytes follow
    let err = parse_saiz(&body).expect_err("truncation must err");
    assert!(err.message().contains("MP4: saiz"));
}


#[test]
fn parse_saio_v0_single_offset_no_aux_type() {
    let mut body = Vec::new();
    body.extend_from_slice(&[0u8; 4]); // version=0, flags=0
    body.extend_from_slice(&1u32.to_be_bytes()); // entry_count = 1
    body.extend_from_slice(&0xdead_beefu32.to_be_bytes()); // offset
    let so = parse_saio(&body).expect("saio v0 parses");
    assert_eq!(so.version, 0);
    assert_eq!(so.aux_info_type, None);
    assert_eq!(so.aux_info_type_parameter, None);
    assert_eq!(so.offsets, vec![0xdead_beef]);
}

#[test]
fn parse_saio_v1_two_64bit_offsets_with_aux_type() {
    let mut body = Vec::new();
    body.extend_from_slice(&[1u8, 0, 0, 1]); // version=1, flags=1
    body.extend_from_slice(b"cenc");
    body.extend_from_slice(&7u32.to_be_bytes());
    body.extend_from_slice(&2u32.to_be_bytes()); // entry_count = 2
    body.extend_from_slice(&0x0000_0001_0000_0000u64.to_be_bytes());
    body.extend_from_slice(&0xffff_ffff_ffff_0000u64.to_be_bytes());
    let so = parse_saio(&body).expect("saio v1 parses");
    assert_eq!(so.version, 1);
    assert_eq!(so.aux_info_type, Some(*b"cenc"));
    assert_eq!(so.aux_info_type_parameter, Some(7));
    assert_eq!(
        so.offsets,
        vec![0x0000_0001_0000_0000, 0xffff_ffff_ffff_0000]
    );
}

/// Truncation: a forged `entry_count` that exceeds the body size
/// must err rather than panic / wrap. Confirms the anti-DoS budget
/// cap (per_entry width × entry_count) holds.
#[test]
fn parse_saio_truncated_offsets_returns_err() {
    let mut body = Vec::new();
    body.extend_from_slice(&[0u8; 4]); // v0, flags=0
    body.extend_from_slice(&100u32.to_be_bytes()); // claims 100 entries
    body.extend_from_slice(&1u32.to_be_bytes()); // only 1 follows
    let err = parse_saio(&body).expect_err("truncation must err");
    assert!(err.message().contains("MP4: saio"));
}

/// `parse_stbl` dispatch wires both boxes onto the Track. Build a
/// minimal `stbl` carrying one `saiz` (constant-size) + one
/// `saio` (single absolute offset) and verify the Track captures
/// both with their fields intact.
#[test]
fn parse_stbl_collects_saiz_and_saio() {
    // saiz body: flags=0, default_sample_info_size=8, sample_count=4.
    let mut saiz_body = Vec::new();
    saiz_body.extend_from_slice(&[0u8; 4]);
    saiz_body.push(8u8);
    saiz_body.extend_from_slice(&4u32.to_be_bytes());

    // saio body: v0, flags=0, entry_count=1, offset=0x1000.
    let mut saio_body = Vec::new();
    saio_body.extend_from_slice(&[0u8; 4]);
    saio_body.extend_from_slice(&1u32.to_be_bytes());
    saio_body.extend_from_slice(&0x1000u32.to_be_bytes());

    let mut stbl = Vec::new();
    stbl.extend(wrap_box_full_size(b"saiz", &saiz_body));
    stbl.extend(wrap_box_full_size(b"saio", &saio_body));

    let mut t = fresh_track();
    parse_stbl(&stbl, &mut t).unwrap();
    assert_eq!(t.saiz.len(), 1);
    assert_eq!(t.saiz[0].default_sample_info_size, 8);
    assert_eq!(t.saiz[0].sample_count, 4);
    assert_eq!(t.saio.len(), 1);
    assert_eq!(t.saio[0].version, 0);
    assert_eq!(t.saio[0].offsets, vec![0x1000]);
}

/// `build_stream_info` surfaces both boxes on `params.options`.
/// Pair: a `saiz` carrying a `(cenc, 0)` key + variable per-sample
/// table; a `saio` with the same key + two 64-bit offsets. The
/// formatted strings follow the documented format.
#[test]
fn build_stream_info_surfaces_saiz_and_saio_on_options() {
    let mut t = fresh_track();
    t.media_type = MediaType::Video;
    t.codec_id_fourcc = *b"encv";
    t.timescale = 1000;
    t.saiz.push(SaizBox {
        aux_info_type: Some(*b"cenc"),
        aux_info_type_parameter: Some(0),
        default_sample_info_size: 0,
        sample_count: 3,
        per_sample: vec![18, 18, 26],
    });
    t.saio.push(SaioBox {
        version: 1,
        aux_info_type: Some(*b"cenc"),
        aux_info_type_parameter: Some(0),
        offsets: vec![0x1_0000, 0x2_0000],
    });
    let info = build_stream_info(0, &t, String::from("unknown"));
    assert_eq!(
        info.params.options.get("saiz_0").unwrap(),
        "type=cenc param=0 default_size=0 count=3 sizes=18,18,26"
    );
    assert_eq!(
        info.params.options.get("saio_0").unwrap(),
        "v1 type=cenc param=0 offsets=65536,131072"
    );
}

#[test]
fn build_stream_info_no_saiz_saio_no_options() {
    let mut t = fresh_track();
    t.media_type = MediaType::Video;
    t.codec_id_fourcc = *b"avc1";
    t.timescale = 1000;
    let info = build_stream_info(0, &t, String::from("unknown"));
    assert_eq!(info.params.options.get("saiz_0"), None);
    assert_eq!(info.params.options.get("saio_0"), None);
}

/// `saiz` with no aux_info_type key + constant size: surfaced
/// without the `type=` / `param=` prefix and without `sizes=`.
#[test]
fn build_stream_info_surfaces_saiz_constant_no_key() {
    let mut t = fresh_track();
    t.media_type = MediaType::Audio;
    t.codec_id_fourcc = *b"mp4a";
    t.timescale = 48_000;
    t.saiz.push(SaizBox {
        aux_info_type: None,
        aux_info_type_parameter: None,
        default_sample_info_size: 22,
        sample_count: 100,
        per_sample: Vec::new(),
    });
    let info = build_stream_info(0, &t, String::from("unknown"));
    assert_eq!(
        info.params.options.get("saiz_0").unwrap(),
        "default_size=22 count=100"
    );
}


#[test]
fn parse_mehd_v0_reads_32_bit_fragment_duration() {
    // FullBox(version=0, flags=0) + u32 fragment_duration
    let mut body = vec![0u8, 0, 0, 0];
    body.extend_from_slice(&0xDEAD_BEEFu32.to_be_bytes());
    let d = parse_mehd(&body).expect("v0 mehd parses");
    assert_eq!(d, 0xDEAD_BEEF);
}

#[test]
fn parse_mehd_v1_reads_64_bit_fragment_duration() {
    // FullBox(version=1, flags=0) + u64 fragment_duration
    let mut body = vec![1u8, 0, 0, 0];
    let dur: u64 = 0x0123_4567_89AB_CDEF;
    body.extend_from_slice(&dur.to_be_bytes());
    let d = parse_mehd(&body).expect("v1 mehd parses");
    assert_eq!(d, dur);
}

#[test]
fn parse_mehd_rejects_empty_body() {
    assert!(parse_mehd(&[]).is_err());
}

#[test]
fn parse_mehd_rejects_truncated_v0() {
    // version=0, flags=0, only 2 of 4 duration bytes.
    let body = vec![0u8, 0, 0, 0, 0x12, 0x34];
    assert!(parse_mehd(&body).is_err());
}

#[test]
fn parse_mehd_rejects_truncated_v1() {
    // version=1, flags=0, only 4 of 8 duration bytes.
    let body = vec![1u8, 0, 0, 0, 0, 0, 0, 0];
    assert!(parse_mehd(&body).is_err());
}

#[test]
fn parse_mehd_rejects_unknown_version() {
    let mut body = vec![2u8, 0, 0, 0];
    body.extend_from_slice(&0u64.to_be_bytes());
    assert!(parse_mehd(&body).is_err());
}


fn build_moof_body_with_pssh(seq: u32, psshes: &[Vec<u8>]) -> Vec<u8> {
    // mfhd: FullBox(version=0, flags=0) + u32 sequence_number.
    let mut mfhd_body = vec![0u8; 4];
    mfhd_body.extend_from_slice(&seq.to_be_bytes());
    let mfhd = wrap_box(b"mfhd", &mfhd_body);

    let mut body = Vec::new();
    body.extend_from_slice(&mfhd);
    for pssh_body in psshes {
        body.extend_from_slice(&wrap_box(b"pssh", pssh_body));
    }
    body
}

/// Wrap `body` with an 8-byte BoxHeader (size + fourcc).
fn wrap_box(fourcc: &[u8; 4], body: &[u8]) -> Vec<u8> {
    let total = (8 + body.len()) as u32;
    let mut out = Vec::with_capacity(8 + body.len());
    out.extend_from_slice(&total.to_be_bytes());
    out.extend_from_slice(fourcc);
    out.extend_from_slice(body);
    out
}

/// Construct a v0 `pssh` body: FullBox + 16-byte SystemID +
/// u32 DataSize + Data.
fn pssh_v0_body(system_id: &[u8; 16], data: &[u8]) -> Vec<u8> {
    let mut body = vec![0u8; 4]; // version=0, flags=0
    body.extend_from_slice(system_id);
    body.extend_from_slice(&(data.len() as u32).to_be_bytes());
    body.extend_from_slice(data);
    body
}

/// Construct a v1 `pssh` body: FullBox + SystemID + KID_count + KIDs +
/// DataSize + Data.
fn pssh_v1_body(system_id: &[u8; 16], kids: &[[u8; 16]], data: &[u8]) -> Vec<u8> {
    let mut body = vec![1u8, 0, 0, 0]; // version=1, flags=0
    body.extend_from_slice(system_id);
    body.extend_from_slice(&(kids.len() as u32).to_be_bytes());
    for k in kids {
        body.extend_from_slice(k);
    }
    body.extend_from_slice(&(data.len() as u32).to_be_bytes());
    body.extend_from_slice(data);
    body
}

#[test]
fn parse_moof_collects_one_pssh_keyed_by_mfhd_sequence() {
    let sysid: [u8; 16] = [
        0xed, 0xef, 0x8b, 0xa9, 0x79, 0xd6, 0x4a, 0xce, 0xa3, 0xc8, 0x27, 0xdc, 0xd5, 0x1d,
        0x21, 0xed,
    ];
    let data = b"opaque-drm-blob".to_vec();
    let body = build_moof_body_with_pssh(7, &[pssh_v0_body(&sysid, &data)]);
    let moof = MoofRecord {
        moof_start: 0,
        body,
    };
    let mut samples: Vec<SampleRef> = Vec::new();
    let mut next_dts: Vec<i64> = Vec::new();
    let mut senc: Vec<SencRecord> = Vec::new();
    let mut sai: Vec<SaiRecord> = Vec::new();
    let mut moof_psshes: Vec<MoofPsshRecord> = Vec::new();
    parse_moof(
        &moof,
        &[],
        &mut samples,
        &mut next_dts,
        &mut senc,
        &mut sai,
        &mut moof_psshes,
    )
    .expect("moof walk succeeds");

    assert_eq!(moof_psshes.len(), 1);
    let r = &moof_psshes[0];
    assert_eq!(r.moof_sequence, 7);
    assert_eq!(r.pssh.version, 0);
    assert_eq!(r.pssh.system_id, sysid);
    assert!(r.pssh.kids.is_empty());
    assert_eq!(r.pssh.data, data);
}

#[test]
fn parse_moof_collects_two_psshes_v0_and_v1_in_walk_order() {
    let sysid_a: [u8; 16] = [0x11; 16];
    let sysid_b: [u8; 16] = [0x22; 16];
    let kid_x: [u8; 16] = [0xAA; 16];
    let kid_y: [u8; 16] = [0xBB; 16];
    let data_a = b"sys-a-data".to_vec();
    let data_b = b"sys-b-data-longer".to_vec();
    let body = build_moof_body_with_pssh(
        42,
        &[
            pssh_v0_body(&sysid_a, &data_a),
            pssh_v1_body(&sysid_b, &[kid_x, kid_y], &data_b),
        ],
    );
    let moof = MoofRecord {
        moof_start: 0,
        body,
    };
    let mut samples: Vec<SampleRef> = Vec::new();
    let mut next_dts: Vec<i64> = Vec::new();
    let mut senc: Vec<SencRecord> = Vec::new();
    let mut sai: Vec<SaiRecord> = Vec::new();
    let mut moof_psshes: Vec<MoofPsshRecord> = Vec::new();
    parse_moof(
        &moof,
        &[],
        &mut samples,
        &mut next_dts,
        &mut senc,
        &mut sai,
        &mut moof_psshes,
    )
    .expect("moof walk succeeds");

    assert_eq!(moof_psshes.len(), 2);
    // Same fragment scope on both.
    assert_eq!(moof_psshes[0].moof_sequence, 42);
    assert_eq!(moof_psshes[1].moof_sequence, 42);
    // Walk order preserved.
    assert_eq!(moof_psshes[0].pssh.version, 0);
    assert_eq!(moof_psshes[0].pssh.system_id, sysid_a);
    assert!(moof_psshes[0].pssh.kids.is_empty());
    assert_eq!(moof_psshes[0].pssh.data, data_a);

    assert_eq!(moof_psshes[1].pssh.version, 1);
    assert_eq!(moof_psshes[1].pssh.system_id, sysid_b);
    assert_eq!(moof_psshes[1].pssh.kids, vec![kid_x, kid_y]);
    assert_eq!(moof_psshes[1].pssh.data, data_b);
}

#[test]
fn parse_moof_pssh_before_mfhd_still_binds_to_sequence() {
    let sysid: [u8; 16] = [0xCC; 16];
    let data = b"pre-mfhd-pssh".to_vec();

    // Build moof body with pssh FIRST, then mfhd.
    let mut mfhd_body = vec![0u8; 4];
    mfhd_body.extend_from_slice(&99u32.to_be_bytes());
    let mfhd = wrap_box(b"mfhd", &mfhd_body);
    let pssh = wrap_box(b"pssh", &pssh_v0_body(&sysid, &data));
    let mut body = Vec::new();
    body.extend_from_slice(&pssh);
    body.extend_from_slice(&mfhd);

    let moof = MoofRecord {
        moof_start: 0,
        body,
    };
    let mut samples: Vec<SampleRef> = Vec::new();
    let mut next_dts: Vec<i64> = Vec::new();
    let mut senc: Vec<SencRecord> = Vec::new();
    let mut sai: Vec<SaiRecord> = Vec::new();
    let mut moof_psshes: Vec<MoofPsshRecord> = Vec::new();
    parse_moof(
        &moof,
        &[],
        &mut samples,
        &mut next_dts,
        &mut senc,
        &mut sai,
        &mut moof_psshes,
    )
    .expect("moof walk succeeds");

    assert_eq!(moof_psshes.len(), 1);
    assert_eq!(moof_psshes[0].moof_sequence, 99);
    assert_eq!(moof_psshes[0].pssh.system_id, sysid);
    assert_eq!(moof_psshes[0].pssh.data, data);
}

#[test]
fn parse_moof_drops_malformed_pssh_silently() {
    // Truncated pssh body: just FullBox header, no SystemID/data.
    let bad = vec![0u8; 4];
    let body = build_moof_body_with_pssh(3, &[bad]);
    let moof = MoofRecord {
        moof_start: 0,
        body,
    };
    let mut samples: Vec<SampleRef> = Vec::new();
    let mut next_dts: Vec<i64> = Vec::new();
    let mut senc: Vec<SencRecord> = Vec::new();
    let mut sai: Vec<SaiRecord> = Vec::new();
    let mut moof_psshes: Vec<MoofPsshRecord> = Vec::new();
    parse_moof(
        &moof,
        &[],
        &mut samples,
        &mut next_dts,
        &mut senc,
        &mut sai,
        &mut moof_psshes,
    )
    .expect("walk succeeds despite bad pssh");
    assert!(moof_psshes.is_empty(), "malformed pssh dropped silently");
}


#[test]
fn sample_flags_all_zero_decodes_to_sync_sample() {
    let f = SampleFlags::from_u32(0);
    assert_eq!(f.is_leading, 0);
    assert_eq!(f.sample_depends_on, 0);
    assert_eq!(f.sample_is_depended_on, 0);
    assert_eq!(f.sample_has_redundancy, 0);
    assert_eq!(f.sample_padding_value, 0);
    assert!(!f.sample_is_non_sync_sample);
    assert!(f.is_sync_sample());
    assert_eq!(f.sample_degradation_priority, 0);
}

#[test]
fn sample_flags_non_sync_bit_only() {
    // The widely-used "non-sync sample" marker — every other
    // subfield zero, just bit 16 set. Sentinel: 0x0001_0000.
    let f = SampleFlags::from_u32(0x0001_0000);
    assert!(f.sample_is_non_sync_sample);
    assert!(!f.is_sync_sample());
    assert_eq!(f.is_leading, 0);
    assert_eq!(f.sample_depends_on, 0);
    assert_eq!(f.sample_degradation_priority, 0);
}

#[test]
fn sample_flags_i_picture_pattern() {
    let raw: u32 = 0x0A40_0000;
    let f = SampleFlags::from_u32(raw);
    assert_eq!(f.is_leading, 2);
    assert_eq!(f.sample_depends_on, 2);
    assert_eq!(f.sample_is_depended_on, 1);
    assert_eq!(f.sample_has_redundancy, 0);
    assert!(!f.sample_is_non_sync_sample);
    assert!(f.is_sync_sample());
    assert_eq!(f.sample_padding_value, 0);
    assert_eq!(f.sample_degradation_priority, 0);
    assert_eq!(f.to_u32(), raw);
}

#[test]
fn sample_flags_b_picture_pattern() {
    let raw: u32 = 0x0181_0000;
    let f = SampleFlags::from_u32(raw);
    assert_eq!(f.is_leading, 0);
    assert_eq!(f.sample_depends_on, 1);
    assert_eq!(f.sample_is_depended_on, 2);
    assert_eq!(f.sample_has_redundancy, 0);
    assert!(f.sample_is_non_sync_sample);
    assert!(!f.is_sync_sample());
    assert_eq!(f.sample_padding_value, 0);
    assert_eq!(f.sample_degradation_priority, 0);
    assert_eq!(f.to_u32(), raw);
}

#[test]
fn sample_flags_degradation_priority_field_is_low_16_bits() {
    let f = SampleFlags::from_u32(0x0000_BEEF);
    assert_eq!(f.sample_degradation_priority, 0xBEEF);
    assert_eq!(f.is_leading, 0);
    assert_eq!(f.sample_depends_on, 0);
    assert_eq!(f.sample_is_depended_on, 0);
    assert_eq!(f.sample_has_redundancy, 0);
    assert_eq!(f.sample_padding_value, 0);
    assert!(!f.sample_is_non_sync_sample);
}

#[test]
fn sample_flags_padding_field_round_trips() {
    // sample_padding_value is 3 bits — values 0..=7 are legal.
    // Exercise the full range to catch a shift / mask bug in
    // the bits 19..17 window.
    for pad in 0u8..=7 {
        let f = SampleFlags {
            sample_padding_value: pad,
            ..Default::default()
        };
        let round = SampleFlags::from_u32(f.to_u32());
        assert_eq!(round.sample_padding_value, pad);
        assert_eq!(round, f);
    }
}

#[test]
fn sample_flags_reserved_bits_ignored_on_decode() {
    let raw = 0xF000_0000_u32 | 0x0001_0000_u32; // reserved + non-sync
    let f = SampleFlags::from_u32(raw);
    assert!(f.sample_is_non_sync_sample);
    // Re-encoding emits clean reserved=0.
    assert_eq!(f.to_u32(), 0x0001_0000);
}

#[test]
fn sample_flags_all_field_widths_round_trip() {
    // Saturate every field at its maximum legal value to confirm
    // no field bleeds into a neighbour's window.
    let f = SampleFlags {
        is_leading: 3,
        sample_depends_on: 3,
        sample_is_depended_on: 3,
        sample_has_redundancy: 3,
        sample_padding_value: 7,
        sample_is_non_sync_sample: true,
        sample_degradation_priority: 0xFFFF,
    };
    let raw = f.to_u32();
    assert_eq!(raw, 0x0FFF_FFFF);
    assert_eq!(SampleFlags::from_u32(raw), f);
}

#[test]
fn parse_sample_flags_public_helper_matches_struct() {
    // Confirms the free-function entry point routes through
    // SampleFlags::from_u32 unchanged.
    let raw = 0x0244_0000_u32;
    assert_eq!(
        parse_sample_flags(raw),
        SampleFlags::from_u32(raw)
    );
}
