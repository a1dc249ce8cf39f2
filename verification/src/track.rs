//! A track: what the boxes under `trak` say.
use vstd::prelude::*;
use crate::boxes::{opt_view, views};
use crate::cenc::{TencBox, TencModel};

verus! {

/// The kind of media that a track carries.
#[derive(Clone, Copy, Debug, PartialEq, Eq, Structural)]
pub enum MediaType {
    Audio,
    Video,
    Subtitle,
    Data,
    Unknown,
}

/// A row of the sample description table.
#[derive(Clone, Copy, Debug, PartialEq, Eq)]
pub struct StsdEntry {
    /// The code of the sample entry.
    pub format: [u8; 4],
    /// Which data reference the samples are in, or 0 where the entry is too short to say.
    pub data_reference_index: u16,
}

/// How a sample depends on others.
#[derive(Clone, Copy, Debug, Default, PartialEq, Eq)]
pub struct SdtpEntry {
    pub is_leading: u8,
    pub sample_depends_on: u8,
    pub sample_is_depended_on: u8,
    pub sample_has_redundancy: u8,
}

/// Which samples belong to which group.
#[derive(Clone, Debug, Default, PartialEq, Eq)]
pub struct SbgpBox {
    pub grouping_type: [u8; 4],
    pub grouping_type_parameter: Option<u32>,
    /// Runs of samples: how many, and the group description index.
    pub entries: Vec<(u32, u32)>,
}

/// The model of `SbgpBox`.
pub ghost struct SbgpModel {
    pub grouping_type: [u8; 4],
    pub grouping_type_parameter: Option<u32>,
    pub entries: Seq<(u32, u32)>,
}

impl View for SbgpBox {
    type V = SbgpModel;

    open spec fn view(&self) -> SbgpModel {
        SbgpModel {
            grouping_type: self.grouping_type,
            grouping_type_parameter: self.grouping_type_parameter,
            entries: self.entries@,
        }
    }
}

/// Descriptions of sample groups.
#[derive(Clone, Debug, Default, PartialEq, Eq)]
pub struct SgpdBox {
    pub grouping_type: [u8; 4],
    pub default_sample_description_index: Option<u32>,
    /// The descriptions, uninterpreted.
    pub entries: Vec<Vec<u8>>,
}

/// The model of `SgpdBox`.
pub ghost struct SgpdModel {
    pub grouping_type: [u8; 4],
    pub default_sample_description_index: Option<u32>,
    pub entries: Seq<Seq<u8>>,
}

impl View for SgpdBox {
    type V = SgpdModel;

    open spec fn view(&self) -> SgpdModel {
        SgpdModel {
            grouping_type: self.grouping_type,
            default_sample_description_index: self.default_sample_description_index,
            entries: views(self.entries@),
        }
    }
}

/// A run of samples whose group description indices repeat.
#[derive(Clone, Debug, Default, PartialEq, Eq)]
pub struct CsgpPattern {
    pub sample_count: u32,
    pub indices: Vec<u32>,
}

/// The model of `CsgpPattern`.
pub ghost struct CsgpPatternModel {
    pub sample_count: u32,
    pub indices: Seq<u32>,
}

impl View for CsgpPattern {
    type V = CsgpPatternModel;

    open spec fn view(&self) -> CsgpPatternModel {
        CsgpPatternModel {
            sample_count: self.sample_count,
            indices: self.indices@,
        }
    }
}

/// Which samples belong to which group, in patterns.
#[derive(Clone, Debug, Default, PartialEq, Eq)]
pub struct CsgpBox {
    pub grouping_type: [u8; 4],
    pub grouping_type_parameter: Option<u32>,
    pub patterns: Vec<CsgpPattern>,
}

/// The model of `CsgpBox`.
pub ghost struct CsgpModel {
    pub grouping_type: [u8; 4],
    pub grouping_type_parameter: Option<u32>,
    pub patterns: Seq<CsgpPatternModel>,
}

impl View for CsgpBox {
    type V = CsgpModel;

    open spec fn view(&self) -> CsgpModel {
        CsgpModel {
            grouping_type: self.grouping_type,
            grouping_type_parameter: self.grouping_type_parameter,
            patterns: views(self.patterns@),
        }
    }
}

/// A subsample.
#[derive(Clone, Copy, Debug, Default, PartialEq, Eq)]
pub struct SubSampleEntry {
    pub subsample_size: u32,
    pub subsample_priority: u8,
    pub discardable: u8,
    pub codec_specific_parameters: u32,
}

/// The subsamples of one sample.
#[derive(Clone, Debug, Default, PartialEq, Eq)]
pub struct SubsEntry {
    /// How many samples after that of the entry before.
    pub sample_delta: u32,
    pub subsamples: Vec<SubSampleEntry>,
}

/// The model of `SubsEntry`.
pub ghost struct SubsEntryModel {
    pub sample_delta: u32,
    pub subsamples: Seq<SubSampleEntry>,
}

impl View for SubsEntry {
    type V = SubsEntryModel;

    open spec fn view(&self) -> SubsEntryModel {
        SubsEntryModel {
            sample_delta: self.sample_delta,
            subsamples: self.subsamples@,
        }
    }
}

/// Subsample information of a track.
#[derive(Clone, Debug, Default, PartialEq, Eq)]
pub struct SubsBox {
    pub version: u8,
    pub flags: u32,
    pub entries: Vec<SubsEntry>,
}

/// The model of `SubsBox`.
pub ghost struct SubsModel {
    pub version: u8,
    pub flags: u32,
    pub entries: Seq<SubsEntryModel>,
}

impl View for SubsBox {
    type V = SubsModel;

    open spec fn view(&self) -> SubsModel {
        SubsModel {
            version: self.version,
            flags: self.flags,
            entries: views(self.entries@),
        }
    }
}

/// Sizes of auxiliary information.
#[derive(Clone, Debug, Default, PartialEq, Eq)]
pub struct SaizBox {
    pub aux_info_type: Option<[u8; 4]>,
    pub aux_info_type_parameter: Option<u32>,
    /// The size for all samples, or 0 where each has its own.
    pub default_sample_info_size: u8,
    pub sample_count: u32,
    pub per_sample: Vec<u8>,
}

/// The model of `SaizBox`.
pub ghost struct SaizModel {
    pub aux_info_type: Option<[u8; 4]>,
    pub aux_info_type_parameter: Option<u32>,
    pub default_sample_info_size: u8,
    pub sample_count: u32,
    pub per_sample: Seq<u8>,
}

impl View for SaizBox {
    type V = SaizModel;

    open spec fn view(&self) -> SaizModel {
        SaizModel {
            aux_info_type: self.aux_info_type,
            aux_info_type_parameter: self.aux_info_type_parameter,
            default_sample_info_size: self.default_sample_info_size,
            sample_count: self.sample_count,
            per_sample: self.per_sample@,
        }
    }
}

/// Offsets of auxiliary information.
#[derive(Clone, Debug, Default, PartialEq, Eq)]
pub struct SaioBox {
    pub version: u8,
    pub aux_info_type: Option<[u8; 4]>,
    pub aux_info_type_parameter: Option<u32>,
    pub offsets: Vec<u64>,
}

/// The model of `SaioBox`.
pub ghost struct SaioModel {
    pub version: u8,
    pub aux_info_type: Option<[u8; 4]>,
    pub aux_info_type_parameter: Option<u32>,
    pub offsets: Seq<u64>,
}

impl View for SaioBox {
    type V = SaioModel;

    open spec fn view(&self) -> SaioModel {
        SaioModel {
            version: self.version,
            aux_info_type: self.aux_info_type,
            aux_info_type_parameter: self.aux_info_type_parameter,
            offsets: self.offsets@,
        }
    }
}

/// How composition times relate to decode times.
#[derive(Clone, Copy, Debug, Default, PartialEq, Eq)]
pub struct CslgBox {
    pub composition_to_dts_shift: i64,
    pub least_decode_to_display_delta: i64,
    pub greatest_decode_to_display_delta: i64,
    pub composition_start_time: i64,
    pub composition_end_time: i64,
}

/// How video is composed.
#[derive(Clone, Copy, Debug, Default, PartialEq, Eq)]
pub struct VmhdBox {
    pub graphicsmode: u16,
    pub opcolor: [u16; 3],
}

/// How a track is selected among alternatives.
#[derive(Clone, Debug, Default, PartialEq, Eq)]
pub struct TselBox {
    pub switch_group: i32,
    pub attribute_list: Vec<[u8; 4]>,
}

/// The model of `TselBox`.
pub ghost struct TselModel {
    pub switch_group: i32,
    pub attribute_list: Seq<[u8; 4]>,
}

impl View for TselBox {
    type V = TselModel;

    open spec fn view(&self) -> TselModel {
        TselModel {
            switch_group: self.switch_group,
            attribute_list: self.attribute_list@,
        }
    }
}

/// Sample groups that belong to a sub-track.
#[derive(Clone, Debug, Default, PartialEq, Eq)]
pub struct SubTrackSampleGroup {
    pub grouping_type: [u8; 4],
    pub group_description_indices: Vec<u32>,
}

/// The model of `SubTrackSampleGroup`.
pub ghost struct SubTrackSampleGroupModel {
    pub grouping_type: [u8; 4],
    pub group_description_indices: Seq<u32>,
}

impl View for SubTrackSampleGroup {
    type V = SubTrackSampleGroupModel;

    open spec fn view(&self) -> SubTrackSampleGroupModel {
        SubTrackSampleGroupModel {
            grouping_type: self.grouping_type,
            group_description_indices: self.group_description_indices@,
        }
    }
}

/// A part of a track that can be selected.
#[derive(Clone, Debug, Default, PartialEq, Eq)]
pub struct SubTrack {
    pub switch_group: i16,
    pub alternate_group: i16,
    pub sub_track_id: u32,
    pub attribute_list: Vec<[u8; 4]>,
    pub sample_groups: Vec<SubTrackSampleGroup>,
}

/// The model of `SubTrack`.
pub ghost struct SubTrackModel {
    pub switch_group: i16,
    pub alternate_group: i16,
    pub sub_track_id: u32,
    pub attribute_list: Seq<[u8; 4]>,
    pub sample_groups: Seq<SubTrackSampleGroupModel>,
}

impl View for SubTrack {
    type V = SubTrackModel;

    open spec fn view(&self) -> SubTrackModel {
        SubTrackModel {
            switch_group: self.switch_group,
            alternate_group: self.alternate_group,
            sub_track_id: self.sub_track_id,
            attribute_list: self.attribute_list@,
            sample_groups: views(self.sample_groups@),
        }
    }
}

/// A copyright notice.
#[derive(Clone, Debug, Default, PartialEq, Eq)]
pub struct CopyrightRecord {
    /// The language, as three letters.
    pub language: [u8; 3],
    pub notice: String,
}

/// The model of `CopyrightRecord`.
pub ghost struct CopyrightModel {
    pub language: [u8; 3],
    pub notice: Seq<char>,
}

impl View for CopyrightRecord {
    type V = CopyrightModel;

    open spec fn view(&self) -> CopyrightModel {
        CopyrightModel {
            language: self.language,
            notice: self.notice@,
        }
    }
}

/// A segment of an edit list.
#[derive(Clone, Copy, Debug, Default, PartialEq, Eq)]
pub struct ElstEntry {
    pub segment_duration: u64,
    /// Where in the media the segment starts, or -1 for an empty edit.
    pub media_time: i64,
    pub media_rate: u32,
}

/// What fragments of a track default to.
#[derive(Clone, Copy, Debug, Default, PartialEq, Eq)]
pub struct TrexDefaults {
    pub default_sample_description_index: u32,
    pub default_sample_duration: u32,
    pub default_sample_size: u32,
    pub default_sample_flags: u32,
}

/// What a movie says of one track.
#[derive(Clone, Debug)]
pub struct Track {
    pub track_id: u32,
    pub media_type: MediaType,
    /// The code of the first sample entry, with protection looked through.
    pub codec_id_fourcc: [u8; 4],
    pub timescale: u32,
    pub duration: Option<u64>,
    pub channels: Option<u16>,
    pub sample_rate: Option<u32>,
    pub sample_size_bits: Option<u16>,
    pub width: Option<u32>,
    pub height: Option<u32>,
    /// Decoder configuration.
    pub extradata: Vec<u8>,
    /// The object type of an elementary stream descriptor.
    pub esds_oti: Option<u8>,
    /// Runs of samples: how many, and the duration of each.
    pub stts: Vec<(u32, u32)>,
    /// Runs of chunks: the first, the samples in each, the sample description.
    pub stsc: Vec<(u32, u32, u32)>,
    /// The size of each sample.
    pub stsz: Vec<u32>,
    pub chunk_offsets: Vec<u64>,
    /// The numbers of the sync samples, from 1 on.
    pub stss: Vec<u32>,
    /// Runs of samples: how many, and the composition offset of each.
    pub ctts: Vec<(u32, i32)>,
    pub elst: Vec<ElstEntry>,
    pub trex: TrexDefaults,
    pub protection_scheme: Option<[u8; 4]>,
    pub tenc: Option<TencBox>,
    /// References to other tracks, by type.
    pub tref: Vec<([u8; 4], Vec<u32>)>,
    /// Groups that the track is in, by type.
    pub trgr: Vec<([u8; 4], u32)>,
    /// The extended language tag.
    pub elng: Option<String>,
    /// Scheme and value of each kind.
    pub kinds: Vec<(String, String)>,
    pub copyrights: Vec<CopyrightRecord>,
    pub tsel: Option<TselBox>,
    pub sub_tracks: Vec<SubTrack>,
    pub cslg: Option<CslgBox>,
    pub vmhd: Option<VmhdBox>,
    /// Shadowed sample and sync sample.
    pub stsh: Vec<(u32, u32)>,
    pub sbgp: Vec<SbgpBox>,
    pub sgpd: Vec<SgpdBox>,
    pub csgp: Vec<CsgpBox>,
    pub sdtp: Vec<SdtpEntry>,
    pub stdp: Vec<u16>,
    pub padb: Vec<u8>,
    pub subs: Vec<SubsBox>,
    pub saiz: Vec<SaizBox>,
    pub saio: Vec<SaioBox>,
    pub stsd_entries: Vec<StsdEntry>,
}

/// The model of `Track`.
pub ghost struct TrackModel {
    pub track_id: u32,
    pub media_type: MediaType,
    pub codec_id_fourcc: [u8; 4],
    pub timescale: u32,
    pub duration: Option<u64>,
    pub channels: Option<u16>,
    pub sample_rate: Option<u32>,
    pub sample_size_bits: Option<u16>,
    pub width: Option<u32>,
    pub height: Option<u32>,
    pub extradata: Seq<u8>,
    pub esds_oti: Option<u8>,
    pub stts: Seq<(u32, u32)>,
    pub stsc: Seq<(u32, u32, u32)>,
    pub stsz: Seq<u32>,
    pub chunk_offsets: Seq<u64>,
    pub stss: Seq<u32>,
    pub ctts: Seq<(u32, i32)>,
    pub elst: Seq<ElstEntry>,
    pub trex: TrexDefaults,
    pub protection_scheme: Option<[u8; 4]>,
    pub tenc: Option<TencModel>,
    pub tref: Seq<(Seq<u8>, Seq<u32>)>,
    pub trgr: Seq<([u8; 4], u32)>,
    pub elng: Option<Seq<char>>,
    pub kinds: Seq<(Seq<char>, Seq<char>)>,
    pub copyrights: Seq<CopyrightModel>,
    pub tsel: Option<TselModel>,
    pub sub_tracks: Seq<SubTrackModel>,
    pub cslg: Option<CslgBox>,
    pub vmhd: Option<VmhdBox>,
    pub stsh: Seq<(u32, u32)>,
    pub sbgp: Seq<SbgpModel>,
    pub sgpd: Seq<SgpdModel>,
    pub csgp: Seq<CsgpModel>,
    pub sdtp: Seq<SdtpEntry>,
    pub stdp: Seq<u16>,
    pub padb: Seq<u8>,
    pub subs: Seq<SubsModel>,
    pub saiz: Seq<SaizModel>,
    pub saio: Seq<SaioModel>,
    pub stsd_entries: Seq<StsdEntry>,
}

impl View for Track {
    type V = TrackModel;

    open spec fn view(&self) -> TrackModel {
        TrackModel {
            track_id: self.track_id,
            media_type: self.media_type,
            codec_id_fourcc: self.codec_id_fourcc,
            timescale: self.timescale,
            duration: self.duration,
            channels: self.channels,
            sample_rate: self.sample_rate,
            sample_size_bits: self.sample_size_bits,
            width: self.width,
            height: self.height,
            extradata: self.extradata@,
            esds_oti: self.esds_oti,
            stts: self.stts@,
            stsc: self.stsc@,
            stsz: self.stsz@,
            chunk_offsets: self.chunk_offsets@,
            stss: self.stss@,
            ctts: self.ctts@,
            elst: self.elst@,
            trex: self.trex,
            protection_scheme: self.protection_scheme,
            tenc: opt_view(self.tenc),
            tref: views(self.tref@),
            trgr: self.trgr@,
            elng: opt_view(self.elng),
            kinds: views(self.kinds@),
            copyrights: views(self.copyrights@),
            tsel: opt_view(self.tsel),
            sub_tracks: views(self.sub_tracks@),
            cslg: self.cslg,
            vmhd: self.vmhd,
            stsh: self.stsh@,
            sbgp: views(self.sbgp@),
            sgpd: views(self.sgpd@),
            csgp: views(self.csgp@),
            sdtp: self.sdtp@,
            stdp: self.stdp@,
            padb: self.padb@,
            subs: views(self.subs@),
            saiz: views(self.saiz@),
            saio: views(self.saio@),
            stsd_entries: self.stsd_entries@,
        }
    }
}

}
