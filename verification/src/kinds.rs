//! The four-character codes of boxes, as big-endian numbers.
use vstd::prelude::*;

verus! {

/// `ftyp`
pub const FTYP: u32 = 0x66747970;
/// `styp`
pub const STYP: u32 = 0x73747970;
/// `moov`
pub const MOOV: u32 = 0x6D6F6F76;
/// `mvhd`
pub const MVHD: u32 = 0x6D766864;
/// `trak`
pub const TRAK: u32 = 0x7472616B;
/// `tkhd`
pub const TKHD: u32 = 0x746B6864;
/// `mdia`
pub const MDIA: u32 = 0x6D646961;
/// `mdhd`
pub const MDHD: u32 = 0x6D646864;
/// `elng`
pub const ELNG: u32 = 0x656C6E67;
/// `hdlr`
pub const HDLR: u32 = 0x68646C72;
/// `minf`
pub const MINF: u32 = 0x6D696E66;
/// `vmhd`
pub const VMHD: u32 = 0x766D6864;
/// `stbl`
pub const STBL: u32 = 0x7374626C;
/// `stsd`
pub const STSD: u32 = 0x73747364;
/// `stts`
pub const STTS: u32 = 0x73747473;
/// `stsc`
pub const STSC: u32 = 0x73747363;
/// `stsz`
pub const STSZ: u32 = 0x7374737A;
/// `stz2`
pub const STZ2: u32 = 0x73747A32;
/// `stco`
pub const STCO: u32 = 0x7374636F;
/// `co64`
pub const CO64: u32 = 0x636F3634;
/// `stss`
pub const STSS: u32 = 0x73747373;
/// `stsh`
pub const STSH: u32 = 0x73747368;
/// `sdtp`
pub const SDTP: u32 = 0x73647470;
/// `stdp`
pub const STDP: u32 = 0x73746470;
/// `padb`
pub const PADB: u32 = 0x70616462;
/// `ctts`
pub const CTTS: u32 = 0x63747473;
/// `cslg`
pub const CSLG: u32 = 0x63736C67;
/// `sbgp`
pub const SBGP: u32 = 0x73626770;
/// `sgpd`
pub const SGPD: u32 = 0x73677064;
/// `csgp`
pub const CSGP: u32 = 0x63736770;
/// `subs`
pub const SUBS: u32 = 0x73756273;
/// `saiz`
pub const SAIZ: u32 = 0x7361697A;
/// `saio`
pub const SAIO: u32 = 0x7361696F;
/// `edts`
pub const EDTS: u32 = 0x65647473;
/// `elst`
pub const ELST: u32 = 0x656C7374;
/// `tref`
pub const TREF: u32 = 0x74726566;
/// `trgr`
pub const TRGR: u32 = 0x74726772;
/// `udta`
pub const UDTA: u32 = 0x75647461;
/// `kind`
pub const KIND: u32 = 0x6B696E64;
/// `tsel`
pub const TSEL: u32 = 0x7473656C;
/// `strk`
pub const STRK: u32 = 0x7374726B;
/// `stri`
pub const STRI: u32 = 0x73747269;
/// `strd`
pub const STRD: u32 = 0x73747264;
/// `stsg`
pub const STSG: u32 = 0x73747367;
/// `cprt`
pub const CPRT: u32 = 0x63707274;
/// `meta`
pub const META: u32 = 0x6D657461;
/// `ilst`
pub const ILST: u32 = 0x696C7374;
/// `data`
pub const DATA: u32 = 0x64617461;
/// `mvex`
pub const MVEX: u32 = 0x6D766578;
/// `trex`
pub const TREX: u32 = 0x74726578;
/// `mehd`
pub const MEHD: u32 = 0x6D656864;
/// `leva`
pub const LEVA: u32 = 0x6C657661;
/// `trep`
pub const TREP: u32 = 0x74726570;
/// `pssh`
pub const PSSH: u32 = 0x70737368;
/// `moof`
pub const MOOF: u32 = 0x6D6F6F66;
/// `mfhd`
pub const MFHD: u32 = 0x6D666864;
/// `traf`
pub const TRAF: u32 = 0x74726166;
/// `tfhd`
pub const TFHD: u32 = 0x74666864;
/// `tfdt`
pub const TFDT: u32 = 0x74666474;
/// `trun`
pub const TRUN: u32 = 0x7472756E;
/// `senc`
pub const SENC: u32 = 0x73656E63;
/// `sidx`
pub const SIDX: u32 = 0x73696478;
/// `ssix`
pub const SSIX: u32 = 0x73736978;
/// `pdin`
pub const PDIN: u32 = 0x7064696E;
/// `prft`
pub const PRFT: u32 = 0x70726674;
/// `mfra`
pub const MFRA: u32 = 0x6D667261;
/// `tfra`
pub const TFRA: u32 = 0x74667261;
/// `mdat`
pub const MDAT: u32 = 0x6D646174;
/// `sinf`
pub const SINF: u32 = 0x73696E66;
/// `frma`
pub const FRMA: u32 = 0x66726D61;
/// `schm`
pub const SCHM: u32 = 0x7363686D;
/// `schi`
pub const SCHI: u32 = 0x73636869;
/// `tenc`
pub const TENC: u32 = 0x74656E63;
/// `encv`
pub const ENCV: u32 = 0x656E6376;
/// `enca`
pub const ENCA: u32 = 0x656E6361;
/// `enct`
pub const ENCT: u32 = 0x656E6374;
/// `encs`
pub const ENCS: u32 = 0x656E6373;
/// `titl`
pub const TITL: u32 = 0x7469746C;
/// `auth`
pub const AUTH: u32 = 0x61757468;
/// `dscp`
pub const DSCP: u32 = 0x64736370;
/// `gnre`
pub const GNRE: u32 = 0x676E7265;
/// `albm`
pub const ALBM: u32 = 0x616C626D;
/// `yrrc`
pub const YRRC: u32 = 0x79727263;
/// `emsg`
pub const EMSG: u32 = 0x656D7367;
/// `soun`
pub const SOUN: u32 = 0x736F756E;
/// `vide`
pub const VIDE: u32 = 0x76696465;
/// `subt`
pub const SUBT: u32 = 0x73756274;
/// `sbtl`
pub const SBTL: u32 = 0x7362746C;
/// `text`
pub const TEXT: u32 = 0x74657874;
/// `dfLa`
pub const DFLA: u32 = 0x64664C61;
/// `dOps`
pub const DOPS: u32 = 0x644F7073;
/// `esds`
pub const ESDS: u32 = 0x65736473;
/// `dac3`
pub const DAC3: u32 = 0x64616333;
/// `dec3`
pub const DEC3: u32 = 0x64656333;
/// `avcC`
pub const AVCC: u32 = 0x61766343;
/// `hvcC`
pub const HVCC: u32 = 0x68766343;
/// `av1C`
pub const AV1C: u32 = 0x61763143;
/// `vpcC`
pub const VPCC: u32 = 0x76706343;
/// `stpp`
pub const STPP: u32 = 0x73747070;
/// `sbtt`
pub const SBTT: u32 = 0x73627474;
/// `stxt`
pub const STXT: u32 = 0x73747874;
/// `wvtt`
pub const WVTT: u32 = 0x77767474;
/// `tx3g`
pub const TX3G: u32 = 0x74783367;
/// `c608`
pub const C608: u32 = 0x63363038;
/// `c708`
pub const C708: u32 = 0x63373038;
/// `aART`
pub const A_ART: u32 = 0x61415254;
/// `trkn`
pub const TRKN: u32 = 0x74726B6E;
/// `disk`
pub const DISK: u32 = 0x6469736B;
/// `desc`
pub const DESC: u32 = 0x64657363;
/// The copyright sign and `nam`
pub const C_NAM: u32 = 0xA96E616D;
/// The copyright sign and `ART`
pub const C_ART: u32 = 0xA9415254;
/// The copyright sign and `alb`
pub const C_ALB: u32 = 0xA9616C62;
/// The copyright sign and `cmt`
pub const C_CMT: u32 = 0xA9636D74;
/// The copyright sign and `gen`
pub const C_GEN: u32 = 0xA967656E;
/// The copyright sign and `day`
pub const C_DAY: u32 = 0xA9646179;
/// The copyright sign and `wrt`
pub const C_WRT: u32 = 0xA9777274;
/// The copyright sign and `too`
pub const C_TOO: u32 = 0xA9746F6F;
/// The copyright sign and `cpy`
pub const C_CPY: u32 = 0xA9637079;
/// The copyright sign and `lyr`
pub const C_LYR: u32 = 0xA96C7972;

}
