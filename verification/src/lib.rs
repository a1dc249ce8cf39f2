//! Verified reading of MP4 files and writing of fragmented ones.
//!
//! The library works on bytes and plain values: what a box says is a function of its payload, what a
//! file says is a function of its boxes, and what is to be written is handed back as bytes. Laws that
//! relate several functions are public proof functions whose names start with `law_`.

pub mod error;
pub mod bytes;
pub mod numbers;
pub mod text;
pub mod kinds;
pub mod boxes;
pub mod cenc;
pub mod track;
pub mod tables;
pub mod groups;
pub mod auxinfo;
pub mod esds;
pub mod entries;
pub mod trak;
pub mod index;
pub mod meta;
pub mod movie;
pub mod samples;
pub mod flags;
pub mod fragment;
pub mod options;
pub mod stream;
pub mod summary;
pub mod toplevel;
pub mod demux;
pub mod seek;
pub mod emsg;
pub mod frag;
pub mod muxer;
pub mod roundtrip;
pub mod roundfile;
pub mod tablelaws;
pub mod seeklaws;
pub mod muxlaws;
pub mod boxlaws;
pub mod refusallaws;
pub mod optionlaws;
pub mod grouplaws;
pub mod writelaws;
pub mod userlaws;
pub mod textlaws;
pub mod filelaws;
pub mod protectlaws;
pub mod indexlaws;
pub mod codelaws;
pub mod esdslaws;
pub mod entrylaws;
pub mod childlaws;
pub mod layoutlaws;
pub mod fragmentlaws;
