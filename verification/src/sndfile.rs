//! Plain-value metadata of a sound file.
//!
//! Decoding and encoding audio is a collaborator's job: it hands the
//! library fully decoded sample sequences and takes one back.  What the
//! library's own logic reads of a file — the header fields, above all the
//! channel count that decides whether an input is acceptable — is held
//! here as plain values, so the decisions on it are verified.

use vstd::prelude::*;

verus! {

/// The mode a sound file is opened in.
#[derive(Clone, Copy, Debug, PartialEq, Eq, Structural)]
pub enum SFM {
    READ,
    WRITE,
    RDWR,
}

/// The open-mode flag word of `m`, as the decoder library defines it.
pub open spec fn mode_flag_spec(m: SFM) -> int {
    match m {
        SFM::READ => 0x10,
        SFM::WRITE => 0x20,
        SFM::RDWR => 0x30,
    }
}

impl SFM {
    /// The flag word this mode is passed to the decoder as.
    pub fn mode_flag(&self) -> (r: i32)
        ensures
            r == mode_flag_spec(*self),
    {
        match self {
            SFM::READ => 0x10,
            SFM::WRITE => 0x20,
            SFM::RDWR => 0x30,
        }
    }
}

/// A mono 16-bit PCM WAV stream: the format word written files carry.
pub const FORMAT_WAV_PCM16: i32 = 0x10002;

/// The header fields of a sound stream.
#[derive(Clone, Copy, Debug, PartialEq, Eq, Structural)]
pub struct SndInfo {
    pub frames: i64,
    pub samplerate: i32,
    pub channels: i32,
    pub format: i32,
    pub sections: i32,
    pub seekable: i32,
}

/// A sound file as the library sees it: its path and its header.
pub struct File {
    pub path: String,
    pub info: SndInfo,
}

impl File {
    /// A file whose header was read by the decoder.
    pub fn new(path: String, info: SndInfo) -> (f: File)
        ensures
            f.path == path,
            f.info == info,
    {
        File { path, info }
    }

    /// The header a file is created with for writing: one channel of
    /// 16-bit PCM WAV at 44100 Hz.
    pub fn for_writing(path: String) -> (f: File)
        ensures
            f.path == path,
            f.info.frames == 0,
            f.info.samplerate == 44100,
            f.info.channels == 1,
            f.info.format == FORMAT_WAV_PCM16,
            f.info.sections == 1,
            f.info.seekable == 1,
    {
        File {
            path,
            info: SndInfo {
                frames: 0,
                samplerate: 44100,
                channels: 1,
                format: FORMAT_WAV_PCM16,
                sections: 1,
                seekable: 1,
            },
        }
    }

    /// How many channels the stream holds.
    pub fn channels(&self) -> (r: i32)
        ensures
            r == self.info.channels,
    {
        self.info.channels
    }

    /// Whether the stream is single-channel: only such input is accepted.
    pub fn mono(&self) -> (r: bool)
        ensures
            r == (self.info.channels == 1),
    {
        self.info.channels == 1
    }
}

} // verus!
