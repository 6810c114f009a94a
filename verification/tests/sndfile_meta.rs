use audiotar::sndfile::{File, SndInfo, FORMAT_WAV_PCM16, SFM};

#[test]
fn mode_flags_match_the_decoder() {
    assert_eq!(SFM::READ.mode_flag(), 0x10);
    assert_eq!(SFM::WRITE.mode_flag(), 0x20);
    assert_eq!(SFM::RDWR.mode_flag(), 0x30);
}

#[test]
fn writing_header_is_mono_wav() {
    let f = File::for_writing(String::from("out.wav"));
    assert_eq!(f.info.samplerate, 44100);
    assert_eq!(f.info.channels, 1);
    assert_eq!(f.info.format, FORMAT_WAV_PCM16);
    assert_eq!(f.info.frames, 0);
    assert!(f.mono());
}

#[test]
fn channel_count_is_read_back() {
    let info = SndInfo {
        frames: 128,
        samplerate: 48000,
        channels: 2,
        format: FORMAT_WAV_PCM16,
        sections: 1,
        seekable: 1,
    };
    let f = File::new(String::from("in.wav"), info);
    assert_eq!(f.channels(), 2);
    assert!(!f.mono());
}
