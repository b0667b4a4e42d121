use overlay_music::ffmpeg::{afmt, OutputFormat};

#[test]
fn formats_have_extensions_and_limits() {
    assert_eq!(OutputFormat::Ogg.extension(), "ogg");
    assert_eq!(OutputFormat::Mp3.extension(), "mp3");
    assert_eq!(OutputFormat::Opus.extension(), "opus");
    assert_eq!(OutputFormat::Flac.extension(), "flac");
    assert_eq!(OutputFormat::Ogg.max_quality(), 10);
    assert_eq!(OutputFormat::Mp3.max_quality(), 10);
    assert_eq!(OutputFormat::Opus.max_quality(), 10);
    assert_eq!(OutputFormat::Flac.max_quality(), 12);
}

#[test]
fn encoders_get_their_arguments() {
    assert_eq!(OutputFormat::Ogg.encoder_args(6), ["-codec:a", "libvorbis", "-q:a", "6"]);
    assert_eq!(OutputFormat::Mp3.encoder_args(2), ["-codec:a", "libmp3lame", "-q:a", "2"]);
    assert_eq!(
        OutputFormat::Flac.encoder_args(12),
        ["-codec:a", "flac", "-compression_level", "12"]
    );
}

#[test]
fn opus_quality_maps_to_bit_rates() {
    assert_eq!(OutputFormat::Opus.encoder_args(0), ["-codec:a", "libopus", "-b:a", "64k"]);
    assert_eq!(OutputFormat::Opus.encoder_args(6), ["-codec:a", "libopus", "-b:a", "160k"]);
    assert_eq!(OutputFormat::Opus.encoder_args(10), ["-codec:a", "libopus", "-b:a", "224k"]);
}

#[test]
fn common_format_names_the_sample_rate() {
    assert_eq!(
        afmt(44100),
        "aresample=44100,aformat=sample_fmts=fltp:channel_layouts=stereo"
    );
}
