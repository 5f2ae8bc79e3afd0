use audiobook::settings::{
    audio_format_from_simple, is_wav_audio_format, parse_percent_i32, parse_pitch_hz_i32,
    read_percent, read_pitch_hz, settle, speech_of, Reading, SpeechSettings,
};

fn decimal(text: &str) -> Option<i32> {
    text.parse::<f64>().ok().map(|v| v.round() as i32)
}

fn percent(input: &str) -> i32 {
    parse_percent_i32(input, &decimal)
}

fn pitch(input: &str) -> i32 {
    parse_pitch_hz_i32(input, &decimal)
}

#[test]
fn percentages_are_read() {
    assert_eq!(percent(""), 0);
    assert_eq!(percent("   "), 0);
    assert_eq!(percent("%"), 0);
    assert_eq!(percent(" % "), 0);
    assert_eq!(percent("10"), 10);
    assert_eq!(percent("+10%"), 10);
    assert_eq!(percent(" -25 % "), -25);
    assert_eq!(percent("10%%"), 0);
    assert_eq!(percent("fast"), 0);
}

#[test]
fn fractions_are_rounded_outside() {
    assert_eq!(percent("1.5%"), 2);
    assert_eq!(percent("-1.5"), -2);
    assert_eq!(percent("1e2"), 100);
    assert_eq!(percent("99999999999"), i32::MAX);
    assert_eq!(percent("-99999999999"), i32::MIN);
    assert_eq!(pitch("2.4Hz"), 2);
}

#[test]
fn pitches_are_read() {
    assert_eq!(pitch(""), 0);
    assert_eq!(pitch("+2Hz"), 2);
    assert_eq!(pitch("-10hz"), -10);
    assert_eq!(pitch("0Hz"), 0);
    assert_eq!(pitch("12"), 12);
    assert_eq!(pitch(" 7 HZ "), 7);
    assert_eq!(pitch("hz"), 0);
    assert_eq!(pitch("high"), 0);
    for word in ["default", "AUTO", " None "] {
        assert_eq!(pitch(word), 0);
    }
}

#[test]
fn words_are_not_asked_of_the_decimal_reader() {
    let always = |_: &str| Some(42);
    assert_eq!(parse_pitch_hz_i32("default", &always), 0);
    assert_eq!(parse_pitch_hz_i32("3", &always), 3);
    assert_eq!(parse_pitch_hz_i32("x", &always), 42);
    assert_eq!(parse_percent_i32("", &always), 0);
    assert_eq!(parse_percent_i32("%", &always), 0);
    assert_eq!(parse_percent_i32("7%", &always), 7);
    assert_eq!(parse_percent_i32("x%", &always), 42);
}

#[test]
fn readings_are_settled() {
    assert!(matches!(read_percent("5%"), Reading::Value(5)));
    assert!(matches!(read_percent(" %"), Reading::Value(0)));
    match read_percent("1.5 %") {
        Reading::Decimal(text) => assert_eq!(text, "1.5"),
        Reading::Value(_) => panic!("an integer"),
    }
    match read_pitch_hz("1.5 HZ") {
        Reading::Decimal(text) => assert_eq!(text, "1.5"),
        Reading::Value(_) => panic!("an integer"),
    }
    assert_eq!(settle(&read_percent("1.5"), Some(2)), 2);
    assert_eq!(settle(&read_percent("1.5"), None), 0);
    assert_eq!(settle(&read_percent("3"), Some(9)), 3);
}

#[test]
fn audio_formats_are_told_apart() {
    let mp3 = ("mp3", "audio-24khz-48kbitrate-mono-mp3");
    let wav = ("wav", "riff-24khz-16bit-mono-pcm");
    assert_eq!(audio_format_from_simple("mp3"), mp3);
    assert_eq!(audio_format_from_simple(" WAV "), wav);
    assert_eq!(audio_format_from_simple(""), mp3);
    assert_eq!(audio_format_from_simple("ogg"), mp3);
    for setting in ["mp3", "wav", "ogg"] {
        let (ext, format) = audio_format_from_simple(setting);
        assert_eq!(is_wav_audio_format(format), ext == "wav");
    }
}

#[test]
fn wav_formats_are_recognised() {
    assert!(is_wav_audio_format(" RIFF-8khz "));
    assert!(is_wav_audio_format("my-wav"));
    assert!(is_wav_audio_format("raw-16khz-16bit-mono-pcm"));
    assert!(!is_wav_audio_format("audio-riff-mp3"));
    assert!(!is_wav_audio_format(""));
}

fn settings(voice: &str, pitch: &str, format: &str) -> SpeechSettings {
    SpeechSettings {
        voice: voice.to_string(),
        rate: "+10%".to_string(),
        volume: "-5.6%".to_string(),
        pitch: pitch.to_string(),
        format: format.to_string(),
    }
}

#[test]
fn speech_follows_the_settings() {
    let speech = speech_of(&settings(" zh-CN-YunxiNeural ", "+2Hz", "Wav"), &decimal);
    assert_eq!(speech.config.voice_name, "zh-CN-YunxiNeural");
    assert_eq!(speech.config.audio_format, "riff-24khz-16bit-mono-pcm");
    assert_eq!(speech.config.pitch, 2);
    assert_eq!(speech.config.rate, 10);
    assert_eq!(speech.config.volume, -6);
    assert_eq!(speech.ext, "wav");
    assert!(speech.ignored_pitch.is_none());
    assert!(speech.unsupported_format.is_none());
}

#[test]
fn settings_that_cannot_be_had_are_passed_over() {
    let speech = speech_of(&settings("  ", " +2ST ", " OGG "), &decimal);
    assert_eq!(speech.config.voice_name, "zh-CN-XiaoxiaoNeural");
    assert_eq!(speech.config.pitch, 0);
    assert_eq!(speech.ext, "mp3");
    assert_eq!(speech.ignored_pitch, Some("+2ST".to_string()));
    assert_eq!(speech.unsupported_format, Some("ogg".to_string()));
    let speech = speech_of(&settings("", "", " "), &decimal);
    assert!(speech.unsupported_format.is_none());
}
