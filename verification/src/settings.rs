//! Reading the settings that say how a book is spoken.
use crate::text::{
    all_white, begins_with, chars_of, contains_text, finishes_with, has_substring, i32_value, is_digit, is_white,
    lemma_trim_is_part, lemma_trim_keeps, lemma_trim_twice, lower, lowered, optional_text, read_i32,
    law_trim_takes_white_space_off, same_text, string_of, trim, trimmed,
};
use vstd::prelude::*;

verus! {

/// The voice that speaks where none is set.
pub const DEFAULT_VOICE: &'static str = "zh-CN-XiaoxiaoNeural";

/// The service's name for MP3 audio.
pub const MP3_FORMAT: &'static str = "audio-24khz-48kbitrate-mono-mp3";

/// The service's name for WAV audio.
pub const WAV_FORMAT: &'static str = "riff-24khz-16bit-mono-pcm";

/// A setting that stands for a number.
pub enum Reading {
    /// The number itself.
    Value(i32),
    /// A text that is no integer; it may still be a decimal fraction.
    Decimal(String),
}

/// `s` without `suffix` at its end, where it ends so.
pub open spec fn without_suffix(s: Seq<char>, suffix: Seq<char>) -> Seq<char> {
    if suffix.is_suffix_of(s) {
        s.take(s.len() - suffix.len())
    } else {
        s
    }
}

/// The number in a percentage as it is written, or `None` where nothing is written. The sign at
/// the end can be left out.
pub open spec fn percent_text(s: Seq<char>) -> Option<Seq<char>> {
    let number = trim(without_suffix(trim(s), "%"@));
    if number.len() == 0 {
        None
    } else {
        Some(number)
    }
}

/// The number in a pitch as it is written, or `None` where no pitch is asked for. The unit at the
/// end can be left out.
pub open spec fn pitch_text(s: Seq<char>) -> Option<Seq<char>> {
    let t = lower(trim(s));
    if t.len() == 0 || t == "default"@ || t == "auto"@ || t == "none"@ {
        None
    } else {
        Some(trim(without_suffix(t, "hz"@)))
    }
}

/// Whether what is written is no integer that an `i32` can hold, so that it is left to be read as
/// a decimal fraction.
pub open spec fn asks_decimal(text: Option<Seq<char>>) -> bool {
    text is Some && i32_value(text->0) is None
}

/// The number that a setting stands for, given what its text is as a decimal fraction: the integer,
/// else the rounded fraction, else 0.
pub open spec fn number(text: Option<Seq<char>>, decimal: Option<i32>) -> i32 {
    match text {
        None => 0,
        Some(t) => match (i32_value(t), decimal) {
            (Some(v), _) => v,
            (None, Some(d)) => d,
            (None, None) => 0,
        },
    }
}

/// Whether a reading is the one of the text.
pub open spec fn reading_agrees(r: Reading, text: Option<Seq<char>>) -> bool {
    match r {
        Reading::Value(v) => !asks_decimal(text) && v == number(text, None),
        Reading::Decimal(t) => asks_decimal(text) && t@ == text->0,
    }
}

/// The characters without `suffix` at their end.
fn strip_end(chars: &[char], suffix: &str) -> (r: Vec<char>)
    ensures
        r@ == without_suffix(chars@, suffix@),
{
    let suffix_chars: Vec<char> = chars_of(suffix);
    if finishes_with(chars, suffix) {
        let end: usize = chars.len() - suffix_chars.len();
        assert(chars@.subrange(0, end as int) == chars@.take(end as int));
        vstd::slice::slice_to_vec(vstd::slice::slice_subrange(chars, 0, end))
    } else {
        vstd::slice::slice_to_vec(chars)
    }
}

/// Reads a number where it is an integer.
fn read_number(text: &[char]) -> (r: Reading)
    ensures
        reading_agrees(r, Some(text@)),
{
    match read_i32(text) {
        Some(v) => Reading::Value(v),
        None => Reading::Decimal(string_of(text)),
    }
}

/// Reads a percentage as far as integers go.
pub fn read_percent(input: &str) -> (r: Reading)
    ensures
        reading_agrees(r, percent_text(input@)),
{
    let all: Vec<char> = chars_of(input);
    let stripped: Vec<char> = strip_end(trimmed(all.as_slice()).as_slice(), "%");
    let text: Vec<char> = trimmed(stripped.as_slice());
    if text.len() == 0 {
        Reading::Value(0)
    } else {
        read_number(text.as_slice())
    }
}

/// Reads a pitch in Hz as far as integers go.
pub fn read_pitch_hz(input: &str) -> (r: Reading)
    ensures
        reading_agrees(r, pitch_text(input@)),
{
    let all: Vec<char> = chars_of(input);
    let low: Vec<char> = lowered(trimmed(all.as_slice()).as_slice());
    if low.len() == 0 || same_text(low.as_slice(), "default") || same_text(low.as_slice(), "auto")
        || same_text(low.as_slice(), "none") {
        return Reading::Value(0);
    }
    let text: Vec<char> = trimmed(strip_end(low.as_slice(), "hz").as_slice());
    read_number(text.as_slice())
}

/// The number that a reading stands for, given what its text is as a decimal fraction.
pub fn settle(reading: &Reading, decimal: Option<i32>) -> (r: i32)
    ensures
        r == (match *reading {
            Reading::Value(v) => v,
            Reading::Decimal(_) => match decimal {
                Some(d) => d,
                None => 0,
            },
        }),
        forall|text: Option<Seq<char>>|
            #[trigger] reading_agrees(*reading, text) ==> r == number(text, decimal),
{
    match reading {
        Reading::Value(v) => *v,
        Reading::Decimal(_) => match decimal {
            Some(d) => d,
            None => 0,
        },
    }
}

/// Asks for the decimal fraction that a reading has left open, and for none where it has a value.
fn settle_with<F: Fn(&str) -> Option<i32>>(reading: &Reading, decimal: &F) -> (r: i32)
    requires
        forall|t: &str| call_requires(decimal, (t,)),
    ensures
        forall|text: Option<Seq<char>>| #[trigger]
            reading_agrees(*reading, text) ==> settled_with(r, text, *decimal),
{
    match reading {
        Reading::Value(_) => settle(reading, None),
        Reading::Decimal(t) => {
            let asked: &str = t.as_str();
            let d: Option<i32> = decimal(asked);
            let r: i32 = settle(reading, d);
            assert forall|text: Option<Seq<char>>| #[trigger]
                reading_agrees(*reading, text) implies settled_with(r, text, *decimal) by {
                assert(answers(*decimal, asked, d));
            }
            r
        },
    }
}

/// Whether `d` is an answer of `decimal` for the text `t`.
pub open spec fn answers<F: Fn(&str) -> Option<i32>>(
    decimal: F,
    t: &str,
    d: Option<i32>,
) -> bool {
    call_ensures(decimal, (t,), d)
}

/// Whether `r` is the number that a setting stands for, with decimal fractions read by `decimal`.
pub open spec fn settled_with<F: Fn(&str) -> Option<i32>>(
    r: i32,
    text: Option<Seq<char>>,
    decimal: F,
) -> bool {
    if asks_decimal(text) {
        exists|t: &str, d: Option<i32>| #[trigger]
            answers(decimal, t, d) && t@ == text->0 && r == number(text, d)
    } else {
        r == number(text, None)
    }
}

/// Reads a percentage; `decimal` reads a text as a decimal fraction and rounds it.
pub fn parse_percent_i32<F: Fn(&str) -> Option<i32>>(input: &str, decimal: &F) -> (r: i32)
    requires
        forall|t: &str| call_requires(decimal, (t,)),
    ensures
        settled_with(r, percent_text(input@), *decimal),
{
    settle_with(&read_percent(input), decimal)
}

/// Reads a pitch in Hz; `decimal` reads a text as a decimal fraction and rounds it.
pub fn parse_pitch_hz_i32<F: Fn(&str) -> Option<i32>>(input: &str, decimal: &F) -> (r: i32)
    requires
        forall|t: &str| call_requires(decimal, (t,)),
    ensures
        settled_with(r, pitch_text(input@), *decimal),
{
    settle_with(&read_pitch_hz(input), decimal)
}

/// Whether a setting asks for WAV audio; anything else asks for MP3.
pub open spec fn asks_wav(s: Seq<char>) -> bool {
    lower(trim(s)) == "wav"@
}

/// The file extension and the service's name of the audio that a setting asks for.
pub open spec fn audio_format(s: Seq<char>) -> (Seq<char>, Seq<char>) {
    if asks_wav(s) {
        ("wav"@, WAV_FORMAT@)
    } else {
        ("mp3"@, MP3_FORMAT@)
    }
}

/// The file extension and the service's name of the audio that a setting asks for.
pub fn audio_format_from_simple(fmt: &str) -> (r: (&'static str, &'static str))
    ensures
        (r.0@, r.1@) == audio_format(fmt@),
{
    let all: Vec<char> = chars_of(fmt);
    let low: Vec<char> = lowered(trimmed(all.as_slice()).as_slice());
    if same_text(low.as_slice(), "wav") {
        ("wav", WAV_FORMAT)
    } else {
        ("mp3", MP3_FORMAT)
    }
}

/// Whether audio of this format comes in WAV files.
pub open spec fn is_wav_format(s: Seq<char>) -> bool {
    let f = lower(trim(s));
    "riff-"@.is_prefix_of(f) || has_substring(f, "wav"@) || has_substring(f, "pcm"@)
}

/// Tests whether audio of this format comes in WAV files.
pub fn is_wav_audio_format(audio_format: &str) -> (r: bool)
    ensures
        r == is_wav_format(audio_format@),
{
    let all: Vec<char> = chars_of(audio_format);
    let low: Vec<char> = lowered(trimmed(all.as_slice()).as_slice());
    begins_with(low.as_slice(), "riff-") || contains_text(low.as_slice(), "wav") || contains_text(
        low.as_slice(),
        "pcm",
    )
}

/// The settings that say how a book is spoken, as they are written.
pub struct SpeechSettings {
    pub voice: String,
    pub rate: String,
    pub volume: String,
    pub pitch: String,
    pub format: String,
}

/// What the speech service is told beside the text.
#[derive(Debug, Clone)]
pub struct AudiobookSpeechConfig {
    pub voice_name: String,
    pub audio_format: String,
    pub pitch: i32,
    pub rate: i32,
    pub volume: i32,
}

/// How a book is spoken, and which settings had to be passed over.
pub struct Speech {
    pub config: AudiobookSpeechConfig,
    /// The extension of the audio files.
    pub ext: &'static str,
    /// The pitch that was ignored, as its unit is the semitone.
    pub ignored_pitch: Option<String>,
    /// The audio format that is not supported, for which MP3 is taken.
    pub unsupported_format: Option<String>,
}

/// The voice that a setting asks for.
pub open spec fn voice_name(s: Seq<char>) -> Seq<char> {
    if trim(s).len() == 0 {
        DEFAULT_VOICE@
    } else {
        trim(s)
    }
}

/// Whether a pitch is given in semitones.
pub open spec fn in_semitones(s: Seq<char>) -> bool {
    "st"@.is_suffix_of(lower(trim(s)))
}

/// The number in a pitch as it is written, or `None` where none is asked for that can be had.
pub open spec fn hz_text(s: Seq<char>) -> Option<Seq<char>> {
    if in_semitones(s) {
        None
    } else {
        pitch_text(s)
    }
}

/// The pitch that is ignored, as its unit is the semitone.
pub open spec fn ignored_pitch(s: Seq<char>) -> Option<Seq<char>> {
    if in_semitones(s) {
        Some(trim(s))
    } else {
        None
    }
}

/// The audio format that a setting names and that is not supported.
pub open spec fn unsupported_format(s: Seq<char>) -> Option<Seq<char>> {
    let f = lower(trim(s));
    if f.len() == 0 || f == "mp3"@ || f == "wav"@ {
        None
    } else {
        Some(f)
    }
}

/// The voice that a setting asks for.
fn voice_of(voice: &str) -> (r: String)
    ensures
        r@ == voice_name(voice@),
{
    let text: Vec<char> = trimmed(chars_of(voice).as_slice());
    if text.len() == 0 {
        DEFAULT_VOICE.to_string()
    } else {
        string_of(text.as_slice())
    }
}

/// The audio format that a setting names and that is not supported.
fn unsupported_of(format: &str) -> (r: Option<String>)
    ensures
        optional_text(r) == unsupported_format(format@),
{
    let text: Vec<char> = trimmed(chars_of(format).as_slice());
    let low: Vec<char> = lowered(text.as_slice());
    if low.len() == 0 || same_text(low.as_slice(), "mp3") || same_text(low.as_slice(), "wav") {
        None
    } else {
        Some(string_of(low.as_slice()))
    }
}

/// Works out how a book is spoken; `decimal` reads a text as a decimal fraction and rounds it.
pub fn speech_of<F: Fn(&str) -> Option<i32>>(settings: &SpeechSettings, decimal: &F) -> (r: Speech)
    requires
        forall|t: &str| call_requires(decimal, (t,)),
    ensures
        r.config.voice_name@ == voice_name(settings.voice@),
        (r.ext@, r.config.audio_format@) == audio_format(settings.format@),
        settled_with(r.config.rate, percent_text(settings.rate@), *decimal),
        settled_with(r.config.volume, percent_text(settings.volume@), *decimal),
        settled_with(r.config.pitch, hz_text(settings.pitch@), *decimal),
        optional_text(r.ignored_pitch) == ignored_pitch(settings.pitch@),
        optional_text(r.unsupported_format) == unsupported_format(settings.format@),
{
    let voice_name: String = voice_of(settings.voice.as_str());
    let rate: i32 = parse_percent_i32(settings.rate.as_str(), decimal);
    let volume: i32 = parse_percent_i32(settings.volume.as_str(), decimal);
    let raw: Vec<char> = trimmed(chars_of(settings.pitch.as_str()).as_slice());
    let (pitch, ignored_pitch): (i32, Option<String>) = if finishes_with(
        lowered(raw.as_slice()).as_slice(),
        "st",
    ) {
        (0, Some(string_of(raw.as_slice())))
    } else {
        (parse_pitch_hz_i32(settings.pitch.as_str(), decimal), None)
    };
    let (ext, audio_format): (&'static str, &'static str) = audio_format_from_simple(
        settings.format.as_str(),
    );
    let unsupported_format: Option<String> = unsupported_of(settings.format.as_str());
    let config = AudiobookSpeechConfig {
        voice_name,
        audio_format: audio_format.to_string(),
        pitch,
        rate,
        volume,
    };
    Speech { config, ext, ignored_pitch, unsupported_format }
}

/// The characters of an integer are no white space, and no letters.
proof fn lemma_integer_text(t: Seq<char>)
    requires
        i32_value(t) is Some,
    ensures
        t.len() > 0,
        forall|i: int|
            0 <= i < t.len() ==> is_digit(#[trigger] t[i]) || t[i] == '+' || t[i] == '-',
        trim(t) == t,
        lower(t) == t,
{
    assert forall|i: int| 0 <= i < t.len() implies is_digit(#[trigger] t[i]) || t[i] == '+' || t[i]
        == '-' by {
        if i > 0 {
            assert(t.skip(1)[i - 1] == t[i]);
        }
    }
    lemma_trim_keeps(t);
    assert(lower(t) =~= t);
}

/// A percentage that is an integer is that integer, with the sign at its end or without, whatever
/// a decimal fraction would be.
pub proof fn law_integer_percentage(t: Seq<char>, decimal: Option<i32>)
    requires
        i32_value(t) is Some,
    ensures
        number(percent_text(t), decimal) == i32_value(t)->0,
        number(percent_text(t + "%"@), decimal) == i32_value(t)->0,
{
    reveal_strlit("%");
    let sign = "%"@;
    assert(sign.len() == 1 && sign[0] == '%');
    lemma_integer_text(t);
    assert(!sign.is_suffix_of(t));
    let signed = t + sign;
    lemma_trim_keeps(signed);
    assert(sign.is_suffix_of(signed)) by {
        assert(signed.subrange(signed.len() - sign.len(), signed.len() as int) == sign);
    }
    assert(signed.take(signed.len() - 1) == t);
}

/// A pitch that is an integer is that integer, with the unit at its end, in upper or lower case,
/// or without it.
#[verifier::rlimit(50)]
pub proof fn law_integer_pitch(t: Seq<char>, unit: Seq<char>, decimal: Option<i32>)
    requires
        i32_value(t) is Some,
        lower(unit) == "hz"@,
    ensures
        number(hz_text(t), decimal) == i32_value(t)->0,
        number(hz_text(t + unit), decimal) == i32_value(t)->0,
{
    reveal_strlit("hz");
    reveal_strlit("st");
    reveal_strlit("default");
    reveal_strlit("auto");
    reveal_strlit("none");
    let hz = "hz"@;
    lemma_integer_text(t);
    assert(t != "default"@ && t != "auto"@ && t != "none"@) by {
        assert("default"@[0] == 'd' && "auto"@[0] == 'a' && "none"@[0] == 'n');
    }
    assert(hz.len() == 2 && hz[0] == 'h' && hz[1] == 'z');
    assert("st"@.len() == 2 && "st"@[1] == 't');
    assert(!hz.is_suffix_of(t)) by {
        if hz.is_suffix_of(t) {
            assert(t.last() == 'z');
        }
    }
    assert(!"st"@.is_suffix_of(t)) by {
        if "st"@.is_suffix_of(t) {
            assert(t.last() == 't');
        }
    }
    let whole = t + unit;
    assert(unit.len() == 2) by {
        assert(lower(unit).len() == unit.len());
    }
    assert(lower(unit)[1] == 'z');
    assert(!is_white(unit[1]));
    lemma_trim_keeps(whole);
    let low = t + hz;
    assert(lower(whole) == low) by {
        assert forall|i: int| 0 <= i < whole.len() implies lower(whole)[i] == low[i] by {
            if i < t.len() {
                assert(lower(t)[i] == t[i]);
            } else {
                assert(lower(unit)[i - t.len()] == hz[i - t.len()]);
            }
        }
    }
    assert(low != "default"@ && low != "auto"@ && low != "none"@) by {
        assert("default"@[0] == 'd' && "auto"@[0] == 'a' && "none"@[0] == 'n');
        assert(low[0] == t[0]);
    }
    assert(!"st"@.is_suffix_of(low)) by {
        if "st"@.is_suffix_of(low) {
            assert(low.last() == 't');
        }
    }
    assert(hz.is_suffix_of(low)) by {
        assert(low.subrange(low.len() - 2, low.len() as int) == hz);
    }
    assert(low.take(low.len() - 2) == t);
}

/// Files that are named as WAV files are those whose audio comes in WAV files.
#[verifier::rlimit(50)]
pub proof fn law_extension_fits_format(setting: Seq<char>)
    ensures
        ({
            let (ext, format) = audio_format(setting);
            is_wav_format(format) <==> ext == "wav"@
        }),
{
    reveal_strlit("wav");
    reveal_strlit("mp3");
    reveal_strlit("pcm");
    reveal_strlit("riff-");
    reveal_strlit("audio-24khz-48kbitrate-mono-mp3");
    reveal_strlit("riff-24khz-16bit-mono-pcm");
    let mp3 = "audio-24khz-48kbitrate-mono-mp3"@;
    let wav = "riff-24khz-16bit-mono-pcm"@;
    lemma_trim_keeps(mp3);
    lemma_trim_keeps(wav);
    assert(lower(mp3) =~= mp3);
    assert(lower(wav) =~= wav);
    assert("riff-"@.is_prefix_of(wav));
    assert(!"riff-"@.is_prefix_of(mp3)) by {
        assert("riff-"@[0] == 'r' && mp3[0] == 'a');
    }
    assert(!has_substring(mp3, "wav"@)) by {
        assert forall|i: int| 0 <= i <= mp3.len() - 3 implies #[trigger] mp3.subrange(i, i + 3)
            != "wav"@ by {
            assert(mp3.subrange(i, i + 3)[0] == mp3[i]);
            assert(mp3[i] != 'w');
        }
    }
    assert(!has_substring(mp3, "pcm"@)) by {
        assert forall|i: int| 0 <= i <= mp3.len() - 3 implies #[trigger] mp3.subrange(i, i + 3)
            != "pcm"@ by {
            assert(mp3.subrange(i, i + 3)[1] == mp3[i + 1]);
            assert(mp3[i + 1] != 'c');
        }
    }
    assert("mp3"@ != "wav"@) by {
        assert("mp3"@[0] != "wav"@[0]);
    }
}

/// White space around a setting, and the case of its letters, say nothing.
pub proof fn law_format_setting_is_loose(setting: Seq<char>)
    ensures
        audio_format(lower(trim(setting))) == audio_format(setting),
        unsupported_format(setting) is Some ==> audio_format(setting) == audio_format("mp3"@),
{
    let t = trim(setting);
    let _ = lemma_trim_is_part(setting);
    lemma_trim_twice(setting);
    assert(lower(lower(t)) =~= lower(t));
    lemma_trim_keeps(lower(t));
    reveal_strlit("mp3");
    reveal_strlit("wav");
    lemma_trim_keeps("mp3"@);
    assert(lower("mp3"@) =~= "mp3"@);
    assert("mp3"@[0] != "wav"@[0]);
}

proof fn lemma_suffix_off(s: Seq<char>, suffix: Seq<char>)
    ensures
        without_suffix(s + suffix, suffix) == s,
{
    let whole = s + suffix;
    assert(suffix.is_suffix_of(whole)) by {
        assert(whole.subrange(whole.len() - suffix.len(), whole.len() as int) == suffix);
    }
    assert(whole.take(whole.len() - suffix.len()) == s);
}

/// Of a percentage the number is read as it is written, whatever it is: without the white space
/// around it, and without one sign at the end and the white space before it. Where nothing but the
/// sign and white space is written, there is none.
#[verifier::rlimit(50)]
pub proof fn law_percentages_are_read_as_written(
    before: Seq<char>,
    t: Seq<char>,
    between: Seq<char>,
    after: Seq<char>,
)
    requires
        all_white(before),
        all_white(between),
        all_white(after),
        t.len() > 0,
        !is_white(t[0]) && !is_white(t.last()),
    ensures
        percent_text(before + t + between + "%"@ + after) == Some(t),
        t.last() != '%' ==> percent_text(before + t + after) == Some(t),
        percent_text(before + "%"@ + after) is None,
        percent_text(before) is None,
{
    reveal_strlit("%");
    let sign = "%"@;
    let none = Seq::<char>::empty();
    assert(sign.len() == 1 && sign[0] == '%');
    let inner = t + between;
    let middle = inner + sign;
    assert(before + t + between + sign + after == before + middle + after);
    law_trim_takes_white_space_off(before, middle, after);
    lemma_suffix_off(inner, sign);
    law_trim_takes_white_space_off(none, t, between);
    assert(none + t + between == inner);
    law_trim_takes_white_space_off(before, t, after);
    law_trim_takes_white_space_off(none, t, none);
    assert(none + t + none == t);
    if t.last() != '%' {
        assert(!sign.is_suffix_of(t)) by {
            if sign.is_suffix_of(t) {
                assert(t.last() == sign[0]);
            }
        }
    }
    law_trim_takes_white_space_off(before, sign, after);
    lemma_suffix_off(none, sign);
    assert(none + sign == sign);
    law_trim_takes_white_space_off(none, none, none);
    assert(none + none + none == none);
    law_trim_takes_white_space_off(before, none, none);
    assert(before + none + none == before);
    assert(!sign.is_suffix_of(none));
}

proof fn lemma_lower_add(a: Seq<char>, b: Seq<char>)
    ensures
        lower(a + b) == lower(a) + lower(b),
{
    assert(lower(a + b) =~= lower(a) + lower(b));
}

proof fn lemma_lower_white(s: Seq<char>)
    ensures
        forall|i: int| 0 <= i < s.len() ==> is_white(#[trigger] lower(s)[i]) == is_white(s[i]),
{
}

/// Of a pitch the number is read as it is written, in lower case: without the white space around
/// it, and without the unit at the end, in upper or lower case, and the white space before it. Where
/// nothing is written, or one of the words that ask for none, there is none.
#[verifier::rlimit(50)]
pub proof fn law_pitches_are_read_as_written(
    before: Seq<char>,
    t: Seq<char>,
    between: Seq<char>,
    unit: Seq<char>,
    after: Seq<char>,
)
    requires
        all_white(before),
        all_white(between),
        all_white(after),
        t.len() > 0,
        !is_white(t[0]) && !is_white(t.last()),
        lower(unit) == "hz"@,
    ensures
        pitch_text(before + t + between + unit + after) == Some(lower(t)),
        lower(t) == "default"@ || lower(t) == "auto"@ || lower(t) == "none"@ ==> pitch_text(
            before + t + after,
        ) is None,
        lower(t) != "default"@ && lower(t) != "auto"@ && lower(t) != "none"@
            && !"hz"@.is_suffix_of(lower(t)) ==> pitch_text(before + t + after) == Some(lower(t)),
        pitch_text(before) is None,
{
    reveal_strlit("hz");
    reveal_strlit("default");
    reveal_strlit("auto");
    reveal_strlit("none");
    let hz = "hz"@;
    let none = Seq::<char>::empty();
    assert(unit.len() == 2) by {
        assert(lower(unit).len() == unit.len());
    }
    assert(lower(unit)[1] == 'z');
    assert(!is_white(unit[1]));
    let inner = t + between;
    let middle = inner + unit;
    assert(before + t + between + unit + after == before + middle + after);
    law_trim_takes_white_space_off(before, middle, after);
    lemma_lower_add(inner, unit);
    lemma_lower_add(t, between);
    let low = lower(middle);
    assert(low.last() == 'z');
    assert("default"@.last() == 't' && "auto"@.last() == 'o' && "none"@.last() == 'e');
    lemma_suffix_off(lower(inner), hz);
    lemma_lower_white(t);
    lemma_lower_white(between);
    assert(!is_white(lower(t)[0]) && !is_white(lower(t)[t.len() - 1]));
    law_trim_takes_white_space_off(none, lower(t), lower(between));
    assert(none + lower(t) + lower(between) == lower(inner));
    law_trim_takes_white_space_off(before, t, after);
    law_trim_takes_white_space_off(none, lower(t), none);
    assert(none + lower(t) + none == lower(t));
    law_trim_takes_white_space_off(before, none, none);
    assert(before + none + none == before);
}

/// A setting is the integer that is written; where none is written, it is the rounded fraction; and
/// where neither is written, it is 0.
pub proof fn law_numbers_are_settled(t: Seq<char>, v: i32, d: i32, decimal: Option<i32>)
    ensures
        i32_value(t) == Some(v) ==> number(Some(t), decimal) == v && !asks_decimal(Some(t)),
        i32_value(t) is None ==> number(Some(t), Some(d)) == d && number(Some(t), None) == 0
            && asks_decimal(Some(t)),
        number(None, decimal) == 0,
        !asks_decimal(None),
{
}

/// A reading agrees with a text where it is the number that the text stands for, or, where a fraction
/// may be written, the text itself.
pub proof fn law_readings_agree_where_they_are_right(v: i32, left: String, text: Option<Seq<char>>)
    ensures
        reading_agrees(Reading::Value(v), text) <==> !asks_decimal(text) && v == number(text, None),
        reading_agrees(Reading::Decimal(left), text) <==> asks_decimal(text) && text == Some(left@),
{
}

/// A setting that a fraction may be written in is what the given function answers for its text; any
/// other needs no answer.
pub proof fn law_fractions_are_asked_for<F: Fn(&str) -> Option<i32>>(
    r: i32,
    text: Option<Seq<char>>,
    decimal: F,
)
    requires
        settled_with(r, text, decimal),
    ensures
        !asks_decimal(text) ==> r == number(text, None),
        asks_decimal(text) ==> exists|t: &str, d: Option<i32>| #[trigger]
            call_ensures(decimal, (t,), d) && text == Some(t@) && r == (match d {
                Some(v) => v,
                None => 0,
            }),
{
    if asks_decimal(text) {
        let (t, d) = choose|t: &str, d: Option<i32>| #[trigger]
            answers(decimal, t, d) && t@ == text->0 && r == number(text, d);
        assert(call_ensures(decimal, (t,), d));
    }
}

/// A pitch in semitones is not read, and is given back as it is written; any other is read.
pub proof fn law_semitones_are_ignored(s: Seq<char>)
    ensures
        "st"@.is_suffix_of(lower(trim(s))) ==> hz_text(s) is None && ignored_pitch(s) == Some(
            trim(s),
        ),
        !"st"@.is_suffix_of(lower(trim(s))) ==> hz_text(s) == pitch_text(s) && ignored_pitch(
            s,
        ) is None,
{
}

/// The voice is the one that is written, or the usual one; WAV is WAV, in upper or lower case, and
/// everything else is MP3, of which what is not supported is given back in lower case.
pub proof fn law_voices_and_formats(s: Seq<char>)
    ensures
        trim(s).len() > 0 ==> voice_name(s) == trim(s),
        trim(s).len() == 0 ==> voice_name(s) == "zh-CN-XiaoxiaoNeural"@,
        lower(trim(s)) == "wav"@ ==> audio_format(s) == ("wav"@, "riff-24khz-16bit-mono-pcm"@),
        lower(trim(s)) != "wav"@ ==> audio_format(s) == (
            "mp3"@,
            "audio-24khz-48kbitrate-mono-mp3"@,
        ),
        trim(s).len() == 0 || lower(trim(s)) == "mp3"@ || lower(trim(s)) == "wav"@
            ==> unsupported_format(s) is None,
        trim(s).len() > 0 && lower(trim(s)) != "mp3"@ && lower(trim(s)) != "wav"@
            ==> unsupported_format(s) == Some(lower(trim(s))),
        is_wav_format(s) <==> {
            let f = lower(trim(s));
            (f.len() >= 5 && f.take(5) == "riff-"@) || has_substring(f, "wav"@) || has_substring(
                f,
                "pcm"@,
            )
        },
{
    reveal_strlit("riff-");
    let f = lower(trim(s));
    let riff = "riff-"@;
    if riff.is_prefix_of(f) {
        assert(f.take(5) == riff);
    }
    if f.len() >= 5 && f.take(5) == riff {
        assert forall|i: int| 0 <= i < 5 implies riff[i] == f[i] by {
            assert(f.take(5)[i] == f[i]);
        }
        assert(riff.is_prefix_of(f));
    }
}

} // verus!
