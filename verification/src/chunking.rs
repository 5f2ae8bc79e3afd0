//! Cutting a text into pieces that the speech service accepts.
//!
//! The service limits the length of one request. A text is cut behind the marks that end or part a
//! sentence, as many sentences to a piece as fit; a sentence that is too long by itself is cut
//! wherever the limit falls.
use crate::text::{
    chars_of, is_white, lemma_trim_is_part, lemma_trim_keeps, lemma_trim_twice, string_of, trim,
    trimmed,
};
use vstd::prelude::*;
use vstd::string::*;

verus! {

/// The most characters that one request may hold. It leaves room for the markup around the text
/// and for escaped characters.
pub const TTS_CHUNK_MAX_CHARS: usize = 1800;

/// The contents of a list of strings.
pub open spec fn texts(strings: Seq<String>) -> Seq<Seq<char>> {
    Seq::new(strings.len(), |i: int| strings[i]@)
}

/// The marks behind which a text may be cut.
pub open spec fn is_boundary(c: char) -> bool {
    ||| c == '\n'
    ||| c == '。'
    ||| c == '！'
    ||| c == '？'
    ||| c == '；'
    ||| c == '：'
    ||| c == '，'
    ||| c == '、'
    ||| c == '…'
    ||| c == '!'
    ||| c == '?'
    ||| c == ';'
    ||| c == ':'
    ||| c == ','
}

/// The length of the first unit of a text: up to and with its first mark, or all of it.
pub open spec fn unit_len(t: Seq<char>) -> int
    decreases t.len(),
{
    if t.len() == 0 {
        0
    } else if is_boundary(t[0]) {
        1
    } else {
        1 + unit_len(t.skip(1))
    }
}

/// The units of a text: each ends with a mark, but for the last, which may have none.
pub open spec fn units(t: Seq<char>) -> Seq<Seq<char>>
    decreases t.len(),
    via units_decreases
{
    if t.len() == 0 {
        Seq::empty()
    } else {
        seq![t.take(unit_len(t))] + units(t.skip(unit_len(t)))
    }
}

#[via_fn]
proof fn units_decreases(t: Seq<char>) {
    lemma_unit_len(t);
}

proof fn lemma_unit_len(t: Seq<char>)
    ensures
        0 <= unit_len(t) <= t.len(),
        t.len() > 0 ==> unit_len(t) > 0,
        forall|i: int| 0 <= i < unit_len(t) - 1 ==> !is_boundary(#[trigger] t[i]),
        0 < unit_len(t) < t.len() ==> is_boundary(t[unit_len(t) - 1]),
    decreases t.len(),
{
    if t.len() > 0 && !is_boundary(t[0]) {
        let rest = t.skip(1);
        lemma_unit_len(rest);
        assert forall|i: int| 0 <= i < unit_len(t) - 1 implies !is_boundary(#[trigger] t[i]) by {
            if i > 0 {
                assert(rest[i - 1] == t[i]);
            }
        }
    }
}

/// A text cut wherever the limit falls. Where its length is a multiple of the limit, the last
/// piece is empty.
pub open spec fn blocks(u: Seq<char>) -> Seq<Seq<char>>
    decreases u.len(),
{
    if u.len() < TTS_CHUNK_MAX_CHARS {
        seq![u]
    } else {
        seq![u.take(TTS_CHUNK_MAX_CHARS as int)] + blocks(u.skip(TTS_CHUNK_MAX_CHARS as int))
    }
}

/// The pieces that units are packed into, where `current` was begun already. Each unit goes into
/// the piece that was begun, if it fits there, and else begins another; one that is longer than
/// the limit is cut by itself.
pub open spec fn packed(units: Seq<Seq<char>>, current: Seq<char>) -> Seq<Seq<char>>
    decreases units.len(),
{
    if units.len() == 0 {
        seq![current]
    } else {
        let unit = units[0];
        let rest = units.skip(1);
        if unit.len() > TTS_CHUNK_MAX_CHARS {
            seq![current] + blocks(unit) + packed(rest, Seq::empty())
        } else if current.len() > 0 && current.len() + unit.len() > TTS_CHUNK_MAX_CHARS {
            seq![current] + packed(rest, unit)
        } else {
            packed(rest, current + unit)
        }
    }
}

/// What is sent of pieces: each without the white space at its ends, and those left out of which
/// nothing stays.
pub open spec fn spoken(pieces: Seq<Seq<char>>) -> Seq<Seq<char>>
    decreases pieces.len(),
{
    if pieces.len() == 0 {
        Seq::empty()
    } else if trim(pieces[0]).len() == 0 {
        spoken(pieces.skip(1))
    } else {
        seq![trim(pieces[0])] + spoken(pieces.skip(1))
    }
}

/// The pieces that a text is cut into.
pub open spec fn cut(text: Seq<char>) -> Seq<Seq<char>> {
    let t = trim(text);
    if t.len() <= TTS_CHUNK_MAX_CHARS {
        seq![t]
    } else {
        packed(units(t), Seq::empty())
    }
}

/// The requests for a text: what is sent of the pieces that it is cut into.
pub open spec fn requests(text: Seq<char>) -> Seq<Seq<char>> {
    spoken(cut(text))
}

proof fn lemma_spoken_add(a: Seq<Seq<char>>, b: Seq<Seq<char>>)
    ensures
        spoken(a + b) == spoken(a) + spoken(b),
    decreases a.len(),
{
    if a.len() == 0 {
        assert(a + b == b);
        assert(spoken(a) + spoken(b) == spoken(b));
    } else {
        assert((a + b).skip(1) == a.skip(1) + b);
        lemma_spoken_add(a.skip(1), b);
        assert(seq![trim(a[0])] + (spoken(a.skip(1)) + spoken(b)) == seq![trim(a[0])] + spoken(
            a.skip(1),
        ) + spoken(b));
    }
}

proof fn lemma_spoken_one(piece: Seq<char>)
    ensures
        spoken(seq![piece]) == (if trim(piece).len() == 0 {
            Seq::empty()
        } else {
            seq![trim(piece)]
        }),
{
    assert(seq![piece].skip(1) == Seq::<Seq<char>>::empty());
    assert(spoken(Seq::<Seq<char>>::empty()) == Seq::<Seq<char>>::empty());
}

/// Tests a character for being a mark behind which a text may be cut.
pub fn is_tts_sentence_boundary(ch: char) -> (r: bool)
    ensures
        r == is_boundary(ch),
{
    ch == '\n' || ch == '。' || ch == '！' || ch == '？' || ch == '；' || ch == '：' || ch == '，'
        || ch == '、' || ch == '…' || ch == '!' || ch == '?' || ch == ';' || ch == ':' || ch == ','
}

/// Ends the piece that was begun: what is sent of it joins the chunks, and the next one is empty.
pub fn flush_tts_chunk(current: &mut String, current_chars: &mut usize, chunks: &mut Vec<String>)
    ensures
        texts(final(chunks)@) == texts(old(chunks)@) + spoken(seq![old(current)@]),
        final(current)@ == Seq::<char>::empty(),
        *final(current_chars) == 0,
{
    proof {
        lemma_spoken_one(current@);
    }
    let chunk: Vec<char> = trimmed(chars_of(current.as_str()).as_slice());
    let ghost before = texts(chunks@);
    if chunk.len() > 0 {
        let text: String = string_of(chunk.as_slice());
        chunks.push(text);
        assert(texts(chunks@) == before + seq![chunk@]);
    } else {
        assert(texts(chunks@) == before + Seq::<Seq<char>>::empty());
    }
    *current = String::new();
    *current_chars = 0;
}

/// Cuts a unit that is too long by itself wherever the limit falls.
pub fn split_oversized_tts_unit(unit: &str, chunks: &mut Vec<String>)
    ensures
        texts(final(chunks)@) == texts(old(chunks)@) + spoken(blocks(unit@)),
{
    let unit_chars: Vec<char> = chars_of(unit);
    let mut current: String = String::new();
    let mut current_chars: usize = 0;
    let mut i: usize = 0;
    let ghost before = texts(chunks@);
    let ghost mut start: int = 0;
    proof {
        assert(unit@.skip(0) == unit@);
        assert(unit@.subrange(0, 0) == Seq::<char>::empty());
    }
    while i < unit_chars.len()
        invariant
            unit_chars@ == unit@,
            0 <= start <= i <= unit@.len(),
            current@ == unit@.subrange(start, i as int),
            current_chars == i - start,
            current_chars < TTS_CHUNK_MAX_CHARS,
            before + spoken(blocks(unit@)) == texts(chunks@) + spoken(blocks(unit@.skip(start))),
        decreases unit@.len() - i,
    {
        assert(unit@.subrange(start, i + 1) == unit@.subrange(start, i as int).push(
            unit@[i as int],
        ));
        current.push(unit_chars[i]);
        current_chars += 1;
        i += 1;
        if current_chars >= TTS_CHUNK_MAX_CHARS {
            let ghost chunks_before = texts(chunks@);
            proof {
                let rest = unit@.skip(start);
                let n = TTS_CHUNK_MAX_CHARS as int;
                assert(rest.take(n) == current@);
                assert(rest.skip(n) == unit@.skip(start + n));
                lemma_spoken_add(seq![rest.take(n)], blocks(rest.skip(n)));
                assert(chunks_before + (spoken(seq![current@]) + spoken(blocks(rest.skip(n))))
                    == chunks_before + spoken(seq![current@]) + spoken(blocks(rest.skip(n))));
            }
            flush_tts_chunk(&mut current, &mut current_chars, chunks);
            proof {
                start = i as int;
                assert(unit@.subrange(start, i as int) == Seq::<char>::empty());
            }
        }
    }
    assert(unit@.subrange(start, unit@.len() as int) == unit@.skip(start));
    flush_tts_chunk(&mut current, &mut current_chars, chunks);
}

/// Puts a unit into the piece that was begun, or behind it where it does not fit. `current_chars`
/// counts the characters of `current`.
pub fn append_tts_unit(
    unit: &str,
    current: &mut String,
    current_chars: &mut usize,
    chunks: &mut Vec<String>,
)
    ensures
        ({
            let u = unit@;
            let count = *old(current_chars);
            if u.len() == 0 {
                &&& texts(final(chunks)@) == texts(old(chunks)@)
                &&& final(current)@ == old(current)@
                &&& *final(current_chars) == count
            } else if u.len() > TTS_CHUNK_MAX_CHARS {
                &&& texts(final(chunks)@) == texts(old(chunks)@) + spoken(seq![old(current)@])
                    + spoken(blocks(u))
                &&& final(current)@ == Seq::<char>::empty()
                &&& *final(current_chars) == 0
            } else if count > 0 && count + u.len() > TTS_CHUNK_MAX_CHARS {
                &&& texts(final(chunks)@) == texts(old(chunks)@) + spoken(seq![old(current)@])
                &&& final(current)@ == u
                &&& *final(current_chars) == u.len()
            } else {
                &&& texts(final(chunks)@) == texts(old(chunks)@)
                &&& final(current)@ == old(current)@ + u
                &&& *final(current_chars) == count + u.len()
            }
        }),
{
    let unit_chars: usize = unit.unicode_len();
    if unit_chars == 0 {
        return;
    }
    if unit_chars > TTS_CHUNK_MAX_CHARS {
        flush_tts_chunk(current, current_chars, chunks);
        split_oversized_tts_unit(unit, chunks);
        return;
    }
    if *current_chars > 0 && (*current_chars > TTS_CHUNK_MAX_CHARS || unit_chars
        > TTS_CHUNK_MAX_CHARS - *current_chars) {
        flush_tts_chunk(current, current_chars, chunks);
        assert(Seq::<char>::empty() + unit@ == unit@);
    }
    current.append(unit);
    *current_chars = *current_chars + unit_chars;
}

/// The first unit of a text that has no mark but possibly at the end of that unit.
proof fn lemma_first_unit(t: Seq<char>, n: int)
    requires
        0 < n <= t.len(),
        forall|i: int| 0 <= i < n - 1 ==> !is_boundary(#[trigger] t[i]),
        is_boundary(t[n - 1]) || n == t.len(),
    ensures
        unit_len(t) == n,
    decreases n,
{
    if n > 1 {
        assert(!is_boundary(t[0]));
        let rest = t.skip(1);
        assert forall|i: int| 0 <= i < n - 2 implies !is_boundary(#[trigger] rest[i]) by {
            assert(rest[i] == t[i + 1]);
        }
        assert(rest[n - 2] == t[n - 1]);
        lemma_first_unit(rest, n - 1);
    } else if !is_boundary(t[0]) {
        assert(unit_len(t.skip(1)) == 0);
    }
}

/// One unit is packed: what is sent once `unit` was appended to `current`.
proof fn lemma_packed_step(unit: Seq<char>, rest: Seq<Seq<char>>, current: Seq<char>)
    requires
        unit.len() > 0,
    ensures
        unit.len() > TTS_CHUNK_MAX_CHARS ==> spoken(packed(seq![unit] + rest, current)) == spoken(
            seq![current],
        ) + spoken(blocks(unit)) + spoken(packed(rest, Seq::empty())),
        unit.len() <= TTS_CHUNK_MAX_CHARS && current.len() > 0 && current.len() + unit.len()
            > TTS_CHUNK_MAX_CHARS ==> spoken(packed(seq![unit] + rest, current)) == spoken(
            seq![current],
        ) + spoken(packed(rest, unit)),
        unit.len() <= TTS_CHUNK_MAX_CHARS && (current.len() == 0 || current.len() + unit.len()
            <= TTS_CHUNK_MAX_CHARS) ==> packed(seq![unit] + rest, current) == packed(
            rest,
            current + unit,
        ),
{
    let all = seq![unit] + rest;
    assert(all[0] == unit);
    assert(all.skip(1) == rest);
    lemma_spoken_add(seq![current] + blocks(unit), packed(rest, Seq::empty()));
    lemma_spoken_add(seq![current], blocks(unit));
    lemma_spoken_add(seq![current], packed(rest, unit));
}

/// Cuts a text into requests.
#[verifier::rlimit(50)]
pub fn split_tts_text(text: &str) -> (r: Vec<String>)
    ensures
        texts(r@) == requests(text@),
{
    let t: Vec<char> = trimmed(chars_of(text).as_slice());
    proof {
        lemma_trim_twice(text@);
        lemma_spoken_one(t@);
    }
    let mut chunks: Vec<String> = Vec::new();
    if t.len() == 0 {
        assert(texts(chunks@) == Seq::<Seq<char>>::empty());
        return chunks;
    }
    if t.len() <= TTS_CHUNK_MAX_CHARS {
        chunks.push(string_of(t.as_slice()));
        assert(texts(chunks@) == seq![t@]);
        return chunks;
    }
    let total: usize = t.len();
    let mut current: String = String::new();
    let mut current_chars: usize = 0;
    let mut unit: String = String::new();
    let mut i: usize = 0;
    let ghost mut start: int = 0;
    proof {
        assert(t@.skip(0) == t@);
        assert(t@.subrange(0, 0) == Seq::<char>::empty());
        assert(texts(chunks@) == Seq::<Seq<char>>::empty());
        assert(texts(chunks@) + requests(text@) == requests(text@));
    }
    while i < total
        invariant
            total == t@.len(),
            0 <= start <= i <= total,
            unit@ == t@.subrange(start, i as int),
            forall|j: int| start <= j < i ==> !is_boundary(#[trigger] t@[j]),
            current_chars == current@.len(),
            requests(text@) == texts(chunks@) + spoken(packed(units(t@.skip(start)), current@)),
        decreases total - i,
    {
        let ch: char = t[i];
        assert(t@.subrange(start, i + 1) == t@.subrange(start, i as int).push(ch));
        unit.push(ch);
        i += 1;
        if is_tts_sentence_boundary(ch) {
            let ghost rest = t@.skip(start);
            let ghost chunks_before = texts(chunks@);
            let ghost current_before = current@;
            let ghost later = units(t@.skip(i as int));
            proof {
                let n = i - start;
                assert forall|j: int| 0 <= j < n - 1 implies !is_boundary(#[trigger] rest[j]) by {
                    assert(rest[j] == t@[start + j]);
                }
                lemma_first_unit(rest, n);
                assert(rest.take(n) == unit@);
                assert(rest.skip(n) == t@.skip(i as int));
                lemma_packed_step(unit@, later, current@);
            }
            append_tts_unit(unit.as_str(), &mut current, &mut current_chars, &mut chunks);
            proof {
                let u = unit@;
                let c = current_before;
                if u.len() > TTS_CHUNK_MAX_CHARS {
                    assert(chunks_before + (spoken(seq![c]) + spoken(blocks(u)) + spoken(
                        packed(later, Seq::empty()),
                    )) == chunks_before + spoken(seq![c]) + spoken(blocks(u)) + spoken(
                        packed(later, Seq::empty()),
                    ));
                } else if c.len() > 0 && c.len() + u.len() > TTS_CHUNK_MAX_CHARS {
                    assert(chunks_before + (spoken(seq![c]) + spoken(packed(later, u)))
                        == chunks_before + spoken(seq![c]) + spoken(packed(later, u)));
                }
                start = i as int;
                assert(t@.subrange(start, i as int) == Seq::<char>::empty());
            }
            unit = String::new();
        }
    }
    proof {
        let rest = t@.skip(start);
        let chunks_before = texts(chunks@);
        assert(rest == unit@);
        assert(units(Seq::<char>::empty()) == Seq::<Seq<char>>::empty());
        if start < total {
            assert forall|j: int| 0 <= j < rest.len() - 1 implies !is_boundary(
                #[trigger] rest[j],
            ) by {
                assert(rest[j] == t@[start + j]);
            }
            lemma_first_unit(rest, rest.len() as int);
            assert(rest.take(rest.len() as int) == rest);
            assert(rest.skip(rest.len() as int) == Seq::<char>::empty());
            lemma_packed_step(unit@, Seq::empty(), current@);
            assert(chunks_before + (spoken(seq![current@]) + spoken(blocks(unit@)) + spoken(
                seq![Seq::<char>::empty()],
            )) == chunks_before + spoken(seq![current@]) + spoken(blocks(unit@)) + spoken(
                seq![Seq::<char>::empty()],
            ));
            assert(chunks_before + (spoken(seq![current@]) + spoken(seq![unit@])) == chunks_before
                + spoken(seq![current@]) + spoken(seq![unit@]));
        }
    }
    append_tts_unit(unit.as_str(), &mut current, &mut current_chars, &mut chunks);
    flush_tts_chunk(&mut current, &mut current_chars, &mut chunks);
    chunks
}

/// Texts one after the other.
pub open spec fn joined(pieces: Seq<Seq<char>>) -> Seq<char>
    decreases pieces.len(),
{
    if pieces.len() == 0 {
        Seq::empty()
    } else {
        pieces[0] + joined(pieces.skip(1))
    }
}

/// A text without its white space.
pub open spec fn without_white(s: Seq<char>) -> Seq<char>
    decreases s.len(),
{
    if s.len() == 0 {
        s
    } else if is_white(s[0]) {
        without_white(s.skip(1))
    } else {
        seq![s[0]] + without_white(s.skip(1))
    }
}

proof fn lemma_joined_add(a: Seq<Seq<char>>, b: Seq<Seq<char>>)
    ensures
        joined(a + b) == joined(a) + joined(b),
    decreases a.len(),
{
    if a.len() == 0 {
        assert(a + b == b);
        assert(joined(a) + joined(b) == joined(b));
    } else {
        assert((a + b).skip(1) == a.skip(1) + b);
        lemma_joined_add(a.skip(1), b);
        assert(a[0] + (joined(a.skip(1)) + joined(b)) == a[0] + joined(a.skip(1)) + joined(b));
    }
}

proof fn lemma_joined_one(piece: Seq<char>)
    ensures
        joined(seq![piece]) == piece,
{
    assert(seq![piece].skip(1) == Seq::<Seq<char>>::empty());
    assert(joined(Seq::<Seq<char>>::empty()) == Seq::<char>::empty());
    assert(piece + Seq::<char>::empty() == piece);
}

proof fn lemma_without_white_add(a: Seq<char>, b: Seq<char>)
    ensures
        without_white(a + b) == without_white(a) + without_white(b),
    decreases a.len(),
{
    if a.len() == 0 {
        assert(a + b == b);
        assert(without_white(a) + without_white(b) == without_white(b));
    } else {
        assert((a + b).skip(1) == a.skip(1) + b);
        lemma_without_white_add(a.skip(1), b);
        assert(seq![a[0]] + (without_white(a.skip(1)) + without_white(b)) == seq![a[0]]
            + without_white(a.skip(1)) + without_white(b));
    }
}

proof fn lemma_without_white_of_white(s: Seq<char>)
    requires
        forall|i: int| 0 <= i < s.len() ==> is_white(#[trigger] s[i]),
    ensures
        without_white(s) == Seq::<char>::empty(),
    decreases s.len(),
{
    if s.len() > 0 {
        assert forall|i: int| 0 <= i < s.skip(1).len() implies is_white(
            #[trigger] s.skip(1)[i],
        ) by {
            assert(s.skip(1)[i] == s[i + 1]);
        }
        lemma_without_white_of_white(s.skip(1));
    }
}

proof fn lemma_trim_loses_white(s: Seq<char>)
    ensures
        without_white(trim(s)) == without_white(s),
{
    let (lo, hi) = lemma_trim_is_part(s);
    let front = s.take(lo);
    let back = s.skip(hi);
    assert forall|i: int| 0 <= i < front.len() implies is_white(#[trigger] front[i]) by {
        assert(front[i] == s[i]);
    }
    assert forall|i: int| 0 <= i < back.len() implies is_white(#[trigger] back[i]) by {
        assert(back[i] == s[hi + i]);
    }
    lemma_without_white_of_white(front);
    lemma_without_white_of_white(back);
    assert(s == front + trim(s) + back);
    lemma_without_white_add(front + trim(s), back);
    lemma_without_white_add(front, trim(s));
    let none = Seq::<char>::empty();
    assert(none + without_white(trim(s)) + none == without_white(trim(s)));
}

proof fn lemma_units_joined(t: Seq<char>)
    ensures
        joined(units(t)) == t,
        forall|i: int| 0 <= i < units(t).len() ==> (#[trigger] units(t)[i]).len() > 0,
        forall|i: int|
            0 <= i < units(t).len() - 1 ==> is_boundary((#[trigger] units(t)[i]).last()),
    decreases t.len(),
{
    if t.len() > 0 {
        lemma_unit_len(t);
        let n = unit_len(t);
        let rest = t.skip(n);
        lemma_units_joined(rest);
        let all = seq![t.take(n)] + units(rest);
        assert(all.skip(1) == units(rest));
        assert(t.take(n) + rest == t);
        assert forall|i: int| 0 <= i < all.len() implies (#[trigger] all[i]).len() > 0 by {
            if i > 0 {
                assert(all[i] == units(rest)[i - 1]);
            }
        }
        assert forall|i: int| 0 <= i < all.len() - 1 implies is_boundary(
            (#[trigger] all[i]).last(),
        ) by {
            if i > 0 {
                assert(all[i] == units(rest)[i - 1]);
            } else {
                assert(n < t.len());
            }
        }
    }
}

proof fn lemma_blocks(u: Seq<char>)
    ensures
        joined(blocks(u)) == u,
        forall|i: int| 0 <= i < blocks(u).len() ==> (#[trigger] blocks(u)[i]).len()
            <= TTS_CHUNK_MAX_CHARS,
    decreases u.len(),
{
    if u.len() < TTS_CHUNK_MAX_CHARS {
        lemma_joined_one(u);
    } else {
        let n = TTS_CHUNK_MAX_CHARS as int;
        let rest = blocks(u.skip(n));
        lemma_blocks(u.skip(n));
        assert((seq![u.take(n)] + rest).skip(1) == rest);
        assert(u.take(n) + u.skip(n) == u);
        assert forall|i: int| 0 <= i < blocks(u).len() implies (#[trigger] blocks(u)[i]).len()
            <= TTS_CHUNK_MAX_CHARS by {
            if i > 0 {
                assert(blocks(u)[i] == rest[i - 1]);
            }
        }
    }
}

/// Whether no piece is longer than a request may be.
spec fn all_fit(pieces: Seq<Seq<char>>) -> bool {
    forall|i: int| 0 <= i < pieces.len() ==> (#[trigger] pieces[i]).len() <= TTS_CHUNK_MAX_CHARS
}

proof fn lemma_all_fit_add(a: Seq<Seq<char>>, b: Seq<Seq<char>>)
    requires
        all_fit(a),
        all_fit(b),
    ensures
        all_fit(a + b),
{
    let all = a + b;
    assert forall|i: int| 0 <= i < all.len() implies (#[trigger] all[i]).len()
        <= TTS_CHUNK_MAX_CHARS by {
        if i < a.len() {
            assert(all[i] == a[i]);
        } else {
            assert(all[i] == b[i - a.len()]);
        }
    }
}

#[verifier::rlimit(50)]
proof fn lemma_packed(us: Seq<Seq<char>>, current: Seq<char>)
    requires
        current.len() <= TTS_CHUNK_MAX_CHARS,
    ensures
        joined(packed(us, current)) == current + joined(us),
        all_fit(packed(us, current)),
        packed(us, current).len() > 0,
    decreases us.len(),
{
    let none = Seq::<char>::empty();
    lemma_joined_one(current);
    if us.len() == 0 {
        assert(current + none == current);
    } else {
        let unit = us[0];
        let rest = us.skip(1);
        if unit.len() > TTS_CHUNK_MAX_CHARS {
            lemma_packed(rest, none);
            lemma_blocks(unit);
            lemma_joined_add(seq![current] + blocks(unit), packed(rest, none));
            lemma_joined_add(seq![current], blocks(unit));
            assert(none + joined(rest) == joined(rest));
            assert(current + (unit + joined(rest)) == current + unit + joined(rest));
            lemma_all_fit_add(seq![current], blocks(unit));
            lemma_all_fit_add(seq![current] + blocks(unit), packed(rest, none));
        } else if current.len() > 0 && current.len() + unit.len() > TTS_CHUNK_MAX_CHARS {
            lemma_packed(rest, unit);
            lemma_joined_add(seq![current], packed(rest, unit));
            lemma_all_fit_add(seq![current], packed(rest, unit));
        } else {
            lemma_packed(rest, current + unit);
            assert(current + (unit + joined(rest)) == current + unit + joined(rest));
        }
    }
}

/// The pieces that a text is cut into are the whole text, but for the white space at its two ends:
/// one after the other, with nothing lost, doubled or moved. None is longer than a request may be.
pub proof fn law_cut_keeps_text(text: Seq<char>)
    ensures
        joined(cut(text)) == trim(text),
        forall|i: int| 0 <= i < cut(text).len() ==> (#[trigger] cut(text)[i]).len()
            <= TTS_CHUNK_MAX_CHARS,
{
    let t = trim(text);
    let none = Seq::<char>::empty();
    lemma_joined_one(t);
    lemma_units_joined(t);
    lemma_packed(units(t), none);
    assert(none + joined(units(t)) == t);
    if t.len() <= TTS_CHUNK_MAX_CHARS {
        assert(cut(text) == seq![t]);
    } else {
        assert(all_fit(cut(text)));
    }
}

#[verifier::rlimit(50)]
proof fn lemma_spoken_pieces(pieces: Seq<Seq<char>>)
    requires
        all_fit(pieces),
    ensures
        without_white(joined(spoken(pieces))) == without_white(joined(pieces)),
        forall|i: int|
            0 <= i < spoken(pieces).len() ==> {
                let request = #[trigger] spoken(pieces)[i];
                0 < request.len() <= TTS_CHUNK_MAX_CHARS && trim(request) == request
            },
    decreases pieces.len(),
{
    if pieces.len() > 0 {
        let first = pieces[0];
        let rest = pieces.skip(1);
        assert(all_fit(rest)) by {
            assert forall|i: int| 0 <= i < rest.len() implies (#[trigger] rest[i]).len()
                <= TTS_CHUNK_MAX_CHARS by {
                assert(rest[i] == pieces[i + 1]);
            }
        }
        lemma_spoken_pieces(rest);
        lemma_trim_loses_white(first);
        lemma_trim_twice(first);
        let _ = lemma_trim_is_part(first);
        lemma_without_white_add(first, joined(rest));
        let sent = spoken(rest);
        if trim(first).len() == 0 {
            assert(without_white(first) == Seq::<char>::empty());
            assert(without_white(first) + without_white(joined(rest)) == without_white(
                joined(rest),
            ));
        } else {
            let all = seq![trim(first)] + sent;
            assert(all.skip(1) == sent);
            lemma_without_white_add(trim(first), joined(sent));
            assert forall|i: int| 0 <= i < all.len() implies {
                let request = #[trigger] all[i];
                0 < request.len() <= TTS_CHUNK_MAX_CHARS && trim(request) == request
            } by {
                if i > 0 {
                    assert(all[i] == sent[i - 1]);
                }
            }
        }
    }
}

/// Every request holds something, is no longer than a request may be, and has no white space at
/// its ends.
pub proof fn law_requests_fit(text: Seq<char>)
    ensures
        forall|i: int|
            0 <= i < requests(text).len() ==> {
                let request = #[trigger] requests(text)[i];
                0 < request.len() <= TTS_CHUNK_MAX_CHARS && trim(request) == request
            },
{
    law_cut_keeps_text(text);
    assert(all_fit(cut(text)));
    lemma_spoken_pieces(cut(text));
}

/// The requests say all that the text says: but for white space, they are the text.
pub proof fn law_requests_lose_only_white_space(text: Seq<char>)
    ensures
        without_white(joined(requests(text))) == without_white(text),
{
    law_cut_keeps_text(text);
    assert(all_fit(cut(text)));
    lemma_spoken_pieces(cut(text));
    lemma_trim_loses_white(text);
}

/// Whether no piece has white space at its ends.
pub open spec fn none_padded(pieces: Seq<Seq<char>>) -> bool {
    forall|i: int| 0 <= i < pieces.len() ==> trim(#[trigger] pieces[i]) == pieces[i]
}

#[verifier::spinoff_prover]
#[verifier::rlimit(30)]
proof fn lemma_spoken_exact(pieces: Seq<Seq<char>>)
    ensures
        joined(spoken(pieces)).len() <= joined(pieces).len(),
        none_padded(pieces) ==> joined(spoken(pieces)) == joined(pieces),
        joined(spoken(pieces)).len() == joined(pieces).len() ==> none_padded(pieces),
    decreases pieces.len(),
{
    if pieces.len() > 0 {
        let first = pieces[0];
        let rest = pieces.skip(1);
        lemma_spoken_exact(rest);
        let (lo, hi) = lemma_trim_is_part(first);
        let sent = spoken(rest);
        if trim(first).len() > 0 {
            assert((seq![trim(first)] + sent).skip(1) == sent);
        }
        if none_padded(pieces) {
            assert forall|i: int| 0 <= i < rest.len() implies trim(#[trigger] rest[i])
                == rest[i] by {
                assert(rest[i] == pieces[i + 1]);
            }
            assert(trim(pieces[0]) == pieces[0]);
            if first.len() == 0 {
                assert(first + joined(rest) == joined(rest));
            }
        }
        if joined(spoken(pieces)).len() == joined(pieces).len() {
            assert(trim(first).len() == first.len());
            assert(trim(first) == first);
            assert forall|i: int| 0 <= i < pieces.len() implies trim(#[trigger] pieces[i])
                == pieces[i] by {
                if i > 0 {
                    assert(pieces[i] == rest[i - 1]);
                }
            }
        }
    }
}

/// The requests one after the other are the text, character for character, exactly where neither
/// the text nor a piece that it is cut into has white space at its ends.
pub proof fn law_requests_are_the_text(text: Seq<char>)
    ensures
        joined(requests(text)) == text <==> trim(text) == text && none_padded(cut(text)),
{
    law_cut_keeps_text(text);
    lemma_spoken_exact(cut(text));
    let (lo, hi) = lemma_trim_is_part(text);
    if joined(requests(text)) == text {
        assert(trim(text).len() == text.len());
        assert(trim(text) == text);
    }
}

proof fn lemma_parts_have_no_white(pieces: Seq<Seq<char>>)
    requires
        forall|i: int| 0 <= i < joined(pieces).len() ==> !is_white(#[trigger] joined(pieces)[i]),
    ensures
        none_padded(pieces),
    decreases pieces.len(),
{
    if pieces.len() > 0 {
        let first = pieces[0];
        let rest = pieces.skip(1);
        let all = joined(pieces);
        assert forall|i: int| 0 <= i < joined(rest).len() implies !is_white(
            #[trigger] joined(rest)[i],
        ) by {
            assert(joined(rest)[i] == all[first.len() + i]);
        }
        lemma_parts_have_no_white(rest);
        if first.len() > 0 {
            assert(first[0] == all[0]);
            assert(first.last() == all[first.len() - 1]);
        }
        lemma_trim_keeps(first);
        assert forall|i: int| 0 <= i < pieces.len() implies trim(#[trigger] pieces[i])
            == pieces[i] by {
            if i > 0 {
                assert(pieces[i] == rest[i - 1]);
            }
        }
    }
}

/// The requests for a text without white space are the text, character for character.
pub proof fn law_requests_are_a_text_without_white_space(text: Seq<char>)
    requires
        forall|i: int| 0 <= i < text.len() ==> !is_white(#[trigger] text[i]),
    ensures
        joined(requests(text)) == text,
{
    lemma_trim_keeps(text);
    law_cut_keeps_text(text);
    lemma_parts_have_no_white(cut(text));
    law_requests_are_the_text(text);
}

/// A text is cut into no request at all exactly where it is blank, and a text that fits is sent
/// whole.
pub proof fn law_short_text_is_one_request(text: Seq<char>)
    ensures
        requests(text).len() == 0 <==> trim(text).len() == 0,
        0 < trim(text).len() <= TTS_CHUNK_MAX_CHARS ==> requests(text) == seq![trim(text)],
{
    lemma_trim_twice(text);
    lemma_spoken_one(trim(text));
    if trim(text).len() > 0 {
        law_requests_lose_only_white_space(text);
        lemma_trim_loses_white(text);
        let _ = lemma_trim_is_part(text);
        assert(without_white(trim(text)).len() > 0);
        if requests(text).len() == 0 {
            assert(joined(requests(text)) == Seq::<char>::empty());
        }
    }
}

/// A request is not cut again.
pub proof fn law_request_is_not_cut_again(text: Seq<char>, i: int)
    requires
        0 <= i < requests(text).len(),
    ensures
        requests(requests(text)[i]) == seq![requests(text)[i]],
{
    law_requests_fit(text);
    law_short_text_is_one_request(requests(text)[i]);
}

proof fn lemma_packed_breaks(us: Seq<Seq<char>>, current: Seq<char>)
    requires
        current.len() > 0 && us.len() > 0 ==> is_boundary(current.last()),
        forall|i: int|
            0 <= i < us.len() ==> 0 < (#[trigger] us[i]).len() <= TTS_CHUNK_MAX_CHARS,
        forall|i: int| 0 <= i < us.len() - 1 ==> is_boundary((#[trigger] us[i]).last()),
    ensures
        forall|i: int|
            0 <= i < packed(us, current).len() - 1 ==> (#[trigger] packed(us, current)[i]).len() > 0
                && is_boundary(packed(us, current)[i].last()),
    decreases us.len(),
{
    if us.len() > 0 {
        let unit = us[0];
        let rest = us.skip(1);
        assert forall|i: int| 0 <= i < rest.len() implies 0 < (#[trigger] rest[i]).len()
            <= TTS_CHUNK_MAX_CHARS by {
            assert(rest[i] == us[i + 1]);
        }
        assert forall|i: int| 0 <= i < rest.len() - 1 implies is_boundary(
            (#[trigger] rest[i]).last(),
        ) by {
            assert(rest[i] == us[i + 1]);
        }
        if rest.len() > 0 {
            assert(is_boundary(us[0].last()));
        }
        if current.len() > 0 && current.len() + unit.len() > TTS_CHUNK_MAX_CHARS {
            lemma_packed_breaks(rest, unit);
            let all = packed(us, current);
            let later = packed(rest, unit);
            assert(all == seq![current] + later);
            assert forall|i: int| 0 <= i < all.len() - 1 implies (#[trigger] all[i]).len() > 0
                && is_boundary(all[i].last()) by {
                if i > 0 {
                    assert(all[i] == later[i - 1]);
                }
            }
        } else {
            assert((current + unit).last() == unit.last());
            lemma_packed_breaks(rest, current + unit);
            assert(0 < us[0].len() <= TTS_CHUNK_MAX_CHARS);
            assert(packed(us, current) == packed(rest, current + unit));
        }
    }
}

/// Where no sentence is too long by itself, a text is cut behind marks alone: every piece but the
/// last ends with one.
pub proof fn law_cut_at_sentence_boundaries(text: Seq<char>)
    requires
        forall|i: int|
            0 <= i < units(trim(text)).len() ==> (#[trigger] units(trim(text))[i]).len()
                <= TTS_CHUNK_MAX_CHARS,
    ensures
        forall|i: int|
            0 <= i < cut(text).len() - 1 ==> (#[trigger] cut(text)[i]).len() > 0 && is_boundary(
                cut(text)[i].last(),
            ),
{
    let t = trim(text);
    lemma_units_joined(t);
    lemma_packed_breaks(units(t), Seq::empty());
}

proof fn lemma_joined_is_flat(pieces: Seq<Seq<char>>)
    ensures
        joined(pieces) == pieces.flatten(),
    decreases pieces.len(),
{
    if pieces.len() > 0 {
        assert(pieces.drop_first() == pieces.skip(1));
        lemma_joined_is_flat(pieces.skip(1));
    }
}

/// A text may be cut behind these marks, and behind no others.
pub proof fn law_marks(c: char)
    ensures
        is_boundary(c) <==> "\n。！？；：，、…!?;:,"@.contains(c),
{
    reveal_strlit("\n。！？；：，、…!?;:,");
    let marks = "\n。！？；：，、…!?;:,"@;
    assert(marks.len() == 14);
    assert(marks[0] == '\n' && marks[1] == '。' && marks[2] == '！' && marks[3] == '？' && marks[4]
        == '；' && marks[5] == '：' && marks[6] == '，');
    assert(marks[7] == '、' && marks[8] == '…' && marks[9] == '!' && marks[10] == '?' && marks[11]
        == ';' && marks[12] == ':' && marks[13] == ',');
    if is_boundary(c) {
        assert(exists|i: int| 0 <= i < 14 && marks[i] == c);
    }
}

/// The units of a text are the text: one after the other, with nothing lost, doubled or moved. None
/// is empty; each but the last ends with a mark; and none has a mark before its end.
pub proof fn law_units_end_at_marks(t: Seq<char>)
    ensures
        units(t).flatten() == t,
        forall|i: int| 0 <= i < units(t).len() ==> (#[trigger] units(t)[i]).len() > 0,
        forall|i: int|
            0 <= i < units(t).len() - 1 ==> is_boundary((#[trigger] units(t)[i]).last()),
        forall|i: int, j: int|
            0 <= i < units(t).len() && 0 <= j < units(t)[i].len() - 1 ==> !is_boundary(
                #[trigger] units(t)[i][j],
            ),
{
    lemma_units_joined(t);
    lemma_joined_is_flat(units(t));
    lemma_units_have_no_inner_marks(t);
}

proof fn lemma_units_have_no_inner_marks(t: Seq<char>)
    ensures
        forall|i: int, j: int|
            0 <= i < units(t).len() && 0 <= j < units(t)[i].len() - 1 ==> !is_boundary(
                #[trigger] units(t)[i][j],
            ),
    decreases t.len(),
{
    if t.len() > 0 {
        lemma_unit_len(t);
        let n = unit_len(t);
        let rest = t.skip(n);
        lemma_units_have_no_inner_marks(rest);
        assert forall|i: int, j: int|
            0 <= i < units(t).len() && 0 <= j < units(t)[i].len() - 1 implies !is_boundary(
            #[trigger] units(t)[i][j],
        ) by {
            if i == 0 {
                assert(units(t)[0] == t.take(n));
                assert(units(t)[0][j] == t[j]);
            } else {
                assert(units(t)[i] == units(rest)[i - 1]);
                assert(!is_boundary(units(rest)[i - 1][j]));
            }
        }
    }
}

/// A stretch that is cut by its length alone is cut behind each 1800 characters: the pieces are the
/// stretch, each but the last has 1800, and the last has fewer.
pub proof fn law_blocks_are_full(u: Seq<char>)
    ensures
        blocks(u).flatten() == u,
        blocks(u).len() > 0,
        forall|i: int| 0 <= i < blocks(u).len() - 1 ==> (#[trigger] blocks(u)[i]).len() == 1800,
        blocks(u).last().len() < 1800,
    decreases u.len(),
{
    lemma_blocks(u);
    lemma_joined_is_flat(blocks(u));
    if u.len() >= 1800 {
        let rest = blocks(u.skip(1800));
        law_blocks_are_full(u.skip(1800));
        assert forall|i: int| 0 <= i < blocks(u).len() - 1 implies (#[trigger] blocks(u)[i]).len()
            == 1800 by {
            if i > 0 {
                assert(blocks(u)[i] == rest[i - 1]);
            }
        }
    }
}

/// What is sent of pieces is each of them without the white space at its ends, in order; only those
/// of which nothing stays are left out.
#[verifier::rlimit(50)]
pub proof fn law_spoken_pieces_are_trimmed(pieces: Seq<Seq<char>>)
    ensures
        spoken(pieces) == pieces.map_values(|p: Seq<char>| trim(p)).filter(
            |p: Seq<char>| p.len() > 0,
        ),
    decreases pieces.len(),
{
    let trims = |p: Seq<char>| trim(p);
    let stays = |p: Seq<char>| p.len() > 0;
    reveal(Seq::filter);
    if pieces.len() > 0 {
        let before = pieces.drop_last();
        let last = pieces.last();
        law_spoken_pieces_are_trimmed(before);
        lemma_spoken_add(before, seq![last]);
        lemma_spoken_one(last);
        assert(before + seq![last] == pieces);
        let mapped = pieces.map_values(trims);
        assert(mapped.drop_last() == before.map_values(trims));
        assert(mapped.last() == trim(last));
        let kept = before.map_values(trims).filter(stays);
        assert(kept + seq![trim(last)] == kept.push(trim(last)));
        assert(kept + Seq::<Seq<char>>::empty() == kept);
    } else {
        assert(pieces.map_values(trims).len() == 0);
        assert(spoken(pieces) == pieces.map_values(trims).filter(stays));
    }
}

/// The requests for a text are the pieces that it is cut into, each without the white space at its
/// ends, in order, without those of which nothing stays. The pieces are the text without the white
/// space at its ends, with nothing lost, doubled or moved, and none is longer than 1800 characters.
pub proof fn law_requests_are_trimmed_pieces(text: Seq<char>)
    ensures
        requests(text) == cut(text).map_values(|p: Seq<char>| trim(p)).filter(
            |p: Seq<char>| p.len() > 0,
        ),
        cut(text).flatten() == trim(text),
        forall|i: int| 0 <= i < cut(text).len() ==> (#[trigger] cut(text)[i]).len() <= 1800,
{
    law_spoken_pieces_are_trimmed(cut(text));
    law_cut_keeps_text(text);
    lemma_joined_is_flat(cut(text));
}

/// Whether among any 1800 characters of `t` in a row there is a mark.
pub open spec fn marks_are_near(t: Seq<char>) -> bool {
    forall|k: int|
        0 <= k && k + 1800 <= t.len() ==> !#[trigger] without_marks(t.subrange(k, k + 1800))
}

/// Whether no mark occurs in `s`.
pub open spec fn without_marks(s: Seq<char>) -> bool {
    forall|i: int| 0 <= i < s.len() ==> !is_boundary(#[trigger] s[i])
}

proof fn lemma_units_fit(t: Seq<char>)
    requires
        marks_are_near(t),
    ensures
        forall|i: int| 0 <= i < units(t).len() ==> (#[trigger] units(t)[i]).len() <= 1800,
    decreases t.len(),
{
    if t.len() > 0 {
        lemma_unit_len(t);
        let n = unit_len(t);
        let rest = t.skip(n);
        if n > 1800 {
            let k: int = 0;
            let window = t.subrange(k, k + 1800);
            assert forall|i: int| 0 <= i < window.len() implies !is_boundary(
                #[trigger] window[i],
            ) by {
                assert(window[i] == t[i]);
            }
            assert(without_marks(window));
            assert(!without_marks(t.subrange(k, k + 1800)));
        }
        assert forall|k: int| 0 <= k && k + 1800 <= rest.len() implies !#[trigger] without_marks(
            rest.subrange(k, k + 1800),
        ) by {
            assert(rest.subrange(k, k + 1800) == t.subrange(n + k, n + k + 1800));
        }
        lemma_units_fit(rest);
        assert forall|i: int| 0 <= i < units(t).len() implies (#[trigger] units(t)[i]).len()
            <= 1800 by {
            if i > 0 {
                assert(units(t)[i] == units(rest)[i - 1]);
            }
        }
    }
}

/// Where among any 1800 characters in a row there is a mark, a text is cut behind marks alone: each
/// piece but the last ends with one.
pub proof fn law_text_is_cut_behind_marks(text: Seq<char>)
    requires
        marks_are_near(trim(text)),
    ensures
        forall|i: int|
            0 <= i < cut(text).len() - 1 ==> (#[trigger] cut(text)[i]).len() > 0 && is_boundary(
                cut(text)[i].last(),
            ),
{
    lemma_units_fit(trim(text));
    law_cut_at_sentence_boundaries(text);
}

proof fn lemma_first_piece(us: Seq<Seq<char>>, current: Seq<char>)
    ensures
        packed(us, current).len() > 0,
        current.is_prefix_of(packed(us, current)[0]),
    decreases us.len(),
{
    if us.len() > 0 {
        let unit = us[0];
        let rest = us.skip(1);
        if unit.len() <= 1800 && !(current.len() > 0 && current.len() + unit.len() > 1800) {
            lemma_first_piece(rest, current + unit);
            let first = packed(rest, current + unit)[0];
            assert forall|i: int| 0 <= i < current.len() implies current[i] == first[i] by {
                assert((current + unit)[i] == current[i]);
            }
        }
    }
}

/// Whether a piece has no room for what stands at the start of the next, up to any of its marks, or
/// up to its end where it is the last.
pub open spec fn is_full_before(p: Seq<char>, next: Seq<char>, next_is_last: bool) -> bool {
    forall|m: int|
        0 < m <= next.len() && (is_boundary(#[trigger] next[m - 1]) || (next_is_last && m
            == next.len())) ==> p.len() + m > 1800
}

/// Whether a piece is 1800 characters without a mark.
pub open spec fn is_block(p: Seq<char>) -> bool {
    p.len() == 1800 && without_marks(p)
}

/// Whether a piece has no mark before its last character.
pub open spec fn without_inner_marks(p: Seq<char>) -> bool {
    forall|j: int| 0 <= j < p.len() - 1 ==> !is_boundary(#[trigger] p[j])
}

/// Whether the piece `k` is filled as it should be: nothing of a stretch that was cut by its length
/// shares a piece with what follows it, and any other piece has no room for more.
pub open spec fn is_filled(pieces: Seq<Seq<char>>, k: int) -> bool {
    let behind_block = k > 0 && is_block(pieces[k - 1]);
    &&& behind_block ==> without_inner_marks(pieces[k])
    &&& !behind_block && pieces[k].len() > 0 && k + 1 < pieces.len() ==> is_full_before(
        pieces[k],
        pieces[k + 1],
        k + 1 == pieces.len() - 1,
    )
}

/// What is filled stays so where pieces are put in front of which the last is no block.
proof fn lemma_filled_behind(front: Seq<Seq<char>>, later: Seq<Seq<char>>, m: int)
    requires
        front.len() > 0,
        0 <= m < later.len(),
        m == 0 ==> !is_block(front.last()),
        is_filled(later, m),
    ensures
        is_filled(front + later, front.len() + m),
{
    let all = front + later;
    let k = front.len() + m;
    assert(all[k] == later[m]);
    if m > 0 {
        assert(all[k - 1] == later[m - 1]);
    } else {
        assert(all[k - 1] == front.last());
    }
    if k + 1 < all.len() {
        assert(all[k + 1] == later[m + 1]);
    }
}

#[verifier::rlimit(50)]
proof fn lemma_block_parts(u: Seq<char>, i: int)
    requires
        u.len() > 1800,
        without_inner_marks(u),
        0 <= i < blocks(u).len(),
    ensures
        blocks(u).len() > 1,
        i < blocks(u).len() - 1 ==> blocks(u)[i].len() == 1800,
        without_inner_marks(blocks(u)[i]),
        i == blocks(u).len() - 1 ==> blocks(u)[i].len() < 1800,
        i == blocks(u).len() - 1 && blocks(u)[i].len() > 0 ==> is_block(blocks(u)[i - 1]),
    decreases u.len(),
{
    let first = u.take(1800);
    let rest = u.skip(1800);
    let later = blocks(rest);
    assert(blocks(u) == seq![first] + later);
    assert forall|j: int| 0 <= j < first.len() implies !is_boundary(#[trigger] first[j]) by {
        assert(first[j] == u[j]);
    }
    assert(is_block(first));
    assert forall|j: int| 0 <= j < rest.len() - 1 implies !is_boundary(#[trigger] rest[j]) by {
        assert(rest[j] == u[j + 1800]);
    }
    if i > 0 {
        assert(blocks(u)[i] == later[i - 1]);
        if rest.len() > 1800 {
            lemma_block_parts(rest, i - 1);
            if i > 1 {
                assert(blocks(u)[i - 1] == later[i - 2]);
            }
        } else if rest.len() == 1800 {
            assert(rest.take(1800) == rest);
            assert(rest.skip(1800).len() == 0);
            assert(blocks(rest.skip(1800)) == seq![rest.skip(1800)]);
            assert(later == seq![rest, rest.skip(1800)]);
        } else {
            assert(later == seq![rest]);
        }
    } else {
        assert(later.len() > 0);
    }
}

#[verifier::rlimit(40)]
proof fn lemma_packed_is_filled(us: Seq<Seq<char>>, current: Seq<char>)
    requires
        forall|i: int| 0 <= i < us.len() ==> (#[trigger] us[i]).len() > 0,
        forall|i: int| 0 <= i < us.len() ==> without_inner_marks(#[trigger] us[i]),
        current.len() > 0 && us.len() > 0 ==> is_boundary(current.last()),
        forall|i: int| 0 <= i < us.len() - 1 ==> is_boundary((#[trigger] us[i]).last()),
    ensures
        forall|k: int|
            0 <= k < packed(us, current).len() ==> #[trigger] is_filled(packed(us, current), k),
    decreases us.len(),
{
    let none = Seq::<char>::empty();
    if us.len() > 0 {
        let unit = us[0];
        let rest = us.skip(1);
        let all = packed(us, current);
        assert(us[0].len() > 0 && without_inner_marks(us[0]));
        assert forall|i: int| 0 <= i < rest.len() implies (#[trigger] rest[i]).len() > 0 by {
            assert(rest[i] == us[i + 1]);
        }
        assert forall|i: int| 0 <= i < rest.len() implies without_inner_marks(
            #[trigger] rest[i],
        ) by {
            assert(rest[i] == us[i + 1]);
        }
        assert forall|i: int| 0 <= i < rest.len() - 1 implies is_boundary(
            (#[trigger] rest[i]).last(),
        ) by {
            assert(rest[i] == us[i + 1]);
        }
        if rest.len() > 0 {
            assert(is_boundary(us[0].last()));
        }
        assert(current.len() > 0 ==> !is_block(current)) by {
            if current.len() > 0 {
                assert(is_boundary(current[current.len() - 1]));
            }
        }
        if unit.len() > 1800 {
            let later = packed(rest, none);
            let middle = blocks(unit);
            let n = middle.len() as int;
            let front = seq![current] + middle;
            lemma_packed_is_filled(rest, none);
            lemma_block_parts(unit, 0);
            lemma_block_parts(unit, n - 1);
            assert(all == front + later);
            assert(front.last() == middle.last());
            assert forall|k: int| 0 <= k < all.len() implies #[trigger] is_filled(all, k) by {
                if k == 0 {
                    assert(all[0] == current);
                    assert(all[1] == middle[0]);
                    let next = all[1];
                    assert forall|m: int|
                        0 < m <= next.len() && (is_boundary(#[trigger] next[m - 1]) || (1
                            == all.len() - 1 && m == next.len())) && current.len()
                            > 0 implies current.len() + m > 1800 by {
                        if m < next.len() {
                            assert(!is_boundary(next[m - 1]));
                        }
                    }
                } else if k <= n {
                    lemma_block_parts(unit, k - 1);
                    assert(all[k] == middle[k - 1]);
                    if k > 1 {
                        assert(all[k - 1] == middle[k - 2]);
                    } else {
                        assert(all[k - 1] == current);
                    }
                } else {
                    lemma_filled_behind(front, later, k - n - 1);
                }
            }
        } else if current.len() > 0 && current.len() + unit.len() > 1800 {
            let later = packed(rest, unit);
            lemma_packed_is_filled(rest, unit);
            lemma_first_piece(rest, unit);
            assert(all == seq![current] + later);
            assert forall|k: int| 0 <= k < all.len() implies #[trigger] is_filled(all, k) by {
                if k == 0 {
                    let next = later[0];
                    assert(all[1] == next);
                    assert forall|m: int|
                        0 < m <= next.len() && (is_boundary(#[trigger] next[m - 1]) || (1
                            == all.len() - 1 && m == next.len())) implies current.len() + m
                        > 1800 by {
                        if m < unit.len() {
                            assert(next[m - 1] == unit[m - 1]);
                        }
                    }
                } else {
                    lemma_filled_behind(seq![current], later, k - 1);
                }
            }
        } else {
            assert((current + unit).last() == unit.last());
            lemma_packed_is_filled(rest, current + unit);
            assert(all == packed(rest, current + unit));
        }
    } else {
        assert(packed(us, current) == seq![current]);
    }
}

/// Whatever the text, as many sentences go to a piece as fit: to no piece could be added what stands
/// at the start of the next, up to one of its marks or up to the end of the text. The one exception
/// is a stretch without a mark that is longer than a request may be: what is left of it behind its
/// blocks of 1800 stands alone.
pub proof fn law_pieces_are_full(text: Seq<char>)
    ensures
        forall|k: int| 0 <= k < cut(text).len() ==> #[trigger] is_filled(cut(text), k),
{
    let t = trim(text);
    if t.len() > 1800 {
        let us = units(t);
        law_units_end_at_marks(t);
        assert forall|i: int| 0 <= i < us.len() implies without_inner_marks(#[trigger] us[i]) by {
            assert forall|j: int| 0 <= j < us[i].len() - 1 implies !is_boundary(
                #[trigger] us[i][j],
            ) by {
                assert(!is_boundary(units(t)[i][j]));
            }
        }
        lemma_packed_is_filled(us, Seq::empty());
    }
}

/// Whether nothing stands in the pieces from `k` on.
pub open spec fn nothing_from(pieces: Seq<Seq<char>>, k: int) -> bool {
    forall|i: int| k <= i < pieces.len() ==> (#[trigger] pieces[i]).len() == 0
}

/// Whether a piece is empty, or ends with a mark, or is 1800 characters without any.
pub open spec fn ends_well(p: Seq<char>) -> bool {
    p.len() == 0 || is_boundary(p.last()) || is_block(p)
}

proof fn lemma_blocks_end_well(u: Seq<char>)
    requires
        u.len() > 0,
        forall|j: int| 0 <= j < u.len() - 1 ==> !is_boundary(#[trigger] u[j]),
    ensures
        forall|i: int| 0 <= i < blocks(u).len() - 1 ==> ends_well(#[trigger] blocks(u)[i]),
        is_boundary(u.last()) ==> ends_well(blocks(u).last()),
    decreases u.len(),
{
    if u.len() >= 1800 {
        let first = u.take(1800);
        let rest = u.skip(1800);
        assert(ends_well(first)) by {
            if !is_boundary(first.last()) {
                assert forall|j: int| 0 <= j < first.len() implies !is_boundary(
                    #[trigger] first[j],
                ) by {
                    assert(first[j] == u[j]);
                }
            }
        }
        if rest.len() > 0 {
            assert forall|j: int| 0 <= j < rest.len() - 1 implies !is_boundary(
                #[trigger] rest[j],
            ) by {
                assert(rest[j] == u[j + 1800]);
            }
            assert(rest.last() == u.last());
            lemma_blocks_end_well(rest);
        } else {
            assert(blocks(rest) == seq![rest]);
        }
        assert forall|i: int| 0 <= i < blocks(u).len() - 1 implies ends_well(
            #[trigger] blocks(u)[i],
        ) by {
            if i > 0 {
                assert(blocks(u)[i] == blocks(rest)[i - 1]);
            }
        }
        assert(blocks(u).last() == blocks(rest).last());
    }
}

#[verifier::rlimit(50)]
proof fn lemma_packed_ends_well(us: Seq<Seq<char>>, current: Seq<char>)
    requires
        current.len() > 0 && us.len() > 0 ==> is_boundary(current.last()),
        forall|i: int| 0 <= i < us.len() ==> (#[trigger] us[i]).len() > 0,
        forall|i: int| 0 <= i < us.len() - 1 ==> is_boundary((#[trigger] us[i]).last()),
        forall|i: int, j: int|
            0 <= i < us.len() && 0 <= j < us[i].len() - 1 ==> !is_boundary(#[trigger] us[i][j]),
    ensures
        forall|k: int|
            0 <= k < packed(us, current).len() ==> ends_well(#[trigger] packed(us, current)[k])
                || nothing_from(packed(us, current), k + 1),
    decreases us.len(),
{
    let none = Seq::<char>::empty();
    if us.len() > 0 {
        let unit = us[0];
        let rest = us.skip(1);
        let all = packed(us, current);
        assert(us[0].len() > 0);
        assert forall|i: int| 0 <= i < rest.len() implies (#[trigger] rest[i]).len() > 0 by {
            assert(rest[i] == us[i + 1]);
        }
        assert forall|i: int| 0 <= i < rest.len() - 1 implies is_boundary(
            (#[trigger] rest[i]).last(),
        ) by {
            assert(rest[i] == us[i + 1]);
        }
        assert forall|i: int, j: int|
            0 <= i < rest.len() && 0 <= j < rest[i].len() - 1 implies !is_boundary(
            #[trigger] rest[i][j],
        ) by {
            assert(rest[i] == us[i + 1]);
            assert(!is_boundary(us[i + 1][j]));
        }
        if rest.len() > 0 {
            assert(is_boundary(us[0].last()));
        }
        assert forall|j: int| 0 <= j < unit.len() - 1 implies !is_boundary(
            #[trigger] unit[j],
        ) by {
            assert(!is_boundary(us[0][j]));
        }
        if unit.len() > 1800 {
            let later = packed(rest, none);
            let middle = blocks(unit);
            let n = middle.len() as int;
            lemma_packed_ends_well(rest, none);
            lemma_blocks_end_well(unit);
            law_blocks_are_full(unit);
            assert(all == seq![current] + middle + later);
            assert forall|k: int| 0 <= k < all.len() implies ends_well(#[trigger] all[k])
                || nothing_from(all, k + 1) by {
                if k == 0 {
                    assert(all[0] == current);
                } else if k < n {
                    assert(all[k] == middle[k - 1]);
                } else if k == n {
                    assert(all[k] == middle.last());
                    if rest.len() == 0 {
                        assert(later == seq![none]);
                        assert forall|i: int| k + 1 <= i < all.len() implies (
                        #[trigger] all[i]).len() == 0 by {
                            assert(all[i] == later[i - n - 1]);
                        }
                    }
                } else {
                    let m = k - n - 1;
                    assert(all[k] == later[m]);
                    if nothing_from(later, m + 1) {
                        assert forall|i: int| k + 1 <= i < all.len() implies (
                        #[trigger] all[i]).len() == 0 by {
                            assert(all[i] == later[i - n - 1]);
                        }
                    }
                }
            }
        } else if current.len() > 0 && current.len() + unit.len() > 1800 {
            let later = packed(rest, unit);
            lemma_packed_ends_well(rest, unit);
            assert(all == seq![current] + later);
            assert forall|k: int| 0 <= k < all.len() implies ends_well(#[trigger] all[k])
                || nothing_from(all, k + 1) by {
                if k > 0 {
                    assert(all[k] == later[k - 1]);
                    if nothing_from(later, k) {
                        assert forall|i: int| k + 1 <= i < all.len() implies (
                        #[trigger] all[i]).len() == 0 by {
                            assert(all[i] == later[i - 1]);
                        }
                    }
                }
            }
        } else {
            assert((current + unit).last() == unit.last());
            lemma_packed_ends_well(rest, current + unit);
            assert(all == packed(rest, current + unit));
        }
    }
}

/// Whatever the text: a piece that is not the end of it, and not empty, ends with a mark, or is
/// 1800 characters without any. So a text is cut off its marks only inside of a stretch without a
/// mark that is longer than a request may be.
pub proof fn law_text_is_cut_off_marks_in_long_stretches_alone(text: Seq<char>)
    ensures
        forall|k: int|
            0 <= k < cut(text).len() ==> ends_well(#[trigger] cut(text)[k]) || nothing_from(
                cut(text),
                k + 1,
            ),
{
    let t = trim(text);
    law_units_end_at_marks(t);
    lemma_packed_ends_well(units(t), Seq::empty());
}

/// The contents of a list of strings are those of each of them, in order.
pub proof fn law_texts_are_those_of_each(strings: Seq<String>, i: int)
    requires
        0 <= i < strings.len(),
    ensures
        texts(strings).len() == strings.len(),
        texts(strings)[i] == strings[i]@,
{
}

} // verus!
