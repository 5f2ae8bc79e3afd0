//! Reading, writing and joining WAV files.
//!
//! A WAV file is a RIFF file of the form `WAVE`: a header of twelve bytes, then chunks. A chunk is
//! an identifier of four bytes, the length of its body as a little-endian number of four bytes,
//! and the body, followed by a padding byte where the length is odd.
use crate::text::{decimal, decimal_text};
use vstd::prelude::*;

verus! {

/// One chunk of a RIFF file.
pub struct RiffChunk {
    pub id: Seq<u8>,
    pub body: Seq<u8>,
}

/// The bytes of `RIFF`.
pub open spec fn riff_id() -> Seq<u8> {
    seq!['R' as u8, 'I' as u8, 'F' as u8, 'F' as u8]
}

/// The bytes of `WAVE`.
pub open spec fn wave_id() -> Seq<u8> {
    seq!['W' as u8, 'A' as u8, 'V' as u8, 'E' as u8]
}

/// The identifier of the chunk that holds the audio parameters.
pub open spec fn fmt_id() -> Seq<u8> {
    seq!['f' as u8, 'm' as u8, 't' as u8, ' ' as u8]
}

/// The identifier of the chunk that holds the samples.
pub open spec fn data_id() -> Seq<u8> {
    seq!['d' as u8, 'a' as u8, 't' as u8, 'a' as u8]
}

/// The number that the four bytes at `pos` write, the lowest byte first.
pub open spec fn le_number(b: Seq<u8>, pos: int) -> int {
    b[pos] + 0x100 * b[pos + 1] + 0x1_0000 * b[pos + 2] + 0x100_0000 * b[pos + 3]
}

/// The four bytes that write `n`, the lowest byte first.
pub open spec fn le_bytes(n: int) -> Seq<u8> {
    seq![
        (n % 0x100) as u8,
        (n / 0x100 % 0x100) as u8,
        (n / 0x1_0000 % 0x100) as u8,
        (n / 0x100_0000 % 0x100) as u8,
    ]
}

/// The chunks that stand in `b` from `pos` on, or why they cannot be told apart. Fewer than eight
/// bytes at the end are no chunk, and a padding byte that the end cuts off is not missed.
pub open spec fn riff_chunks(b: Seq<u8>, pos: int) -> Result<Seq<RiffChunk>, Seq<char>>
    decreases b.len() - pos,
{
    if pos < 0 || pos + 8 > b.len() {
        Ok(Seq::empty())
    } else {
        let size = le_number(b, pos + 4);
        let start = pos + 8;
        let end = start + size;
        if end > usize::MAX {
            Err("chunk 大小溢出"@)
        } else if end > b.len() {
            Err("chunk 数据不完整"@)
        } else {
            let next = if size % 2 == 1 && end < b.len() {
                end + 1
            } else {
                end
            };
            match riff_chunks(b, next) {
                Ok(rest) => Ok(
                    seq![RiffChunk { id: b.subrange(pos, pos + 4), body: b.subrange(start, end) }]
                        + rest,
                ),
                Err(e) => Err(e),
            }
        }
    }
}

/// The body of the first chunk with the identifier `id`.
pub open spec fn first_body(chunks: Seq<RiffChunk>, id: Seq<u8>) -> Option<Seq<u8>>
    decreases chunks.len(),
{
    if chunks.len() == 0 {
        None
    } else if chunks[0].id == id {
        Some(chunks[0].body)
    } else {
        first_body(chunks.skip(1), id)
    }
}

/// The audio parameters and the samples of the WAV file `b`, or why it has none.
pub open spec fn wav_parts(b: Seq<u8>) -> Result<(Seq<u8>, Seq<u8>), Seq<char>> {
    if b.len() < 12 {
        Err("文件头过短"@)
    } else if b.subrange(0, 4) != riff_id() || b.subrange(8, 12) != wave_id() {
        Err("不是 RIFF/WAVE 数据"@)
    } else {
        match riff_chunks(b, 12) {
            Err(e) => Err(e),
            Ok(chunks) => match (first_body(chunks, fmt_id()), first_body(chunks, data_id())) {
                (None, _) => Err("缺少 fmt chunk"@),
                (_, None) => Err("缺少 data chunk"@),
                (Some(fmt), Some(data)) => Ok((fmt, data)),
            },
        }
    }
}

/// The audio parameters and the samples of a WAV file.
pub struct WavParts<'a> {
    pub fmt: &'a [u8],
    pub data: &'a [u8],
}

/// Tests whether the four bytes at `pos` are `id`.
fn id_at(bytes: &[u8], pos: usize, id: [u8; 4]) -> (r: bool)
    requires
        pos + 4 <= bytes@.len(),
    ensures
        r == (bytes@.subrange(pos as int, pos + 4) == id@),
{
    assert(bytes.len() == bytes@.len());
    let ghost four = bytes@.subrange(pos as int, pos + 4);
    let r: bool = bytes[pos] == id[0] && bytes[pos + 1] == id[1] && bytes[pos + 2] == id[2]
        && bytes[pos + 3] == id[3];
    assert(r == (four == id@)) by {
        assert(four[0] == bytes@[pos as int]);
        assert(four[1] == bytes@[pos + 1]);
        assert(four[2] == bytes@[pos + 2]);
        assert(four[3] == bytes@[pos + 3]);
        if r {
            assert(four =~= id@);
        }
    }
    r
}

/// The little-endian number at `pos`.
fn number_at(bytes: &[u8], pos: usize) -> (r: u32)
    requires
        pos + 4 <= bytes@.len(),
    ensures
        r == le_number(bytes@, pos as int),
        r == bytes@[pos as int] + 256 * bytes@[pos + 1] + 65536 * bytes@[pos + 2] + 16777216
            * bytes@[pos + 3],
{
    assert(bytes.len() == bytes@.len());
    bytes[pos] as u32 + 0x100 * (bytes[pos + 1] as u32) + 0x1_0000 * (bytes[pos + 2] as u32)
        + 0x100_0000 * (bytes[pos + 3] as u32)
}

/// What was found so far of a chunk that is looked for, completed by what the rest of the file has.
spec fn found_or_in(found: Option<Seq<u8>>, rest: Seq<RiffChunk>, id: Seq<u8>) -> Option<Seq<u8>> {
    match found {
        Some(body) => Some(body),
        None => first_body(rest, id),
    }
}

spec fn seen(found: Option<&[u8]>) -> Option<Seq<u8>> {
    match found {
        Some(body) => Some(body@),
        None => None,
    }
}

/// The result for a file of which the chunks up to `pos` were read.
spec fn parts_from(b: Seq<u8>, pos: int, fmt: Option<Seq<u8>>, data: Option<Seq<u8>>) -> Result<
    (Seq<u8>, Seq<u8>),
    Seq<char>,
> {
    match riff_chunks(b, pos) {
        Err(e) => Err(e),
        Ok(rest) => match (found_or_in(fmt, rest, fmt_id()), found_or_in(data, rest, data_id())) {
            (None, _) => Err("缺少 fmt chunk"@),
            (_, None) => Err("缺少 data chunk"@),
            (Some(fmt), Some(data)) => Ok((fmt, data)),
        },
    }
}

/// Whether a result and its message are the ones of the model.
pub open spec fn parts_agree(
    r: Result<WavParts<'_>, String>,
    model: Result<(Seq<u8>, Seq<u8>), Seq<char>>,
) -> bool {
    match (r, model) {
        (Ok(parts), Ok((fmt, data))) => parts.fmt@ == fmt && parts.data@ == data,
        (Err(message), Err(e)) => message@ == e,
        _ => false,
    }
}

/// Finds the audio parameters and the samples of a WAV file: the bodies of its first `fmt ` chunk
/// and of its first `data` chunk.
pub fn extract_wav_parts(bytes: &[u8]) -> (r: Result<WavParts<'_>, String>)
    ensures
        parts_agree(r, wav_parts(bytes@)),
{
    let total: usize = bytes.len();
    if total < 12 {
        return Err("文件头过短".to_string());
    }
    assert(['R' as u8, 'I' as u8, 'F' as u8, 'F' as u8]@ == riff_id());
    assert(['W' as u8, 'A' as u8, 'V' as u8, 'E' as u8]@ == wave_id());
    if !id_at(bytes, 0, ['R' as u8, 'I' as u8, 'F' as u8, 'F' as u8]) || !id_at(
        bytes,
        8,
        ['W' as u8, 'A' as u8, 'V' as u8, 'E' as u8],
    ) {
        return Err("不是 RIFF/WAVE 数据".to_string());
    }
    let mut fmt: Option<&[u8]> = None;
    let mut data: Option<&[u8]> = None;
    let mut pos: usize = 12;
    while total - pos >= 8
        invariant
            total == bytes@.len(),
            12 <= pos <= total,
            wav_parts(bytes@) == parts_from(bytes@, pos as int, seen(fmt), seen(data)),
        decreases total - pos,
    {
        let size: usize = number_at(bytes, pos + 4) as usize;
        let start: usize = pos + 8;
        let end: usize = match start.checked_add(size) {
            Some(end) => end,
            None => {
                return Err("chunk 大小溢出".to_string());
            },
        };
        if end > total {
            return Err("chunk 数据不完整".to_string());
        }
        let ghost id = bytes@.subrange(pos as int, pos + 4);
        let ghost fmt_before = seen(fmt);
        let ghost data_before = seen(data);
        assert(['f' as u8, 'm' as u8, 't' as u8, ' ' as u8]@ == fmt_id());
        assert(['d' as u8, 'a' as u8, 't' as u8, 'a' as u8]@ == data_id());
        assert(fmt_id()[0] != data_id()[0]);
        let body = vstd::slice::slice_subrange(bytes, start, end);
        if id_at(bytes, pos, ['f' as u8, 'm' as u8, 't' as u8, ' ' as u8]) {
            if fmt.is_none() {
                fmt = Some(body);
            }
        } else if id_at(bytes, pos, ['d' as u8, 'a' as u8, 't' as u8, 'a' as u8]) {
            if data.is_none() {
                data = Some(body);
            }
        }
        let next: usize = if size % 2 == 1 && end < total {
            end + 1
        } else {
            end
        };
        proof {
            match riff_chunks(bytes@, next as int) {
                Ok(rest) => {
                    let chunk = RiffChunk { id, body: body@ };
                    assert((seq![chunk] + rest).skip(1) == rest);
                },
                Err(_) => {},
            }
        }
        pos = next;
    }
    match fmt {
        None => Err("缺少 fmt chunk".to_string()),
        Some(fmt) => match data {
            None => Err("缺少 data chunk".to_string()),
            Some(data) => Ok(WavParts { fmt, data }),
        },
    }
}

/// The padding that follows a body of length `n`.
pub open spec fn padding(n: int) -> Seq<u8> {
    if n % 2 == 1 {
        seq![0u8]
    } else {
        Seq::empty()
    }
}

/// A chunk as it stands in a file.
pub open spec fn chunk_bytes(id: Seq<u8>, body: Seq<u8>) -> Seq<u8> {
    id + le_bytes(body.len() as int) + body + padding(body.len() as int)
}

/// The length of a body with its padding.
pub open spec fn padded_len(n: int) -> int {
    n + n % 2
}

/// What the header of a WAV file with these two bodies says of its length: all that follows the
/// number itself.
pub open spec fn riff_size(fmt: Seq<u8>, data: Seq<u8>) -> int {
    4 + (8 + padded_len(fmt.len() as int)) + (8 + padded_len(data.len() as int))
}

/// The header of a WAV file that states the length `size`.
pub open spec fn wav_header(size: int) -> Seq<u8> {
    riff_id() + le_bytes(size) + wave_id()
}

/// The WAV file with these audio parameters and samples.
pub open spec fn wav_file(fmt: Seq<u8>, data: Seq<u8>) -> Seq<u8> {
    wav_header(riff_size(fmt, data)) + chunk_bytes(fmt_id(), fmt) + chunk_bytes(data_id(), data)
}

/// The WAV file with these audio parameters and samples, or why there is none: the numbers in it
/// have four bytes.
pub open spec fn built_wav(fmt: Seq<u8>, data: Seq<u8>) -> Result<Seq<u8>, Seq<char>> {
    if riff_size(fmt, data) > usize::MAX {
        Err("WAV 大小溢出"@)
    } else if riff_size(fmt, data) > u32::MAX {
        Err("RIFF 大小"@ + " 超出 WAV 4GiB 限制"@)
    } else {
        Ok(wav_file(fmt, data))
    }
}

/// Whether bytes or a message are the ones of the model.
pub open spec fn bytes_agree(
    r: Result<Vec<u8>, String>,
    model: Result<Seq<u8>, Seq<char>>,
) -> bool {
    match (r, model) {
        (Ok(bytes), Ok(b)) => bytes@ == b,
        (Err(message), Err(e)) => message@ == e,
        _ => false,
    }
}

/// Appends a length as a little-endian number of four bytes; `what` names it in the message for a
/// length that needs more.
pub fn push_u32_le(out: &mut Vec<u8>, value: usize, what: &str) -> (r: Result<(), String>)
    ensures
        match r {
            Ok(_) => value <= u32::MAX && final(out)@ == old(out)@ + le_bytes(value as int),
            Err(message) => value > u32::MAX && message@ == what@ + " 超出 WAV 4GiB 限制"@
                && final(out)@ == old(out)@,
        },
        r is Ok ==> {
            let n = old(out)@.len() as int;
            let now = final(out)@;
            &&& now.len() == n + 4
            &&& now.take(n) == old(out)@
            &&& value == now[n] + 256 * now[n + 1] + 65536 * now[n + 2] + 16777216 * now[n + 3]
        },
{
    if value as u64 > 0xffff_ffff {
        let mut message: String = what.to_string();
        message.append(" 超出 WAV 4GiB 限制");
        return Err(message);
    }
    let ghost before = out@;
    out.push((value % 0x100) as u8);
    out.push((value / 0x100 % 0x100) as u8);
    out.push((value / 0x1_0000 % 0x100) as u8);
    out.push((value / 0x100_0000 % 0x100) as u8);
    assert(out@ == before + le_bytes(value as int));
    Ok(())
}

/// Appends the identifier of a chunk.
fn push_id(out: &mut Vec<u8>, id: [u8; 4])
    ensures
        final(out)@ == old(out)@ + id@,
{
    let ghost before = out@;
    out.push(id[0]);
    out.push(id[1]);
    out.push(id[2]);
    out.push(id[3]);
    assert(out@ == before + id@);
}

/// The length of a chunk with this body, where a `usize` can hold it.
fn chunk_len(body: usize) -> (r: Option<usize>)
    ensures
        r matches Some(n) ==> n == 8 + padded_len(body as int),
        r is None ==> 8 + padded_len(body as int) > usize::MAX,
{
    match body.checked_add(body % 2) {
        Some(n) => n.checked_add(8),
        None => None,
    }
}

/// The length that the header states, where a `usize` can hold it.
fn header_size(fmt: &[u8], data: &[u8]) -> (r: Option<usize>)
    ensures
        r matches Some(n) ==> n == riff_size(fmt@, data@),
        r is None ==> riff_size(fmt@, data@) > usize::MAX,
{
    match (chunk_len(fmt.len()), chunk_len(data.len())) {
        (Some(f), Some(d)) => match f.checked_add(4) {
            Some(n) => n.checked_add(d),
            None => None,
        },
        _ => None,
    }
}

/// Appends a body and its padding.
fn push_body(out: &mut Vec<u8>, body: &[u8])
    ensures
        final(out)@ == old(out)@ + body@ + padding(body@.len() as int),
{
    let ghost before = out@;
    out.extend_from_slice(body);
    assert(out@ == before + body@);
    if body.len() % 2 == 1 {
        out.push(0);
        assert(out@ == before + body@ + padding(body@.len() as int));
    } else {
        assert(out@ == before + body@ + padding(body@.len() as int));
    }
}

/// Writes a WAV file with these audio parameters and samples.
pub fn build_wav(fmt: &[u8], data: &[u8]) -> (r: Result<Vec<u8>, String>)
    ensures
        bytes_agree(r, built_wav(fmt@, data@)),
{
    let riff: usize = match header_size(fmt, data) {
        Some(n) => n,
        None => {
            return Err("WAV 大小溢出".to_string());
        },
    };
    let mut out: Vec<u8> = Vec::new();
    push_id(&mut out, ['R' as u8, 'I' as u8, 'F' as u8, 'F' as u8]);
    match push_u32_le(&mut out, riff, "RIFF 大小") {
        Ok(_) => {},
        Err(message) => {
            return Err(message);
        },
    }
    push_id(&mut out, ['W' as u8, 'A' as u8, 'V' as u8, 'E' as u8]);
    assert(out@ == wav_header(riff as int));

    push_id(&mut out, ['f' as u8, 'm' as u8, 't' as u8, ' ' as u8]);
    match push_u32_le(&mut out, fmt.len(), "fmt chunk 大小") {
        Ok(_) => {},
        Err(message) => {
            return Err(message);
        },
    }
    push_body(&mut out, fmt);
    assert(out@ == wav_header(riff as int) + chunk_bytes(fmt_id(), fmt@));

    push_id(&mut out, ['d' as u8, 'a' as u8, 't' as u8, 'a' as u8]);
    match push_u32_le(&mut out, data.len(), "data chunk 大小") {
        Ok(_) => {},
        Err(message) => {
            return Err(message);
        },
    }
    push_body(&mut out, data);
    assert(out@ == wav_file(fmt@, data@));
    Ok(out)
}

proof fn lemma_le_round_trip(n: int)
    requires
        0 <= n <= u32::MAX,
    ensures
        le_number(le_bytes(n), 0) == n,
{
}

/// The length that a WAV file states in its header is that of all that follows the number.
pub proof fn law_header_states_length(fmt: Seq<u8>, data: Seq<u8>)
    ensures
        wav_file(fmt, data).len() == 8 + riff_size(fmt, data),
{
}

/// A chunk that stands at `before.len()` is read there.
proof fn lemma_chunk_is_read(before: Seq<u8>, id: Seq<u8>, body: Seq<u8>, after: Seq<u8>)
    requires
        id.len() == 4,
        body.len() <= u32::MAX,
        before.len() + chunk_bytes(id, body).len() + after.len() <= usize::MAX,
        riff_chunks(
            before + chunk_bytes(id, body) + after,
            before.len() + 8 + padded_len(body.len() as int),
        ) is Ok,
    ensures
        riff_chunks(before + chunk_bytes(id, body) + after, before.len() as int) == Ok::<
            _,
            Seq<char>,
        >(
            seq![RiffChunk { id, body }] + riff_chunks(
                before + chunk_bytes(id, body) + after,
                before.len() + 8 + padded_len(body.len() as int),
            )->Ok_0,
        ),
{
    let b = before + chunk_bytes(id, body) + after;
    let pos = before.len() as int;
    let n = body.len() as int;
    let head = le_bytes(n);
    lemma_le_round_trip(n);
    assert(b[pos + 4] == head[0]);
    assert(b[pos + 5] == head[1]);
    assert(b[pos + 6] == head[2]);
    assert(b[pos + 7] == head[3]);
    assert(le_number(b, pos + 4) == n);
    assert(b.subrange(pos, pos + 4) =~= id);
    assert(b.subrange(pos + 8, pos + 8 + n) =~= body);
    assert(b.len() == pos + 8 + padded_len(n) + after.len());
}

/// The two chunks that follow a header of twelve bytes are read.
proof fn lemma_two_chunks_are_read(head: Seq<u8>, fmt: Seq<u8>, data: Seq<u8>)
    requires
        head.len() == 12,
        riff_size(fmt, data) + 8 <= usize::MAX,
        riff_size(fmt, data) <= u32::MAX,
    ensures
        riff_chunks(head + chunk_bytes(fmt_id(), fmt) + chunk_bytes(data_id(), data), 12) == Ok::<
            _,
            Seq<char>,
        >(seq![RiffChunk { id: fmt_id(), body: fmt }, RiffChunk { id: data_id(), body: data }]),
{
    let fmt_chunk = chunk_bytes(fmt_id(), fmt);
    let data_chunk = chunk_bytes(data_id(), data);
    let none = Seq::<u8>::empty();
    let first_chunk = RiffChunk { id: fmt_id(), body: fmt };
    let last_chunk = RiffChunk { id: data_id(), body: data };
    assert(fmt_chunk.len() == 8 + padded_len(fmt.len() as int));
    assert(data_chunk.len() == 8 + padded_len(data.len() as int));
    let b = head + fmt_chunk + data_chunk;
    assert(b + none == b);
    assert(riff_chunks(b, b.len() as int) == Ok::<_, Seq<char>>(Seq::<RiffChunk>::empty()));
    lemma_chunk_is_read(head + fmt_chunk, data_id(), data, none);
    lemma_chunk_is_read(head, fmt_id(), fmt, data_chunk);
    assert(seq![first_chunk] + (seq![last_chunk] + Seq::<RiffChunk>::empty()) == seq![
        first_chunk,
        last_chunk,
    ]);
}

/// A header is told from other bytes, whatever follows it.
proof fn lemma_header_is_read(size: int, more: Seq<u8>, rest: Seq<u8>)
    ensures
        wav_header(size).len() == 12,
        (wav_header(size) + more + rest).subrange(0, 4) == riff_id(),
        (wav_header(size) + more + rest).subrange(8, 12) == wave_id(),
{
    let head = wav_header(size);
    assert(head.subrange(0, 4) == riff_id());
    assert(head.subrange(8, 12) == wave_id());
    assert((head + more + rest).subrange(0, 4) == head.subrange(0, 4));
    assert((head + more + rest).subrange(8, 12) == head.subrange(8, 12));
}

/// A file that holds one chunk of each kind has their bodies as its parts.
proof fn lemma_parts_of_two_chunks(b: Seq<u8>, fmt: Seq<u8>, data: Seq<u8>)
    requires
        b.len() >= 12,
        b.subrange(0, 4) == riff_id(),
        b.subrange(8, 12) == wave_id(),
        riff_chunks(b, 12) == Ok::<_, Seq<char>>(
            seq![RiffChunk { id: fmt_id(), body: fmt }, RiffChunk { id: data_id(), body: data }],
        ),
    ensures
        wav_parts(b) == Ok::<_, Seq<char>>((fmt, data)),
{
    let chunks = seq![
        RiffChunk { id: fmt_id(), body: fmt },
        RiffChunk { id: data_id(), body: data },
    ];
    assert(first_body(chunks, fmt_id()) == Some(fmt));
    assert(first_body(chunks, data_id()) == Some(data)) by {
        reveal_with_fuel(first_body, 2);
        assert(fmt_id()[0] != data_id()[0]);
    }
}

/// What is read from a written WAV file is what was written: the audio parameters and the samples,
/// byte for byte. (A file that memory can hold has a length that a `usize` can hold.)
pub proof fn law_read_gives_back_what_was_written(fmt: Seq<u8>, data: Seq<u8>)
    requires
        built_wav(fmt, data) is Ok,
        built_wav(fmt, data)->Ok_0.len() <= usize::MAX,
    ensures
        wav_parts(built_wav(fmt, data)->Ok_0) == Ok::<_, Seq<char>>((fmt, data)),
{
    let head = wav_header(riff_size(fmt, data));
    law_header_states_length(fmt, data);
    lemma_header_is_read(
        riff_size(fmt, data),
        chunk_bytes(fmt_id(), fmt),
        chunk_bytes(data_id(), data),
    );
    lemma_two_chunks_are_read(head, fmt, data);
    lemma_parts_of_two_chunks(wav_file(fmt, data), fmt, data);
}

/// The contents of a list of buffers.
pub open spec fn contents(buffers: Seq<Vec<u8>>) -> Seq<Seq<u8>> {
    Seq::new(buffers.len(), |i: int| buffers[i]@)
}

/// The common audio parameters of WAV files (none, where there is no file) and their samples one
/// after the other; or what is wrong with the first file that cannot be joined to those before it.
pub open spec fn gathered(files: Seq<Seq<u8>>) -> Result<(Option<Seq<u8>>, Seq<u8>), Seq<char>>
    decreases files.len(),
{
    if files.len() == 0 {
        Ok((None, Seq::empty()))
    } else {
        let number = decimal(files.len());
        match gathered(files.drop_last()) {
            Err(e) => Err(e),
            Ok((fmt, data)) => match wav_parts(files.last()) {
                Err(e) => Err("第 "@ + number + " 段 WAV 无效："@ + e),
                Ok((last_fmt, last_data)) => if fmt is Some && fmt != Some(last_fmt) {
                    Err("第 "@ + number + " 段 WAV 参数与前文不一致"@)
                } else {
                    Ok((Some(last_fmt), data + last_data))
                },
            },
        }
    }
}

/// The WAV file that holds the samples of all the given WAV files, or why they cannot be joined.
pub open spec fn joined_wav(files: Seq<Seq<u8>>) -> Result<Seq<u8>, Seq<char>> {
    match gathered(files) {
        Err(e) => Err(e),
        Ok((None, _)) => Err("没有可拼接的 WAV 数据"@),
        Ok((Some(fmt), data)) => built_wav(fmt, data),
    }
}

/// Compares bytes.
pub fn same_bytes(a: &[u8], b: &[u8]) -> (r: bool)
    ensures
        r == (a@ == b@),
{
    if a.len() != b.len() {
        return false;
    }
    let mut i: usize = 0;
    while i < a.len()
        invariant
            i <= a@.len(),
            a@.len() == b@.len(),
            forall|j: int| 0 <= j < i ==> a@[j] == b@[j],
        decreases a@.len() - i,
    {
        if a[i] != b[i] {
            return false;
        }
        i += 1;
    }
    assert(a@ == b@);
    true
}

/// The message for a file that cannot be joined: the file's number, between two texts.
fn numbered_message(number: usize, after: &str, detail: &str) -> (r: String)
    ensures
        r@ == "第 "@ + decimal(number as nat) + after@ + detail@,
{
    let mut message: String = "第 ".to_string();
    let digits: String = decimal_text(number as u64);
    message.append(digits.as_str());
    message.append(after);
    message.append(detail);
    message
}

proof fn lemma_gathered_error_stays(files: Seq<Seq<u8>>, k: int)
    requires
        0 <= k <= files.len(),
        gathered(files.take(k)) is Err,
    ensures
        gathered(files) == gathered(files.take(k)),
    decreases files.len(),
{
    if k == files.len() {
        assert(files.take(k) == files);
    } else {
        assert(files.drop_last().take(k) == files.take(k));
        lemma_gathered_error_stays(files.drop_last(), k);
    }
}

/// Joins WAV files with the same audio parameters into one file with one header.
pub fn concatenate_wav_chunks(chunks: Vec<Vec<u8>>) -> (r: Result<Vec<u8>, String>)
    ensures
        bytes_agree(r, joined_wav(contents(chunks@))),
{
    let ghost files = contents(chunks@);
    let mut fmt: Option<Vec<u8>> = None;
    let mut data: Vec<u8> = Vec::new();
    let mut idx: usize = 0;
    assert(files.take(0) == Seq::<Seq<u8>>::empty());
    while idx < chunks.len()
        invariant
            files == contents(chunks@),
            idx <= chunks@.len(),
            gathered(files.take(idx as int)) == Ok::<_, Seq<char>>(
                (
                    match fmt {
                        Some(f) => Some(f@),
                        None => None,
                    },
                    data@,
                ),
            ),
        decreases chunks@.len() - idx,
    {
        let ghost so_far = files.take(idx + 1);
        assert(so_far.drop_last() == files.take(idx as int));
        assert(so_far.last() == chunks@[idx as int]@);
        let number: usize = idx + 1;
        match extract_wav_parts(chunks[idx].as_slice()) {
            Err(e) => {
                proof {
                    lemma_gathered_error_stays(files, idx + 1);
                }
                return Err(numbered_message(number, " 段 WAV 无效：", e.as_str()));
            },
            Ok(parts) => {
                let first: bool = match &fmt {
                    None => true,
                    Some(existing) => {
                        if !same_bytes(existing.as_slice(), parts.fmt) {
                            proof {
                                lemma_gathered_error_stays(files, idx + 1);
                                reveal_strlit("");
                                let text = "第 "@ + decimal(number as nat)
                                    + " 段 WAV 参数与前文不一致"@;
                                assert(text + ""@ == text);
                            }
                            return Err(numbered_message(number, " 段 WAV 参数与前文不一致", ""));
                        }
                        false
                    },
                };
                if first {
                    fmt = Some(vstd::slice::slice_to_vec(parts.fmt));
                }
                let ghost before = data@;
                data.extend_from_slice(parts.data);
                assert(data@ == before + parts.data@);
            },
        }
        idx += 1;
    }
    assert(files.take(chunks@.len() as int) == files);
    match fmt {
        None => Err("没有可拼接的 WAV 数据".to_string()),
        Some(fmt) => build_wav(fmt.as_slice(), data.as_slice()),
    }
}

/// The samples of WAV files, one after the other.
pub open spec fn all_samples(files: Seq<Seq<u8>>) -> Seq<u8>
    decreases files.len(),
{
    if files.len() == 0 {
        Seq::empty()
    } else {
        all_samples(files.drop_last()) + wav_parts(files.last())->Ok_0.1
    }
}

/// Whether the given bytes are WAV files with the audio parameters `fmt`.
pub open spec fn all_have_format(files: Seq<Seq<u8>>, fmt: Seq<u8>) -> bool {
    forall|i: int|
        0 <= i < files.len() ==> (#[trigger] wav_parts(files[i]) matches Ok(parts) && parts.0
            == fmt)
}

/// Files with the same audio parameters are gathered with nothing wrong.
pub proof fn lemma_gathered_when_formats_agree(files: Seq<Seq<u8>>, fmt: Seq<u8>)
    requires
        files.len() > 0,
        all_have_format(files, fmt),
    ensures
        gathered(files) == Ok::<_, Seq<char>>((Some(fmt), all_samples(files))),
    decreases files.len(),
{
    let before = files.drop_last();
    assert(wav_parts(files[files.len() - 1]) is Ok);
    if before.len() > 0 {
        assert forall|i: int| 0 <= i < before.len() implies (#[trigger] wav_parts(
            before[i],
        ) matches Ok(parts) && parts.0 == fmt) by {
            assert(before[i] == files[i]);
        }
        lemma_gathered_when_formats_agree(before, fmt);
    } else {
        assert(gathered(before) == Ok::<_, Seq<char>>((None::<Seq<u8>>, Seq::<u8>::empty())));
        assert(all_samples(before) == Seq::<u8>::empty());
    }
}

proof fn lemma_gathered_formats_agree(files: Seq<Seq<u8>>)
    requires
        files.len() > 0,
        gathered(files) is Ok,
    ensures
        gathered(files)->Ok_0.0 is Some,
        all_have_format(files, gathered(files)->Ok_0.0->Some_0),
    decreases files.len(),
{
    let before = files.drop_last();
    let fmt = gathered(files)->Ok_0.0->Some_0;
    if before.len() > 0 {
        lemma_gathered_formats_agree(before);
        assert(gathered(before)->Ok_0.0 == Some(fmt));
    }
    assert forall|i: int| 0 <= i < files.len() implies (#[trigger] wav_parts(
        files[i],
    ) matches Ok(parts) && parts.0 == fmt) by {
        if i < before.len() {
            assert(files[i] == before[i]);
            assert(wav_parts(before[i]) is Ok);
        }
    }
}

/// WAV files can be joined exactly where there is at least one, all are readable, they have the
/// same audio parameters, and the numbers of a WAV file can state the length of the whole.
pub proof fn law_wav_files_join_when_formats_agree(files: Seq<Seq<u8>>)
    ensures
        joined_wav(files) is Ok <==> files.len() > 0 && wav_parts(files[0]) is Ok
            && all_have_format(files, wav_parts(files[0])->Ok_0.0) && riff_size(
            wav_parts(files[0])->Ok_0.0,
            all_samples(files),
        ) <= (if usize::MAX < u32::MAX {
            usize::MAX as int
        } else {
            u32::MAX as int
        }),
{
    if files.len() > 0 {
        if gathered(files) is Ok {
            lemma_gathered_formats_agree(files);
            assert(wav_parts(files[0]) is Ok);
            lemma_gathered_when_formats_agree(files, wav_parts(files[0])->Ok_0.0);
        } else if wav_parts(files[0]) is Ok && all_have_format(
            files,
            wav_parts(files[0])->Ok_0.0,
        ) {
            lemma_gathered_when_formats_agree(files, wav_parts(files[0])->Ok_0.0);
        }
    }
}

/// What is read from joined WAV files is the audio parameters of the first and the samples of all,
/// in order and with nothing lost.
pub proof fn law_joined_wav_holds_all_samples(files: Seq<Seq<u8>>)
    requires
        joined_wav(files) is Ok,
        joined_wav(files)->Ok_0.len() <= usize::MAX,
    ensures
        files.len() > 0,
        wav_parts(joined_wav(files)->Ok_0) == Ok::<_, Seq<char>>(
            (wav_parts(files[0])->Ok_0.0, all_samples(files)),
        ),
{
    law_wav_files_join_when_formats_agree(files);
    let fmt = wav_parts(files[0])->Ok_0.0;
    lemma_gathered_when_formats_agree(files, fmt);
    law_read_gives_back_what_was_written(fmt, all_samples(files));
}

/// A number is written and read as four bytes, the lowest first: each byte counts 256 times as much
/// as the one before it.
pub proof fn law_numbers_are_little_endian(n: int, b: Seq<u8>, pos: int)
    requires
        0 <= n <= 0xffff_ffff,
    ensures
        le_bytes(n).len() == 4,
        n == le_bytes(n)[0] + 256 * le_bytes(n)[1] + 65536 * le_bytes(n)[2] + 16777216
            * le_bytes(n)[3],
        le_number(b, pos) == b[pos] + 256 * b[pos + 1] + 65536 * b[pos + 2] + 16777216 * b[pos + 3],
{
}

/// The number that stands at `pos`, as four bytes with the lowest first.
pub open spec fn number_in(b: Seq<u8>, pos: int) -> int {
    b[pos] + 256 * b[pos + 1] + 65536 * b[pos + 2] + 16777216 * b[pos + 3]
}

/// A WAV file is built where its length can be stated in four bytes, and it is built byte by byte:
/// `RIFF`, the length of what follows, `WAVE`; then `fmt `, the length of the audio parameters, the
/// audio parameters; then `data`, the length of the samples, the samples. A zero stands behind what
/// has an odd length, and nothing else stands in it. Where the length cannot be stated, the message
/// says what cannot hold it.
#[verifier::spinoff_prover]
#[verifier::rlimit(60)]
pub proof fn law_wav_file_is_laid_out(fmt: Seq<u8>, data: Seq<u8>)
    ensures
        ({
            let n = fmt.len() as int;
            let d = data.len() as int;
            let size = 20 + n + n % 2 + d + d % 2;
            let r = built_wav(fmt, data);
            let f = r->Ok_0;
            let p = 20 + n + n % 2;
            &&& r is Ok <==> size <= 0xffff_ffff && size <= usize::MAX
            &&& size > usize::MAX ==> r == Err::<Seq<u8>, _>("WAV 大小溢出"@)
            &&& 0xffff_ffff < size <= usize::MAX ==> r == Err::<Seq<u8>, _>(
                "RIFF 大小"@ + " 超出 WAV 4GiB 限制"@,
            )
            &&& r is Ok ==> {
                &&& f.len() == 8 + size
                &&& f.subrange(0, 4) == seq![82u8, 73u8, 70u8, 70u8]
                &&& number_in(f, 4) == size
                &&& f.subrange(8, 12) == seq![87u8, 65u8, 86u8, 69u8]
                &&& f.subrange(12, 16) == seq![102u8, 109u8, 116u8, 32u8]
                &&& number_in(f, 16) == n
                &&& f.subrange(20, 20 + n) == fmt
                &&& n % 2 == 1 ==> f[20 + n] == 0
                &&& f.subrange(p, p + 4) == seq![100u8, 97u8, 116u8, 97u8]
                &&& number_in(f, p + 4) == d
                &&& f.subrange(p + 8, p + 8 + d) == data
                &&& d % 2 == 1 ==> f[p + 8 + d] == 0
            }
        }),
{
    let n = fmt.len() as int;
    let d = data.len() as int;
    let size = 20 + n + n % 2 + d + d % 2;
    let p = 20 + n + n % 2;
    assert(riff_size(fmt, data) == size);
    if built_wav(fmt, data) is Ok {
        let f = wav_file(fmt, data);
        let none = Seq::<u8>::empty();
        let head = wav_header(size);
        let first = chunk_bytes(fmt_id(), fmt);
        let second = chunk_bytes(data_id(), data);
        lemma_header_bytes(size);
        lemma_chunk_layout(fmt_id(), fmt);
        lemma_chunk_layout(data_id(), data);
        assert(f == none + head + (first + second));
        assert(f == head + first + second);
        assert(f == (head + first) + second + none);
        lemma_part_stands_in(none, head, first + second, 0, 4);
        lemma_part_stands_in(none, head, first + second, 8, 12);
        lemma_number_stands_in(none, head, first + second, 4);
        lemma_part_stands_in(head, first, second, 0, 4);
        lemma_part_stands_in(head, first, second, 8, 8 + n);
        lemma_number_stands_in(head, first, second, 4);
        lemma_part_stands_in(head + first, second, none, 0, 4);
        lemma_part_stands_in(head + first, second, none, 8, 8 + d);
        lemma_number_stands_in(head + first, second, none, 4);
        if n % 2 == 1 {
            assert(f[20 + n] == first[8 + n]);
        }
        if d % 2 == 1 {
            assert(f[p + 8 + d] == second[8 + d]);
        }
    }
}

proof fn lemma_part_stands_in(a: Seq<u8>, b: Seq<u8>, c: Seq<u8>, lo: int, hi: int)
    requires
        0 <= lo <= hi <= b.len(),
    ensures
        (a + b + c).subrange(a.len() + lo, a.len() + hi) == b.subrange(lo, hi),
{
}

proof fn lemma_number_stands_in(a: Seq<u8>, b: Seq<u8>, c: Seq<u8>, pos: int)
    requires
        0 <= pos,
        pos + 4 <= b.len(),
    ensures
        number_in(a + b + c, a.len() + pos) == number_in(b, pos),
{
    let s = a + b + c;
    let k = a.len() + pos;
    assert(s[k] == b[pos] && s[k + 1] == b[pos + 1] && s[k + 2] == b[pos + 2] && s[k + 3] == b[pos
        + 3]);
}

proof fn lemma_header_bytes(size: int)
    requires
        0 <= size <= 0xffff_ffff,
    ensures
        wav_header(size).len() == 12,
        wav_header(size).subrange(0, 4) == seq![82u8, 73u8, 70u8, 70u8],
        wav_header(size).subrange(8, 12) == seq![87u8, 65u8, 86u8, 69u8],
        number_in(wav_header(size), 4) == size,
{
    let head = wav_header(size);
    assert(head.subrange(0, 4) =~= riff_id());
    assert(head.subrange(8, 12) =~= wave_id());
    assert(head[4] == le_bytes(size)[0] && head[5] == le_bytes(size)[1] && head[6] == le_bytes(
        size,
    )[2] && head[7] == le_bytes(size)[3]);
    law_numbers_are_little_endian(size, head, 4);
}

#[verifier::rlimit(50)]
proof fn lemma_chunk_layout(id: Seq<u8>, body: Seq<u8>)
    requires
        id.len() == 4,
        body.len() <= 0xffff_ffff,
    ensures
        ({
            let c = chunk_bytes(id, body);
            let n = body.len() as int;
            &&& c.len() == 8 + n + n % 2
            &&& c.subrange(0, 4) == id
            &&& number_in(c, 4) == n
            &&& c.subrange(8, 8 + n) == body
            &&& n % 2 == 1 ==> c[8 + n] == 0
        }),
{
    let c = chunk_bytes(id, body);
    let n = body.len() as int;
    assert(c.subrange(0, 4) =~= id);
    assert(c.subrange(8, 8 + n) =~= body);
    let head = le_bytes(n);
    assert(c[4] == head[0] && c[5] == head[1] && c[6] == head[2] && c[7] == head[3]);
    law_numbers_are_little_endian(n, c, 4);
}

/// Whether `b` begins as a WAV file does: `RIFF`, any four bytes, `WAVE`.
pub open spec fn begins_as_wav(b: Seq<u8>) -> bool {
    b.len() >= 12 && b.subrange(0, 4) == seq![82u8, 73u8, 70u8, 70u8] && b.subrange(8, 12) == seq![
        87u8,
        65u8,
        86u8,
        69u8,
    ]
}

/// Whether chunks stand at the given places, one behind the other, from the twelfth byte on: each
/// has four bytes that name it, its length, and so many bytes, behind which a single byte is passed
/// over where the length is odd and the file goes on. The last of the places is where the next
/// chunk would stand.
pub open spec fn chunks_stand_at(b: Seq<u8>, places: Seq<int>) -> bool {
    &&& places.len() > 0
    &&& places[0] == 12
    &&& forall|k: int|
        0 <= k < places.len() - 1 ==> {
            let p = #[trigger] places[k];
            let end = p + 8 + number_in(b, p + 4);
            p + 8 <= b.len() && end <= b.len() && places[k + 1] == if number_in(b, p + 4) % 2 == 1
                && end < b.len() {
                end + 1
            } else {
                end
            }
        }
}

/// Whether the chunk at the place `k` is the first with the name `id`.
pub open spec fn is_first_named(b: Seq<u8>, places: Seq<int>, k: int, id: Seq<u8>) -> bool {
    &&& 0 <= k < places.len() - 1
    &&& b.subrange(places[k], places[k] + 4) == id
    &&& forall|j: int|
        0 <= j < k ==> #[trigger] b.subrange(places[j], places[j] + 4) != id
}

/// Whether no chunk has the name `id`.
pub open spec fn none_named(b: Seq<u8>, places: Seq<int>, id: Seq<u8>) -> bool {
    forall|j: int|
        0 <= j < places.len() - 1 ==> #[trigger] b.subrange(places[j], places[j] + 4) != id
}

/// The body of the chunk at the place `p`.
pub open spec fn body_at(b: Seq<u8>, p: int) -> Seq<u8> {
    b.subrange(p + 8, p + 8 + number_in(b, p + 4))
}

spec fn chunk_at(b: Seq<u8>, p: int) -> RiffChunk {
    RiffChunk { id: b.subrange(p, p + 4), body: body_at(b, p) }
}

#[verifier::rlimit(50)]
proof fn lemma_chunks_from(b: Seq<u8>, places: Seq<int>, k: int)
    requires
        b.len() <= usize::MAX,
        chunks_stand_at(b, places),
        0 <= k < places.len(),
    ensures
        places[k] >= 12,
        places.last() + 8 > b.len() ==> riff_chunks(b, places[k]) == Ok::<_, Seq<char>>(
            Seq::new((places.len() - 1 - k) as nat, |j: int| chunk_at(b, places[k + j])),
        ),
        riff_chunks(b, places.last()) is Err ==> riff_chunks(b, places[k]) == riff_chunks(
            b,
            places.last(),
        ),
    decreases places.len() - k,
{
    lemma_places_are_behind(b, places, k);
    if k < places.len() - 1 {
        lemma_chunks_from(b, places, k + 1);
        let p = places[k];
        let rest = Seq::new(
            (places.len() - 1 - (k + 1)) as nat,
            |j: int| chunk_at(b, places[k + 1 + j]),
        );
        let all = Seq::new((places.len() - 1 - k) as nat, |j: int| chunk_at(b, places[k + j]));
        assert(le_number(b, p + 4) == number_in(b, p + 4));
        assert(all == seq![chunk_at(b, p)] + rest);
    } else {
        assert(Seq::new(0nat, |j: int| chunk_at(b, places[k + j])) == Seq::<RiffChunk>::empty());
    }
}

proof fn lemma_places_are_behind(b: Seq<u8>, places: Seq<int>, k: int)
    requires
        chunks_stand_at(b, places),
        0 <= k < places.len(),
    ensures
        places[k] >= 12,
    decreases k,
{
    if k > 0 {
        lemma_places_are_behind(b, places, k - 1);
        assert(places[k - 1 + 1] == places[k]);
    }
}

proof fn lemma_first_body_at(chunks: Seq<RiffChunk>, id: Seq<u8>, k: int)
    requires
        0 <= k <= chunks.len(),
        forall|j: int| 0 <= j < k ==> (#[trigger] chunks[j]).id != id,
        k < chunks.len() ==> chunks[k].id == id,
    ensures
        first_body(chunks, id) == (if k < chunks.len() {
            Some(chunks[k].body)
        } else {
            None
        }),
    decreases k,
{
    if k > 0 {
        let rest = chunks.skip(1);
        assert(chunks[0].id != id);
        assert forall|j: int| 0 <= j < k - 1 implies (#[trigger] rest[j]).id != id by {
            assert(rest[j] == chunks[j + 1]);
        }
        lemma_first_body_at(rest, id, k - 1);
    }
}

proof fn lemma_body_of_first(b: Seq<u8>, places: Seq<int>, id: Seq<u8>, k: int)
    requires
        chunks_stand_at(b, places),
        is_first_named(b, places, k, id) || (k == places.len() - 1 && none_named(b, places, id)),
    ensures
        first_body(
            Seq::new((places.len() - 1) as nat, |j: int| chunk_at(b, places[j])),
            id,
        ) == (if k < places.len() - 1 {
            Some(body_at(b, places[k]))
        } else {
            None
        }),
{
    let chunks = Seq::new((places.len() - 1) as nat, |j: int| chunk_at(b, places[j]));
    assert forall|j: int| 0 <= j < k implies (#[trigger] chunks[j]).id != id by {
        assert(b.subrange(places[j], places[j] + 4) != id);
    }
    lemma_first_body_at(chunks, id, k);
}

proof fn lemma_ids()
    ensures
        riff_id() == seq![82u8, 73u8, 70u8, 70u8],
        wave_id() == seq![87u8, 65u8, 86u8, 69u8],
        fmt_id() == seq![102u8, 109u8, 116u8, 32u8],
        data_id() == seq![100u8, 97u8, 116u8, 97u8],
{
}

/// The parts of a WAV file are the bodies of its first `fmt ` chunk and of its first `data` chunk,
/// wherever they stand among its chunks.
#[verifier::rlimit(50)]
pub proof fn law_parts_are_the_first_chunks(b: Seq<u8>, places: Seq<int>, f: int, d: int)
    requires
        b.len() <= usize::MAX,
        begins_as_wav(b),
        chunks_stand_at(b, places),
        places.last() + 8 > b.len(),
        is_first_named(b, places, f, seq![102u8, 109u8, 116u8, 32u8]),
        is_first_named(b, places, d, seq![100u8, 97u8, 116u8, 97u8]),
    ensures
        wav_parts(b) == Ok::<_, Seq<char>>((body_at(b, places[f]), body_at(b, places[d]))),
{
    lemma_ids();
    lemma_chunks_from(b, places, 0);
    lemma_body_of_first(b, places, fmt_id(), f);
    lemma_body_of_first(b, places, data_id(), d);
    let chunks = Seq::new((places.len() - 1) as nat, |j: int| chunk_at(b, places[j]));
    assert(Seq::new((places.len() - 1 - 0) as nat, |j: int| chunk_at(b, places[0 + j])) == chunks);
}

/// A file has no parts where it is too short, or does not begin as a WAV file, or lacks a chunk of
/// the two, or ends within a chunk; and each has its message.
#[verifier::rlimit(50)]
pub proof fn law_files_without_parts(b: Seq<u8>, places: Seq<int>)
    requires
        b.len() <= usize::MAX,
    ensures
        b.len() < 12 ==> wav_parts(b) == Err::<(Seq<u8>, Seq<u8>), _>("文件头过短"@),
        b.len() >= 12 && !begins_as_wav(b) ==> wav_parts(b) == Err::<(Seq<u8>, Seq<u8>), _>(
            "不是 RIFF/WAVE 数据"@,
        ),
        begins_as_wav(b) && chunks_stand_at(b, places) && places.last() + 8 > b.len() && none_named(
            b,
            places,
            seq![102u8, 109u8, 116u8, 32u8],
        ) ==> wav_parts(b) == Err::<(Seq<u8>, Seq<u8>), _>("缺少 fmt chunk"@),
        begins_as_wav(b) && chunks_stand_at(b, places) && places.last() + 8 > b.len() && none_named(
            b,
            places,
            seq![100u8, 97u8, 116u8, 97u8],
        ) && !none_named(b, places, seq![102u8, 109u8, 116u8, 32u8]) ==> wav_parts(b) == Err::<
            (Seq<u8>, Seq<u8>),
            _,
        >("缺少 data chunk"@),
        begins_as_wav(b) && chunks_stand_at(b, places) && places.last() + 8 <= b.len()
            < places.last() + 8 + number_in(b, places.last() + 4) <= usize::MAX ==> wav_parts(b)
            == Err::<(Seq<u8>, Seq<u8>), _>("chunk 数据不完整"@),
{
    lemma_ids();
    if begins_as_wav(b) && chunks_stand_at(b, places) {
        let n = places.len() - 1;
        lemma_chunks_from(b, places, 0);
        lemma_places_are_behind(b, places, n);
        let chunks = Seq::new(n as nat, |j: int| chunk_at(b, places[j]));
        assert(Seq::new((places.len() - 1 - 0) as nat, |j: int| chunk_at(b, places[0 + j]))
            == chunks);
        assert(le_number(b, places.last() + 4) == number_in(b, places.last() + 4));
        if places.last() + 8 > b.len() {
            if none_named(b, places, fmt_id()) {
                lemma_body_of_first(b, places, fmt_id(), n);
            } else {
                let k = lemma_first_is_somewhere(b, places, fmt_id());
                lemma_body_of_first(b, places, fmt_id(), k);
                if none_named(b, places, data_id()) {
                    lemma_body_of_first(b, places, data_id(), n);
                }
            }
        }
    }
}

proof fn lemma_first_is_somewhere(b: Seq<u8>, places: Seq<int>, id: Seq<u8>) -> (k: int)
    requires
        places.len() > 0,
        !none_named(b, places, id),
    ensures
        is_first_named(b, places, k, id),
{
    let j = choose|j: int|
        0 <= j < places.len() - 1 && #[trigger] b.subrange(places[j], places[j] + 4) == id;
    lemma_first_up_to(b, places, id, j)
}

proof fn lemma_first_up_to(b: Seq<u8>, places: Seq<int>, id: Seq<u8>, j: int) -> (k: int)
    requires
        0 <= j < places.len() - 1,
        b.subrange(places[j], places[j] + 4) == id,
    ensures
        is_first_named(b, places, k, id),
    decreases j,
{
    if exists|i: int| 0 <= i < j && #[trigger] b.subrange(places[i], places[i] + 4) == id {
        let i = choose|i: int| 0 <= i < j && #[trigger] b.subrange(places[i], places[i] + 4) == id;
        lemma_first_up_to(b, places, id, i)
    } else {
        j
    }
}

/// The samples of WAV files are those of each of them, one after the other.
pub proof fn law_all_samples_are_those_of_each(files: Seq<Seq<u8>>)
    ensures
        all_samples(files) == Seq::new(files.len(), |i: int| wav_parts(files[i])->Ok_0.1).flatten(),
    decreases files.len(),
{
    let samples = Seq::new(files.len(), |i: int| wav_parts(files[i])->Ok_0.1);
    samples.lemma_flatten_and_flatten_alt_are_equivalent();
    if files.len() > 0 {
        let before = files.drop_last();
        let fewer = Seq::new(before.len(), |i: int| wav_parts(before[i])->Ok_0.1);
        law_all_samples_are_those_of_each(before);
        fewer.lemma_flatten_and_flatten_alt_are_equivalent();
        assert(samples.drop_last() == fewer);
        assert(samples.last() == wav_parts(files.last())->Ok_0.1);
    }
}

/// Whether the first `k` files are WAV files with the same audio parameters.
pub open spec fn first_files_agree(files: Seq<Seq<u8>>, k: int) -> bool {
    forall|i: int|
        0 <= i < k ==> (#[trigger] wav_parts(files[i]) matches Ok(parts) && parts.0
            == wav_parts(files[0])->Ok_0.0)
}

/// WAV files with the same audio parameters, read in any way, are joined to the file that is built
/// of these parameters and of the samples of all, one after the other. Where it is the file `k` that
/// cannot be joined to those before it, the message names it and says why.
#[verifier::rlimit(50)]
pub proof fn law_wav_files_are_joined(files: Seq<Seq<u8>>, k: int)
    requires
        files.len() > 0,
        0 <= k <= files.len(),
        first_files_agree(files, k),
    ensures
        k == files.len() ==> joined_wav(files) == built_wav(
            wav_parts(files[0])->Ok_0.0,
            Seq::new(files.len(), |i: int| wav_parts(files[i])->Ok_0.1).flatten(),
        ),
        k < files.len() ==> (wav_parts(files[k]) matches Err(e) ==> joined_wav(files) == Err::<
            Seq<u8>,
            _,
        >("第 "@ + decimal((k + 1) as nat) + " 段 WAV 无效："@ + e)),
        k < files.len() ==> (wav_parts(files[k]) matches Ok(parts) && k > 0 && parts.0
            != wav_parts(files[0])->Ok_0.0 ==> joined_wav(files) == Err::<Seq<u8>, _>(
            "第 "@ + decimal((k + 1) as nat) + " 段 WAV 参数与前文不一致"@,
        )),
{
    let fmt = wav_parts(files[0])->Ok_0.0;
    if k == files.len() {
        assert(all_have_format(files, fmt));
        lemma_gathered_when_formats_agree(files, fmt);
        law_all_samples_are_those_of_each(files);
    } else {
        let before = files.take(k);
        let with = files.take(k + 1);
        assert(with.drop_last() == before);
        assert(with.last() == files[k]);
        if k > 0 {
            assert forall|i: int| 0 <= i < before.len() implies (#[trigger] wav_parts(
                before[i],
            ) matches Ok(parts) && parts.0 == fmt) by {
                assert(before[i] == files[i]);
            }
            lemma_gathered_when_formats_agree(before, fmt);
        } else {
            assert(gathered(before) == Ok::<_, Seq<char>>((None::<Seq<u8>>, Seq::<u8>::empty())));
        }
        if gathered(with) is Err {
            lemma_gathered_error_stays(files, k + 1);
        }
    }
}

/// Bytes agree with bytes that are equal, and a message with a message that is equal; nothing else
/// agrees.
pub proof fn law_results_agree_where_they_are_equal(
    bytes: Vec<u8>,
    message: String,
    parts: WavParts<'_>,
    b: Seq<u8>,
    fmt: Seq<u8>,
    data: Seq<u8>,
    e: Seq<char>,
)
    ensures
        bytes_agree(Ok(bytes), Ok(b)) <==> bytes@ == b,
        bytes_agree(Err(message), Err(e)) <==> message@ == e,
        !bytes_agree(Ok(bytes), Err(e)),
        !bytes_agree(Err(message), Ok(b)),
        parts_agree(Ok(parts), Ok((fmt, data))) <==> parts.fmt@ == fmt && parts.data@ == data,
        parts_agree(Err(message), Err(e)) <==> message@ == e,
        !parts_agree(Ok(parts), Err(e)),
        !parts_agree(Err(message), Ok((fmt, data))),
{
}

/// The contents of a list of buffers are those of each of them, in order.
pub proof fn law_contents_are_those_of_each(buffers: Seq<Vec<u8>>, i: int)
    requires
        0 <= i < buffers.len(),
    ensures
        contents(buffers).len() == buffers.len(),
        contents(buffers)[i] == buffers[i]@,
{
}

} // verus!
