use audiobook::wav::{build_wav, concatenate_wav_chunks, extract_wav_parts, push_u32_le};

const FMT: [u8; 16] = [1, 0, 1, 0, 0xC0, 0x5D, 0, 0, 0x80, 0xBB, 0, 0, 2, 0, 16, 0];

fn message(bytes: &[u8]) -> String {
    extract_wav_parts(bytes).err().unwrap()
}

#[test]
fn wav_is_written_as_bytes() {
    let bytes = build_wav(&[7, 8, 9], &[1, 2]).unwrap();
    let expected: Vec<u8> = [
        &b"RIFF"[..],
        &[26, 0, 0, 0],
        b"WAVE",
        b"fmt ",
        &[3, 0, 0, 0],
        &[7, 8, 9, 0],
        b"data",
        &[2, 0, 0, 0],
        &[1, 2],
    ]
    .concat();
    assert_eq!(bytes, expected);
}

#[test]
fn wav_reads_back() {
    for data in [&[][..], &[1], &[1, 2], &[1, 2, 3]] {
        let bytes = build_wav(&FMT, data).unwrap();
        assert_eq!(bytes.len() % 2, 0);
        let stated = u32::from_le_bytes([bytes[4], bytes[5], bytes[6], bytes[7]]) as usize;
        assert_eq!(bytes.len(), 8 + stated);
        let parts = extract_wav_parts(&bytes).unwrap();
        assert_eq!(parts.fmt, &FMT);
        assert_eq!(parts.data, data);
    }
}

#[test]
fn broken_wav_is_told_apart() {
    assert_eq!(message(b"RIFF"), "文件头过短");
    assert_eq!(message(b"RIFX\0\0\0\0WAVE"), "不是 RIFF/WAVE 数据");
    assert_eq!(message(b"RIFF\0\0\0\0WAVX"), "不是 RIFF/WAVE 数据");
    assert_eq!(message(b"RIFF\0\0\0\0WAVE"), "缺少 fmt chunk");
    assert_eq!(message(b"RIFF\0\0\0\0WAVEfmt \x01\0\0\0a\0"), "缺少 data chunk");
    assert_eq!(message(b"RIFF\0\0\0\0WAVEdata\x01\0\0\0a\0"), "缺少 fmt chunk");
    assert_eq!(message(b"RIFF\0\0\0\0WAVEfmt \x03\0\0\0ab"), "chunk 数据不完整");
}

#[test]
fn other_chunks_are_skipped_and_the_first_counts() {
    let bytes = b"RIFF\0\0\0\0WAVELIST\x01\0\0\0x\0fmt \x02\0\0\0aafmt \x02\0\0\0bbdata\x01\0\0\0c\0data\x01\0\0\0d";
    let parts = extract_wav_parts(bytes).unwrap();
    assert_eq!(parts.fmt, b"aa");
    assert_eq!(parts.data, b"c");
}

#[test]
fn numbers_of_four_bytes() {
    let mut out = vec![9];
    assert_eq!(push_u32_le(&mut out, 0x0403_0201, "x"), Ok(()));
    assert_eq!(out, [9, 1, 2, 3, 4]);
    assert_eq!(push_u32_le(&mut out, 0xffff_ffff, "x"), Ok(()));
    assert_eq!(
        push_u32_le(&mut out, 0x1_0000_0000, "RIFF 大小"),
        Err("RIFF 大小 超出 WAV 4GiB 限制".to_string())
    );
    assert_eq!(out.len(), 9);
}

#[test]
fn joined_wav_holds_all_samples() {
    let files = vec![
        build_wav(&FMT, &[1, 2, 3]).unwrap(),
        build_wav(&FMT, &[]).unwrap(),
        build_wav(&FMT, &[4]).unwrap(),
    ];
    let joined = concatenate_wav_chunks(files).unwrap();
    let parts = extract_wav_parts(&joined).unwrap();
    assert_eq!(parts.fmt, &FMT);
    assert_eq!(parts.data, &[1, 2, 3, 4]);
}

#[test]
fn wav_files_that_cannot_be_joined() {
    assert_eq!(concatenate_wav_chunks(vec![]), Err("没有可拼接的 WAV 数据".to_string()));
    let good = build_wav(&FMT, &[1, 2]).unwrap();
    assert_eq!(
        concatenate_wav_chunks(vec![good.clone(), vec![1]]),
        Err("第 2 段 WAV 无效：文件头过短".to_string())
    );
    let mut fmt = FMT;
    fmt[2] = 2;
    let other = build_wav(&fmt, &[1, 2]).unwrap();
    assert_eq!(
        concatenate_wav_chunks(vec![good, other]),
        Err("第 2 段 WAV 参数与前文不一致".to_string())
    );
}
