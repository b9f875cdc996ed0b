use std::io::{Cursor, Read, Write};

use uwucodec::stream::{decode_step, encode_step, StreamStep, CHUNK_SIZE};
use uwucodec::vocab::{decode_word, nibble_for, word_for};
use uwucodec::{decode, decode_stream, encode, encode_stream};

#[test]
fn it_encodes() {
    let data = vec![0u8, 16u8, 12u8];
    let encoded = encode(&data);
    assert_eq!(encoded, String::from("uwu uwu owo uwu uwu OmO"))
}

#[test]
fn it_stream_encodes() {
    let data = vec![0u8, 16u8, 12u8];
    let mut output_buf = Vec::new();
    encode_stream(&mut data.as_slice(), &mut output_buf).0.unwrap();
    let encoded = String::from_utf8(output_buf).unwrap();
    assert_eq!(encoded, String::from("uwu uwu owo uwu uwu OmO"))
}

#[test]
fn it_decodes() {
    let encoded_data = String::from("uwu uwu owo uwu uwu OmO");
    let decoded = decode(&encoded_data);
    assert_eq!(decoded, vec![0u8, 16u8, 12u8])
}

#[test]
fn it_stream_decodes() {
    let mut data = Cursor::new(String::from("uwu uwu owo uwu uwu OmO"));
    let mut output_buf = Vec::new();
    decode_stream(&mut data, &mut output_buf).0.unwrap();
    assert_eq!(output_buf, vec![0u8, 16u8, 12u8])
}

#[test]
fn it_encodes_100000() {
    let data = vec![0u8, 16u8, 12u8];
    for _ in 0..100000 {
        let encoded = encode(&data);
        assert_eq!(encoded, String::from("uwu uwu owo uwu uwu OmO"))
    }
}

#[test]
fn it_decodes_100000() {
    let encoded_data = String::from("uwu uwu owo uwu uwu OmO");
    for _ in 0..100000 {
        let decoded = decode(&encoded_data);
        assert_eq!(decoded, vec![0u8, 16u8, 12u8])
    }
}

const WORDS: [&str; 16] = [
    "uwu", "owo", "umu", "nya", "omo", "o_o", "q_p", "u_u", "o~o", "UwU", "OwO", "UmU", "OmO",
    "O_O", "U_U", "Nya",
];

#[test]
fn round_trip_every_byte() {
    let data: Vec<u8> = (0..=255u8).collect();
    assert_eq!(decode(&encode(&data)), data);
}

#[test]
fn round_trip_mixed_bytes() {
    let data: Vec<u8> = (0..3000u32).map(|i| (i * 37 % 251) as u8).collect();
    assert_eq!(decode(&encode(&data)), data);
}

#[test]
fn encode_is_deterministic() {
    let data = vec![255u8, 1, 128, 7];
    assert_eq!(encode(&data), encode(&data));
}

#[test]
fn encode_exact_words() {
    assert_eq!(encode(&[0xffu8]), "Nya Nya");
    assert_eq!(encode(&[0x5au8, 0x93]), "o_o OwO UwU nya");
}

#[test]
fn encode_word_count_and_length() {
    let data = vec![1u8, 2, 3, 4, 5];
    let text = encode(&data);
    assert_eq!(text.split(' ').count(), 2 * data.len());
    assert_eq!(text.len(), 4 * 2 * data.len() - 1);
    assert!(!text.starts_with(' ') && !text.ends_with(' '));
}

#[test]
fn empty_input() {
    assert_eq!(encode(&[]), "");
    assert_eq!(decode(""), Vec::<u8>::new());
}

#[test]
fn odd_word_is_dropped() {
    assert_eq!(decode("uwu uwu owo"), vec![0u8]);
    assert_eq!(decode("uwu uwu owo"), decode("uwu uwu"));
    assert_eq!(decode("owo"), Vec::<u8>::new());
}

#[test]
fn unrecognized_word_is_zero() {
    assert_eq!(decode("bogus uwu"), vec![0x00u8]);
    assert_eq!(decode("owo bogus"), vec![0x10u8]);
    assert_eq!(decode("UWU Nya"), vec![0x0fu8]);
}

#[test]
fn repeated_separators_give_empty_words() {
    assert_eq!(decode("owo  owo"), vec![0x10u8]);
    assert_eq!(decode(" owo owo"), vec![0x01u8]);
}

#[test]
fn vocabulary_round_trip() {
    for (n, w) in WORDS.iter().enumerate() {
        assert_eq!(word_for(n as u8), *w);
        let chars: Vec<char> = w.chars().collect();
        assert_eq!(nibble_for(&chars), Some(n as u8));
        assert_eq!(decode_word(&chars), n as u8);
    }
}

#[test]
fn vocabulary_rejects_other_words() {
    let bogus: Vec<char> = "uwuu".chars().collect();
    assert_eq!(nibble_for(&bogus), None);
    assert_eq!(decode_word(&bogus), 0);
    let upper: Vec<char> = "NYA".chars().collect();
    assert_eq!(nibble_for(&upper), None);
    assert_eq!(nibble_for(&[]), None);
}

#[test]
fn stream_encode_one_chunk_matches_encode() {
    let data: Vec<u8> = (0..CHUNK_SIZE as u32 - 1).map(|i| (i % 256) as u8).collect();
    let mut out = Vec::new();
    encode_stream(&mut data.as_slice(), &mut out).0.unwrap();
    assert_eq!(String::from_utf8(out).unwrap(), encode(&data));
}

#[test]
fn stream_encode_chunks_have_no_separator_between() {
    let data: Vec<u8> = (0..CHUNK_SIZE as u32 + 10).map(|i| (i % 256) as u8).collect();
    let mut out = Vec::new();
    encode_stream(&mut data.as_slice(), &mut out).0.unwrap();
    let expected = format!(
        "{}{}",
        encode(&data[..CHUNK_SIZE]),
        encode(&data[CHUNK_SIZE..])
    );
    assert_eq!(String::from_utf8(out).unwrap(), expected);
    let whole = format!(
        "{} {}",
        encode(&data[..CHUNK_SIZE]),
        encode(&data[CHUNK_SIZE..])
    );
    assert_eq!(encode(&data), whole);
}

#[test]
fn stream_encode_empty_input() {
    let mut out = Vec::new();
    encode_stream(&mut (&[] as &[u8]), &mut out).0.unwrap();
    assert!(out.is_empty());
}

#[test]
fn stream_decode_each_line_on_its_own() {
    let mut src = Cursor::new(String::from("owo uwu umu uwu\nnya uwu"));
    let mut out = Vec::new();
    decode_stream(&mut src, &mut out).0.unwrap();
    // the terminator stays part of the line's last word, which is then unrecognized
    let mut expected = decode("owo uwu umu uwu\n");
    expected.extend(decode("nya uwu"));
    assert_eq!(out, expected);
    assert_eq!(out, vec![0x10u8, 0x20, 0x30]);
}

#[test]
fn stream_decode_matches_joined_lines() {
    let mut src = Cursor::new(String::from("owo uwu umu OmO "));
    let mut out = Vec::new();
    decode_stream(&mut src, &mut out).0.unwrap();
    assert_eq!(out, decode("owo uwu umu OmO"));
}

#[test]
fn stream_round_trip() {
    let data: Vec<u8> = (0..500u32).map(|i| (i * 7 % 256) as u8).collect();
    let mut text = Vec::new();
    encode_stream(&mut data.as_slice(), &mut text).0.unwrap();
    let mut out = Vec::new();
    decode_stream(&mut Cursor::new(text), &mut out).0.unwrap();
    assert_eq!(out, data);
}

struct FailingSink;

impl Write for FailingSink {
    fn write(&mut self, _buf: &[u8]) -> std::io::Result<usize> {
        Err(std::io::Error::new(std::io::ErrorKind::Other, "sink closed"))
    }

    fn flush(&mut self) -> std::io::Result<()> {
        Ok(())
    }
}

struct FailingSource;

impl Read for FailingSource {
    fn read(&mut self, _buf: &mut [u8]) -> std::io::Result<usize> {
        Err(std::io::Error::new(std::io::ErrorKind::Other, "source closed"))
    }
}

#[test]
fn stream_encode_write_failure_is_returned() {
    let data = vec![1u8, 2, 3];
    assert!(encode_stream(&mut data.as_slice(), &mut FailingSink).0.is_err());
}

#[test]
fn stream_encode_read_failure_is_returned() {
    let mut out = Vec::new();
    assert!(encode_stream(&mut FailingSource, &mut out).0.is_err());
    assert!(out.is_empty());
}

#[test]
fn stream_decode_write_failure_is_returned() {
    let mut src = Cursor::new(String::from("owo uwu"));
    assert!(decode_stream(&mut src, &mut FailingSink).0.is_err());
}

#[test]
fn stream_decode_read_failure_is_returned() {
    let mut src = std::io::BufReader::new(FailingSource);
    let mut out = Vec::new();
    assert!(decode_stream(&mut src, &mut out).0.is_err());
}

#[test]
fn encode_step_zero_count_ends() {
    let buf = [7u8; 4];
    assert!(matches!(encode_step(&buf, 0, 0), StreamStep::End));
}

#[test]
fn encode_step_writes_prefix_encoding() {
    let buf = [0u8, 16, 12, 99];
    match encode_step(&buf, 3, 10) {
        StreamStep::Write(t) => assert_eq!(t, "uwu uwu owo uwu uwu OmO"),
        _ => panic!("expected a write"),
    }
}

#[test]
fn encode_step_too_long() {
    let buf = [1u8; 4];
    assert!(matches!(encode_step(&buf, 2, u64::MAX - 1), StreamStep::TooLong));
    assert!(matches!(encode_step(&buf, 1, u64::MAX - 1), StreamStep::Write(_)));
}

#[test]
fn decode_step_cases() {
    assert!(matches!(decode_step("", 0, 0), StreamStep::End));
    assert!(matches!(decode_step("owo uwu", 7, u64::MAX), StreamStep::TooLong));
    match decode_step("owo uwu\n", 8, 0) {
        StreamStep::Write(b) => assert_eq!(b, vec![0x10u8]),
        _ => panic!("expected a write"),
    }
}

#[test]
fn stream_encode_gap_at_chunk_boundary() {
    let data = vec![0u8; CHUNK_SIZE + 1];
    let mut out = Vec::new();
    encode_stream(&mut data.as_slice(), &mut out).0.unwrap();
    let expected = "uwu ".repeat(2 * CHUNK_SIZE - 1) + "uwuuwu uwu";
    assert_eq!(String::from_utf8(out).unwrap(), expected);
}

#[test]
fn stream_decode_three_lines() {
    let mut src = Cursor::new(String::from("owo uwu\nowo uwu\nowo uwu\n"));
    let mut out = Vec::new();
    decode_stream(&mut src, &mut out).0.unwrap();
    assert_eq!(out, vec![0x10u8, 0x10, 0x10]);
}

#[test]
fn stream_decode_empty_input() {
    let mut out = Vec::new();
    decode_stream(&mut Cursor::new(String::new()), &mut out).0.unwrap();
    assert!(out.is_empty());
}

struct OverReportingSource;

impl Read for OverReportingSource {
    fn read(&mut self, buf: &mut [u8]) -> std::io::Result<usize> {
        Ok(buf.len() + 1)
    }
}

#[test]
fn stream_encode_rejects_overlong_read_count() {
    let mut out = Vec::new();
    assert!(encode_stream(&mut OverReportingSource, &mut out).0.is_err());
    assert!(out.is_empty());
}

struct OneWriteSink {
    written: Vec<u8>,
    writes: usize,
}

impl Write for OneWriteSink {
    fn write(&mut self, buf: &[u8]) -> std::io::Result<usize> {
        if self.writes > 0 {
            return Err(std::io::Error::new(std::io::ErrorKind::Other, "full"));
        }
        self.writes += 1;
        self.written.extend_from_slice(buf);
        Ok(buf.len())
    }

    fn flush(&mut self) -> std::io::Result<()> {
        Ok(())
    }
}

#[test]
fn stream_encode_write_failure_keeps_earlier_chunks() {
    let data = vec![3u8; CHUNK_SIZE + 2];
    let mut sink = OneWriteSink { written: Vec::new(), writes: 0 };
    assert!(encode_stream(&mut data.as_slice(), &mut sink).0.is_err());
    assert_eq!(String::from_utf8(sink.written).unwrap(), encode(&data[..CHUNK_SIZE]));
}
