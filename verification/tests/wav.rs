use rs_deesser::wav::{
    check_format, decode_sample, encode_sample, read_u16, read_u32, sample_to_i16, skip,
    write_header, write_wav, Format, HeaderParser, HeaderStep, WavError, WavReader, WavWriter,
};

fn sample_from_i16(raw: i16) -> f32 {
    raw as f32 / 32768.0
}

fn to_i16(sample: f32) -> i16 {
    sample_to_i16((sample * 32768.0).round() as i64)
}

#[test]
fn i16_round_trip_is_exact() {
    // Every 16-bit value must survive i16 -> f32 -> i16 unchanged,
    // otherwise "source connected straight to sink" would not be a copy.
    for raw in i16::MIN..=i16::MAX {
        assert_eq!(to_i16(sample_from_i16(raw)), raw);
    }
}

#[test]
fn out_of_range_samples_are_clipped() {
    assert_eq!(to_i16(2.0), i16::MAX);
    assert_eq!(to_i16(-2.0), i16::MIN);
}

#[test]
fn clipping_starts_at_the_limits() {
    assert_eq!(sample_to_i16(32766), 32766);
    assert_eq!(sample_to_i16(32767), 32767);
    assert_eq!(sample_to_i16(32768), 32767);
    assert_eq!(sample_to_i16(-32767), -32767);
    assert_eq!(sample_to_i16(-32768), -32768);
    assert_eq!(sample_to_i16(-32769), -32768);
    assert_eq!(sample_to_i16(i64::MAX), 32767);
    assert_eq!(sample_to_i16(i64::MIN), -32768);
}

#[test]
fn sample_bytes_are_exact() {
    for raw in i16::MIN..=i16::MAX {
        assert_eq!(encode_sample(raw), raw.to_le_bytes());
        assert_eq!(decode_sample(raw.to_le_bytes()), raw);
    }
}

#[test]
fn numbers_are_little_endian() {
    let bytes = [0x11u8, 0x22, 0x33, 0x44, 0xff];
    assert_eq!(read_u16(&bytes, 0), 0x2211);
    assert_eq!(read_u16(&bytes, 3), 0xff44);
    assert_eq!(read_u32(&bytes, 1), 0xff443322);
}

// ---------------------------------------------------------------------------
// Headers
// ---------------------------------------------------------------------------

fn chunk(id: &[u8; 4], body: &[u8]) -> Vec<u8> {
    let mut bytes = id.to_vec();
    bytes.extend_from_slice(&(body.len() as u32).to_le_bytes());
    bytes.extend_from_slice(body);
    bytes
}

fn format_body(tag: u16, channels: u16, rate: u32, bits: u16) -> Vec<u8> {
    let mut body = Vec::new();
    body.extend_from_slice(&tag.to_le_bytes());
    body.extend_from_slice(&channels.to_le_bytes());
    body.extend_from_slice(&rate.to_le_bytes());
    body.extend_from_slice(&(rate * 2).to_le_bytes());
    body.extend_from_slice(&2u16.to_le_bytes());
    body.extend_from_slice(&bits.to_le_bytes());
    body
}

fn file(chunks: &[Vec<u8>]) -> Vec<u8> {
    let mut bytes = b"RIFF\0\0\0\0WAVE".to_vec();
    for chunk in chunks {
        bytes.extend_from_slice(chunk);
    }
    bytes
}

fn good_format() -> Vec<u8> {
    chunk(b"fmt ", &format_body(1, 1, 44_100, 16))
}

fn open(bytes: &[u8]) -> Result<(u64, usize), WavError> {
    match WavReader::<()>::new(bytes) {
        Ok((reader, at)) => Ok((reader.len(), at)),
        Err(error) => Err(error),
    }
}

#[test]
fn a_plain_file_is_accepted() {
    let bytes = file(&[good_format(), chunk(b"data", &[1, 0, 255, 255, 9])]);
    // An odd byte at the end is not a sample.
    assert_eq!(open(&bytes), Ok((2, 44)));
}

#[test]
fn other_chunks_are_skipped() {
    let list = chunk(b"LIST", &vec![7u8; 1300]);
    // An odd chunk is followed by a pad byte.
    let mut odd = chunk(b"odd ", &[1, 2, 3]);
    odd.push(0);
    let bytes = file(&[list, odd, good_format(), chunk(b"data", &[0; 8])]);
    assert_eq!(open(&bytes), Ok((4, 12 + 1308 + 12 + 24 + 8)));
}

#[test]
fn a_longer_format_chunk_is_accepted() {
    let mut body = format_body(1, 1, 44_100, 16);
    body.extend_from_slice(&[0; 602]);
    let bytes = file(&[chunk(b"fmt ", &body), chunk(b"data", &[0; 2])]);
    assert_eq!(open(&bytes), Ok((1, 12 + 8 + 618 + 8)));
}

#[test]
fn an_odd_format_chunk_is_padded() {
    let bytes = b"RIFF\x00\x00\x00\x00WAVEfmt \x11\x00\x00\x00\x01\x00\x01\x00\x44\xac\x00\x00\
\x88\x58\x01\x00\x02\x00\x10\x00\x00\x00data\x02\x00\x00\x00\x05\x00";
    let (mut reader, at) = match WavReader::<()>::new(bytes) {
        Ok(opened) => opened,
        Err(error) => panic!("rejected: {}", error.message()),
    };
    assert_eq!(reader.len(), 1);
    assert_eq!(reader.next(Ok([bytes[at], bytes[at + 1]])), Some(5));
    // Without the pad byte the next chunk is not found.
    let mut body = format_body(1, 1, 44_100, 16);
    body.push(0);
    let padless = file(&[chunk(b"fmt ", &body), chunk(b"data", &[5, 0])]);
    assert_eq!(open(&padless), Err(WavError::UnexpectedEnd));
    assert_eq!(open(&padless[..37]), Err(WavError::UnexpectedEnd));
}

#[test]
fn the_riff_size_does_not_matter() {
    let mut bytes = file(&[good_format(), chunk(b"data", &[1, 0])]);
    assert_eq!(open(&bytes), Ok((1, 44)));
    bytes[4..8].copy_from_slice(&[255, 1, 2, 3]);
    assert_eq!(open(&bytes), Ok((1, 44)));
    bytes[8] = b'w';
    assert_eq!(open(&bytes), Err(WavError::NotWave));
}

#[test]
fn other_chunks_may_stand_anywhere_before_the_data() {
    let mut odd = chunk(b"note", &[1, 2, 3]);
    odd.push(77);
    let data = chunk(b"data", &[1, 0, 2, 0]);
    assert_eq!(open(&file(&[good_format(), data.clone()])), Ok((2, 44)));
    assert_eq!(open(&file(&[odd.clone(), good_format(), data.clone()])), Ok((2, 56)));
    assert_eq!(open(&file(&[good_format(), odd.clone(), data.clone()])), Ok((2, 56)));
    assert_eq!(open(&file(&[good_format(), good_format(), odd, data.clone()])), Ok((2, 80)));
    // Every format has to be the required one.
    let stereo = chunk(b"fmt ", &format_body(1, 2, 44_100, 16));
    assert_eq!(open(&file(&[good_format(), stereo, data])), Err(WavError::Channels(2)));
}

#[test]
fn files_of_other_kinds_are_rejected() {
    assert_eq!(open(b"RIFX\0\0\0\0WAVE"), Err(WavError::NotRiff));
    assert_eq!(open(b"RIFF\0\0\0\0AVI "), Err(WavError::NotWave));
    assert_eq!(open(b"RIF"), Err(WavError::UnexpectedEnd));
    assert_eq!(open(b"RIFF\0\0\0\0WAV"), Err(WavError::UnexpectedEnd));
}

#[test]
fn incomplete_headers_are_rejected() {
    assert_eq!(open(&file(&[])), Err(WavError::NoData));
    assert_eq!(open(&file(&[good_format()])), Err(WavError::NoData));
    // The file ends in the middle of a chunk.
    let whole = file(&[good_format(), chunk(b"data", &[])]);
    assert_eq!(open(&whole[..18]), Err(WavError::UnexpectedEnd));
    assert_eq!(open(&whole[..30]), Err(WavError::UnexpectedEnd));
    assert_eq!(open(&whole[..43]), Err(WavError::UnexpectedEnd));
    assert_eq!(open(&whole), Ok((0, 44)));
    // A chunk without its pad byte is incomplete, too.
    let padless = file(&[good_format(), chunk(b"odd ", &[1])]);
    assert_eq!(open(&padless), Err(WavError::UnexpectedEnd));
}

#[test]
fn formats_are_rejected_for_the_first_reason() {
    let rejected = |tag, channels, rate, bits| {
        let format = chunk(b"fmt ", &format_body(tag, channels, rate, bits));
        open(&file(&[format, chunk(b"data", &[])]))
    };
    assert_eq!(rejected(3, 2, 48_000, 24), Err(WavError::FormatTag(3)));
    assert_eq!(rejected(1, 2, 48_000, 24), Err(WavError::Channels(2)));
    assert_eq!(rejected(1, 1, 48_000, 24), Err(WavError::SampleRate(48_000)));
    assert_eq!(rejected(1, 1, 44_100, 24), Err(WavError::BitsPerSample(24)));
    assert_eq!(rejected(1, 1, 44_100, 16), Ok((0, 44)));
    let short = chunk(b"fmt ", &[1, 0]);
    assert_eq!(open(&file(&[short])), Err(WavError::FormatTooShort));
    let data_first = file(&[chunk(b"data", &[]), good_format()]);
    assert_eq!(open(&data_first), Err(WavError::DataBeforeFormat));
}

#[test]
fn a_format_is_checked_field_by_field() {
    let good = Format { tag: 1, channels: 1, sample_rate: 44_100, bits_per_sample: 16 };
    assert_eq!(check_format(good), Ok(()));
    assert_eq!(
        check_format(Format { tag: 65534, ..good }),
        Err(WavError::FormatTag(65534))
    );
    assert_eq!(
        check_format(Format { sample_rate: 22_050, ..good }),
        Err(WavError::SampleRate(22_050))
    );
}

#[test]
fn reasons_are_given_in_words() {
    assert_eq!(WavError::NotRiff.message(), "not a RIFF file (missing 'RIFF' magic)");
    assert_eq!(WavError::NotWave.message(), "not a WAVE file (missing 'WAVE' magic)");
    assert_eq!(WavError::NoData.message(), "no 'data' chunk found");
    assert_eq!(WavError::UnexpectedEnd.message(), "failed to fill whole buffer");
    assert_eq!(WavError::FormatTooShort.message(), "'fmt ' chunk is too short");
    assert_eq!(
        WavError::FormatTag(3).message(),
        "unsupported WAV format tag 3 (only uncompressed PCM = 1 is supported)"
    );
    assert_eq!(WavError::Channels(2).message(), "expected 1 channel, found 2");
    assert_eq!(WavError::SampleRate(8000).message(), "expected 44100 Hz, found 8000 Hz");
    assert_eq!(WavError::BitsPerSample(8).message(), "expected 16 bits per sample, found 8");
    assert_eq!(WavError::DataBeforeFormat.message(), "'data' chunk appears before 'fmt '");
}

#[test]
fn a_header_can_be_parsed_as_it_arrives() {
    let bytes = file(&[
        chunk(b"LIST", &vec![7u8; 1300]),
        good_format(),
        chunk(b"data", &[5, 0, 6, 0]),
    ]);
    let mut parser = HeaderParser::new();
    let mut at = 0;
    let mut longest = 0;
    let size = loop {
        let wanted = parser.wanted();
        longest = longest.max(wanted);
        let step = parser.accept(&bytes[at..at + wanted]);
        at += wanted;
        match step {
            HeaderStep::More(more) => parser = more,
            HeaderStep::Data(size) => break size,
            HeaderStep::Rejected(error) => panic!("rejected: {}", error.message()),
        }
    };
    assert_eq!(size, 4);
    assert_eq!(at, bytes.len() - 4);
    // A long chunk is skipped piece by piece.
    assert_eq!(longest, 512);
    assert_eq!(HeaderParser::new().end_of_file(), WavError::UnexpectedEnd);
    let between = HeaderParser::ChunkId { format_seen: true };
    assert_eq!(between.end_of_file(), WavError::NoData);
}

#[test]
fn long_chunks_are_skipped_in_pieces() {
    assert_eq!(skip(0), 0);
    assert_eq!(skip(511), 511);
    assert_eq!(skip(512), 512);
    assert_eq!(skip(4_000_000_000), 512);
}

// ---------------------------------------------------------------------------
// Samples
// ---------------------------------------------------------------------------

#[test]
fn samples_are_read_until_the_chunk_ends() {
    let mut reader = WavReader::<&str>::at_data(5);
    assert_eq!(reader.len(), 2);
    assert!(reader.wants_sample());
    assert_eq!(reader.next(Ok([1, 0])), Some(1));
    assert_eq!(reader.next(Ok([0, 128])), Some(-32768));
    assert!(!reader.wants_sample());
    assert_eq!(reader.next(Ok([1, 0])), None);
    assert_eq!(reader.take_error(), None);
    assert_eq!(reader.len(), 2);
}

#[test]
fn a_read_error_stops_the_stream_and_is_kept() {
    let mut reader = WavReader::at_data(8);
    assert_eq!(reader.next(Ok([2, 0])), Some(2));
    assert_eq!(reader.next(Err("unreadable")), None);
    assert!(!reader.wants_sample());
    assert_eq!(reader.next(Ok([2, 0])), None);
    assert_eq!(reader.next(Err("again")), None);
    assert_eq!(reader.take_error(), Some("unreadable"));
    assert_eq!(reader.take_error(), None);
}

#[test]
fn the_header_is_written_byte_by_byte() {
    let expected: Vec<u8> = [
        b"RIFF".as_slice(),
        &(36u32 + 6).to_le_bytes(),
        b"WAVEfmt ",
        &16u32.to_le_bytes(),
        &1u16.to_le_bytes(),
        &1u16.to_le_bytes(),
        &44_100u32.to_le_bytes(),
        &88_200u32.to_le_bytes(),
        &2u16.to_le_bytes(),
        &16u16.to_le_bytes(),
        b"data",
        &6u32.to_le_bytes(),
    ]
    .concat();
    assert_eq!(write_header(3), expected);
    // The size field keeps the lower bits.
    assert_eq!(write_header(1 << 31), write_header(0));
}

#[test]
fn a_file_is_written_as_it_streams() {
    let (mut writer, placeholder) = WavWriter::create();
    assert_eq!(placeholder, write_header(0));
    assert_eq!(writer.write_sample(1), [1, 0]);
    assert_eq!(writer.write_sample(-1), [255, 255]);
    assert_eq!(writer.write_sample(40_000), [255, 127]);
    assert!(writer.can_finish());
    let (header, count) = writer.finish();
    assert_eq!(header, write_header(3));
    assert_eq!(count, 3);
}

#[test]
fn what_is_written_is_what_is_read() {
    let samples: Vec<i64> = vec![0, 1, -1, 32767, -32768, 1234, -4321];
    let bytes = write_wav(&samples);
    let (mut reader, mut at) = match WavReader::<()>::new(&bytes) {
        Ok(opened) => opened,
        Err(error) => panic!("rejected: {}", error.message()),
    };
    assert_eq!(reader.len(), samples.len() as u64);
    let mut read = Vec::new();
    while reader.wants_sample() {
        let raw = reader.next(Ok([bytes[at], bytes[at + 1]]));
        read.push(raw.unwrap() as i64);
        at += 2;
    }
    assert_eq!(read, samples);
    assert_eq!(at, bytes.len());
}

#[test]
fn copying_a_file_keeps_its_samples() {
    let body: Vec<u8> = (0..200u32).map(|n| (n * 37 % 256) as u8).collect();
    let bytes = file(&[chunk(b"LIST", &[1, 2]), good_format(), chunk(b"data", &body)]);
    let (mut reader, mut at) = match WavReader::<()>::new(&bytes) {
        Ok(opened) => opened,
        Err(error) => panic!("rejected: {}", error.message()),
    };
    let (mut writer, _placeholder) = WavWriter::create();
    let mut copy = Vec::new();
    while let Some(raw) = reader.next(Ok([bytes[at], bytes[at + 1]])) {
        let scaled = (sample_from_i16(raw) * 32768.0).round() as i64;
        copy.extend_from_slice(&writer.write_sample(scaled));
        at += 2;
        if !reader.wants_sample() {
            break;
        }
    }
    assert_eq!(copy, body);
    assert_eq!(writer.finish().1, 100);
}
