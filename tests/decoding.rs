use rzcobs::{reported_len, rzcobs_decode, table_outcome, DecodeError, Rzcobs, RzcobsOwned, Table};
use std::sync::Arc;

/// Accepts any non-empty payload that does not start with `0xee` or `0xed`,
/// and hands it back as the record; asks for more data on an empty payload
/// or one that starts with `0xed`.
struct Echo;

impl Table for Echo {
    type Frame = Vec<u8>;

    fn decode(&self, payload: &[u8]) -> Result<(Vec<u8>, usize), DecodeError> {
        if payload.is_empty() || payload[0] == 0xed {
            Err(DecodeError::UnexpectedEof)
        } else if payload[0] == 0xee {
            Err(DecodeError::Malformed)
        } else {
            Ok((payload.to_vec(), payload.len()))
        }
    }
}

const FRAME: [u8; 8] = [1, 2, 3, 4, 5, 6, 7, 0x80];
const PAYLOAD: [u8; 8] = [1, 2, 3, 4, 5, 6, 7, 0];

#[test]
fn empty_input_decodes_to_empty() {
    assert_eq!(rzcobs_decode(&[]), Ok(vec![]));
}

#[test]
fn all_flags_set_gives_seven_zeros() {
    assert_eq!(rzcobs_decode(&[0x7f]), Ok(vec![0; 7]));
}

#[test]
fn clear_flag_without_literal_is_malformed() {
    assert_eq!(rzcobs_decode(&[0x01]), Err(DecodeError::Malformed));
}

#[test]
fn lone_separator_is_malformed() {
    assert_eq!(rzcobs_decode(&[0]), Err(DecodeError::Malformed));
}

#[test]
fn zero_plus_run_restores_order() {
    assert_eq!(rzcobs_decode(&FRAME), Ok(PAYLOAD.to_vec()));
}

#[test]
fn bitmap_takes_literals_from_the_end() {
    assert_eq!(rzcobs_decode(&[0x11, 0x22, 0x7c]), Ok(vec![0x11, 0x22, 0, 0, 0, 0, 0]));
    assert_eq!(rzcobs_decode(&[0x33, 0x7e]), Ok(vec![0x33, 0, 0, 0, 0, 0, 0]));
}

#[test]
fn control_bytes_chain() {
    let data = [0x11, 0x7e, 1, 2, 3, 4, 5, 6, 7, 0x80];
    assert_eq!(
        rzcobs_decode(&data),
        Ok(vec![0x11, 0, 0, 0, 0, 0, 0, 1, 2, 3, 4, 5, 6, 7, 0])
    );
}

#[test]
fn longest_zero_plus_run() {
    let mut data: Vec<u8> = (1..=133).collect();
    data.push(0xfe);
    let mut expected: Vec<u8> = (1..=133).collect();
    expected.push(0);
    assert_eq!(rzcobs_decode(&data), Ok(expected));
}

#[test]
fn short_zero_plus_run_is_malformed() {
    assert_eq!(rzcobs_decode(&[1, 2, 3, 0x80]), Err(DecodeError::Malformed));
}

#[test]
fn raw_run_of_134_bytes() {
    let mut data: Vec<u8> = (1..=134).collect();
    data.push(0xff);
    let expected: Vec<u8> = (1..=134).collect();
    assert_eq!(rzcobs_decode(&data), Ok(expected));
}

#[test]
fn short_raw_run_is_malformed() {
    let mut data: Vec<u8> = (1..=133).collect();
    data.push(0xff);
    assert_eq!(rzcobs_decode(&data), Err(DecodeError::Malformed));
}

#[test]
fn decode_twice_gives_the_same_result() {
    let data = [0x11, 0x7e, 1, 2, 3, 4, 5, 6, 7, 0x80];
    assert_eq!(rzcobs_decode(&data), rzcobs_decode(&data));
    assert_eq!(rzcobs_decode(&[0x01]), rzcobs_decode(&[0x01]));
}

#[test]
fn no_separator_is_unexpected_eof() {
    let table = Echo;
    let mut dec = Rzcobs::new(&table);
    assert_eq!(dec.decode(), Err(DecodeError::UnexpectedEof));
    dec.received(&FRAME);
    assert_eq!(dec.decode(), Err(DecodeError::UnexpectedEof));
    assert_eq!(dec.decode(), Err(DecodeError::UnexpectedEof));
    dec.received(&[0]);
    assert_eq!(dec.decode(), Ok(PAYLOAD.to_vec()));
    assert_eq!(dec.decode(), Err(DecodeError::UnexpectedEof));
}

#[test]
fn frame_split_across_two_receives() {
    let table = Echo;
    let mut split = Rzcobs::new(&table);
    split.received(&FRAME[..3]);
    let mut rest = FRAME[3..].to_vec();
    rest.push(0);
    split.received(&rest);

    let mut whole = Rzcobs::new(&table);
    let mut all = FRAME.to_vec();
    all.push(0);
    whole.received(&all);

    let a = split.decode();
    let b = whole.decode();
    assert_eq!(a, Ok(PAYLOAD.to_vec()));
    assert_eq!(a, b);
}

#[test]
fn malformed_frame_then_valid_frame() {
    let table = Echo;
    let mut dec = Rzcobs::new(&table);
    let mut bytes = vec![0x01, 0];
    bytes.extend_from_slice(&FRAME);
    bytes.push(0);
    dec.received(&bytes);
    assert_eq!(dec.decode(), Err(DecodeError::Malformed));
    assert_eq!(dec.decode(), Ok(PAYLOAD.to_vec()));
    assert_eq!(dec.decode(), Err(DecodeError::UnexpectedEof));
}

#[test]
fn leading_separators_are_trimmed() {
    let table = Echo;
    let mut dec = Rzcobs::new(&table);
    let mut bytes = vec![0, 0];
    bytes.extend_from_slice(&FRAME);
    bytes.push(0);
    dec.received(&bytes);
    assert_eq!(dec.decode(), Ok(PAYLOAD.to_vec()));
}

#[test]
fn separators_alone_leave_the_buffer_empty() {
    let table = Echo;
    let mut dec = Rzcobs::new(&table);
    dec.received(&[0, 0, 0]);
    assert_eq!(dec.decode(), Err(DecodeError::UnexpectedEof));
    dec.received(&FRAME);
    dec.received(&[0]);
    assert_eq!(dec.decode(), Ok(PAYLOAD.to_vec()));
}

#[test]
fn runs_of_separators_between_frames_are_skipped() {
    let table = Echo;
    let mut dec = Rzcobs::new(&table);
    let mut bytes = FRAME.to_vec();
    bytes.extend_from_slice(&[0, 0, 0]);
    bytes.extend_from_slice(&[0x33, 0x7e, 0]);
    dec.received(&bytes);
    assert_eq!(dec.decode(), Ok(PAYLOAD.to_vec()));
    assert_eq!(dec.decode(), Ok(vec![0x33, 0, 0, 0, 0, 0, 0]));
    assert_eq!(dec.decode(), Err(DecodeError::UnexpectedEof));
}

#[test]
fn decoding_the_same_buffer_twice_agrees() {
    let table = Echo;
    let mut bytes = vec![0x01, 0];
    bytes.extend_from_slice(&FRAME);
    bytes.push(0);
    let mut a = Rzcobs::new(&table);
    let mut b = Rzcobs::new(&table);
    a.received(&bytes);
    b.received(&bytes);
    assert_eq!(a.decode(), b.decode());
    assert_eq!(a.decode(), b.decode());
}

#[test]
fn table_refusal_is_malformed() {
    let table = Echo;
    let mut dec = Rzcobs::new(&table);
    // 0xee followed by six zeros
    dec.received(&[0xee, 0x7e, 0]);
    assert_eq!(dec.decode(), Err(DecodeError::Malformed));
    // 0xed followed by six zeros: the table asks for more data
    dec.received(&[0xed, 0x7e, 0]);
    assert_eq!(dec.decode(), Err(DecodeError::Malformed));
    // a raw run short of its 134 bytes fails in the codec
    dec.received(&[0xff, 0]);
    assert_eq!(dec.decode(), Err(DecodeError::Malformed));
    assert_eq!(dec.decode(), Err(DecodeError::UnexpectedEof));
}

#[test]
fn table_outcome_maps_every_refusal_to_malformed() {
    assert_eq!(table_outcome(Ok((5u8, 3))), Ok(5u8));
    assert_eq!(table_outcome::<u8>(Err(DecodeError::UnexpectedEof)), Err(DecodeError::Malformed));
    assert_eq!(table_outcome::<u8>(Err(DecodeError::Malformed)), Err(DecodeError::Malformed));
}

#[test]
fn reported_len_is_zero_only_for_codec_failure() {
    assert_eq!(reported_len(&Ok(vec![0, 0, 0])), 3);
    assert_eq!(reported_len(&Err(DecodeError::Malformed)), 0);
}

fn collect(dec: &mut RzcobsOwned<Echo>) -> (bool, Vec<(Vec<u8>, Option<Vec<u8>>, usize)>) {
    let mut seen = Vec::new();
    let taken = dec.frame_and_decode(|encoded, frame, len| {
        seen.push((encoded.to_vec(), frame, len));
    });
    (taken, seen)
}

#[test]
fn owned_decoder_reports_each_frame() {
    let mut dec = RzcobsOwned::new(Arc::new(Echo));
    assert_eq!(collect(&mut dec), (false, vec![]));

    let mut bytes = vec![0, FRAME[0]];
    dec.received(&bytes);
    bytes = FRAME[1..].to_vec();
    bytes.extend_from_slice(&[0, 0x01, 0, 0xee, 0x7e, 0, 0]);
    dec.received(&bytes);

    assert_eq!(
        collect(&mut dec),
        (true, vec![(FRAME.to_vec(), Some(PAYLOAD.to_vec()), 8)])
    );
    assert_eq!(collect(&mut dec), (true, vec![(vec![0x01], None, 0)]));
    assert_eq!(collect(&mut dec), (true, vec![(vec![0xee, 0x7e], None, 7)]));
    assert_eq!(collect(&mut dec), (false, vec![]));
}

#[test]
fn owned_decoder_reports_all_flags_frame() {
    let mut dec = RzcobsOwned::new(Arc::new(Echo));
    dec.received(&[0x7f, 0x00]);
    assert_eq!(collect(&mut dec), (true, vec![(vec![0x7f], Some(vec![0; 7]), 7)]));
    assert_eq!(collect(&mut dec), (false, vec![]));
}

#[test]
fn owned_decoder_reports_codec_failure_with_zero_length() {
    let mut dec = RzcobsOwned::new(Arc::new(Echo));
    dec.received(&[0x01, 0x00, 0x7f]);
    assert_eq!(collect(&mut dec), (true, vec![(vec![0x01], None, 0)]));
    dec.received(&[0x00]);
    assert_eq!(collect(&mut dec), (true, vec![(vec![0x7f], Some(vec![0; 7]), 7)]));
}

#[test]
fn owned_decoder_shares_its_table() {
    let table = Arc::new(Echo);
    let dec = RzcobsOwned::new(table.clone());
    assert!(Arc::ptr_eq(&dec.table(), &table));
}
