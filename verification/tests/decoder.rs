use loginator::decoder::{DecodeError, Decoder};

#[test]
fn basic_decoding() {
    let mut decoder = Decoder::default();
    let decoded_data = decoder.push(vec![5, 1, 1, 1, 1, 0]);
    assert_eq!(decoded_data.unwrap().unwrap(), vec![1, 1, 1, 1]);
}

#[test]
fn with_extra_zeroes() {
    let mut decoder = Decoder::default();
    let decoded_data = decoder.push(vec![3, 1, 2, 2, 1, 0]);
    assert_eq!(decoded_data.unwrap().unwrap(), vec![1, 2, 0, 1]);
}

#[test]
fn incomplete_data() {
    let mut decoder = Decoder::default();
    let test1 = vec![
        37, 115, 111, 117, 116, 50, 44, 51, 48, 46, 48, 48, 48, 48, 48, 48, 44, 51, 48, 46, 48, 48,
        48, 48, 48, 48,
    ];

    let test2 = vec![44, 51, 48, 46, 48, 48, 48, 48, 48, 48, 10, 0];

    let result1 = decoder.push(test1).unwrap();
    let result2 = decoder.push(test2).unwrap().unwrap();

    assert_eq!(result1, None);
    assert_eq!(
        result2,
        vec![
            115, 111, 117, 116, 50, 44, 51, 48, 46, 48, 48, 48, 48, 48, 48, 44, 51, 48, 46, 48, 48,
            48, 48, 48, 48, 44, 51, 48, 46, 48, 48, 48, 48, 48, 48, 10,
        ]
    )
}

#[test]
fn invalid_data() {
    let mut decoder = Decoder::default();
    let decoded_data = decoder.push(vec![20, 2, 1, 1, 0]);
    match decoded_data {
        Ok(_) => panic!("the data was valid, but it shouldn't have been"),
        Err(_) => {}
    }
}

#[test]
fn invalid_data_reports_invalid_length() {
    let mut decoder = Decoder::default();
    assert_eq!(decoder.push(vec![20, 2, 1, 1, 0]), Err(DecodeError::InvalidLength));
}

#[test]
fn delimiter_before_the_code_position_is_invalid() {
    let mut decoder = Decoder::default();
    assert_eq!(decoder.push(vec![3, 1, 0]), Err(DecodeError::InvalidLength));
}

#[test]
fn feed_first_byte_is_only_a_code() {
    let mut decoder = Decoder::default();
    assert_eq!(decoder.feed(0), Ok(None));
    assert_eq!(decoder.feed(0), Err(DecodeError::InvalidLength));
    assert_eq!(decoder.feed(1), Ok(None));
    assert_eq!(decoder.feed(0), Ok(Some(vec![])));
}

#[test]
fn feed_byte_by_byte_matches_push() {
    let mut decoder = Decoder::default();
    let encoded = [3u8, 7, 9, 2, 4, 1, 0];
    let mut last = Ok(None);
    for byte in encoded {
        last = decoder.feed(byte);
    }
    assert_eq!(last, Ok(Some(vec![7, 9, 0, 4, 0])));
}

#[test]
fn empty_frame_decodes_to_nothing() {
    let mut decoder = Decoder::default();
    assert_eq!(decoder.push(vec![1, 0]), Ok(Some(vec![])));
}

#[test]
fn frame_of_zeros_round_trips() {
    let mut decoder = Decoder::default();
    assert_eq!(decoder.push(vec![1, 1, 1, 0]), Ok(Some(vec![0, 0])));
}

#[test]
fn longest_run_that_fits_round_trips() {
    let data: Vec<u8> = (0..254).map(|i| (i % 250 + 1) as u8).collect();
    let mut encoded = vec![255u8];
    encoded.extend(&data);
    encoded.push(0);
    let mut decoder = Decoder::default();
    assert_eq!(decoder.push(encoded), Ok(Some(data)));
}

#[test]
fn bytes_after_the_frame_are_ignored() {
    let mut decoder = Decoder::default();
    assert_eq!(decoder.push(vec![2, 9, 0, 7, 7, 7]), Ok(Some(vec![9])));
}

#[test]
fn empty_push_is_incomplete() {
    let mut decoder = Decoder::default();
    assert_eq!(decoder.push(vec![]), Ok(None));
}

#[test]
fn split_pushes_equal_one_push() {
    let whole = vec![3u8, 1, 2, 2, 1, 0];
    for cut in 0..whole.len() {
        let mut split = Decoder::default();
        let first = split.push(whole[..cut].to_vec());
        assert_eq!(first, Ok(None));
        let second = split.push(whole[cut..].to_vec());
        let mut joined = Decoder::default();
        assert_eq!(second, joined.push(whole.clone()));
    }
}

#[test]
fn frames_in_a_row_decode_one_by_one() {
    let mut decoder = Decoder::default();
    assert_eq!(decoder.push(vec![2, 1, 0]), Ok(Some(vec![1])));
    assert_eq!(decoder.buffered_len(), 0);
    assert_eq!(decoder.push(vec![2, 1, 0]), Ok(Some(vec![1])));
    assert_eq!(decoder.push(vec![3, 1, 2, 2, 1, 0]), Ok(Some(vec![1, 2, 0, 1])));
}

#[test]
fn stream_fed_byte_by_byte_yields_each_frame() {
    let mut decoder = Decoder::default();
    let stream = [5u8, 1, 1, 1, 1, 0, 1, 0, 3, 1, 2, 2, 1, 0];
    let mut frames = vec![];
    for byte in stream {
        if let Ok(Some(frame)) = decoder.feed(byte) {
            frames.push(frame);
        }
    }
    assert_eq!(frames, vec![vec![1, 1, 1, 1], vec![], vec![1, 2, 0, 1]]);
}

#[test]
fn decoder_resynchronises_after_a_bad_frame() {
    let mut decoder = Decoder::default();
    assert_eq!(decoder.push(vec![20, 2, 1, 1, 0]), Err(DecodeError::InvalidLength));
    assert_eq!(decoder.buffered_len(), 0);
    assert_eq!(decoder.push(vec![2, 1, 0]), Ok(Some(vec![1])));
}

#[test]
fn clone_decodes_like_the_original() {
    let mut decoder = Decoder::default();
    assert_eq!(decoder.push(vec![3, 1, 2]), Ok(None));
    let mut copy = decoder.clone();
    assert_eq!(copy.push(vec![2, 1, 0]), Ok(Some(vec![1, 2, 0, 1])));
    assert_eq!(decoder.push(vec![2, 1, 0]), Ok(Some(vec![1, 2, 0, 1])));
}

#[test]
fn decode_error_message() {
    assert_eq!(
        DecodeError::InvalidLength.message(),
        "The length of the encoded data was incorrect."
    );
}

#[test]
fn no_zero_no_frame() {
    let mut decoder = Decoder::default();
    assert_eq!(decoder.push(vec![4, 9, 9, 9, 2, 7]), Ok(None));
    assert_eq!(decoder.buffered_len(), 5);
    assert_eq!(decoder.push(vec![0]), Ok(Some(vec![9, 9, 9, 0, 7])));
    assert_eq!(decoder.buffered_len(), 0);
}
