use srcmap_lookup::vlq::{base64_digit, vlq_decode, VlqDecoder};

const ALPHABET: &str = "ABCDEFGHIJKLMNOPQRSTUVWXYZabcdefghijklmnopqrstuvwxyz0123456789+/";

fn encode(value: i64) -> String {
    let digits: Vec<char> = ALPHABET.chars().collect();
    let mut code: u64 = if value < 0 { (2 * (-value) + 1) as u64 } else { (2 * value) as u64 };
    let mut out = String::new();
    loop {
        let payload = (code & 31) as usize;
        code >>= 5;
        if code != 0 {
            out.push(digits[payload | 32]);
        } else {
            out.push(digits[payload]);
            return out;
        }
    }
}

#[test]
fn alphabet_values() {
    for (i, c) in ALPHABET.chars().enumerate() {
        assert_eq!(base64_digit(c), Some(i as u8));
    }
    assert_eq!(base64_digit('A'), Some(0));
    assert_eq!(base64_digit('Z'), Some(25));
    assert_eq!(base64_digit('a'), Some(26));
    assert_eq!(base64_digit('z'), Some(51));
    assert_eq!(base64_digit('0'), Some(52));
    assert_eq!(base64_digit('9'), Some(61));
    assert_eq!(base64_digit('+'), Some(62));
    assert_eq!(base64_digit('/'), Some(63));
}

#[test]
fn characters_outside_the_alphabet() {
    for c in ['=', '-', '_', ',', ';', ' ', '\n', '@', '[', '`', '{', ':', '.', 'é', '\u{10FFFF}'] {
        assert_eq!(base64_digit(c), None);
    }
}

#[test]
fn decodes_single_digit_quantities() {
    assert_eq!(vlq_decode("A"), vec![0]);
    assert_eq!(vlq_decode("C"), vec![1]);
    assert_eq!(vlq_decode("D"), vec![-1]);
    assert_eq!(vlq_decode("e"), vec![15]);
    assert_eq!(vlq_decode("f"), vec![-15]);
}

#[test]
fn negative_zero_is_zero() {
    assert_eq!(vlq_decode("B"), vec![0]);
}

#[test]
fn decodes_continued_quantities() {
    assert_eq!(vlq_decode("gB"), vec![16]);
    assert_eq!(vlq_decode("hB"), vec![-16]);
    assert_eq!(vlq_decode("+f"), vec![511]);
    assert_eq!(vlq_decode("ggB"), vec![512]);
    assert_eq!(vlq_decode("2HwcqxB"), vec![123, 456, 789]);
}

#[test]
fn decodes_segments_of_four_and_five_fields() {
    assert_eq!(vlq_decode("AAAA"), vec![0, 0, 0, 0]);
    assert_eq!(vlq_decode("UAASA"), vec![10, 0, 0, 9, 0]);
    assert_eq!(vlq_decode("KAAK"), vec![5, 0, 0, 5]);
}

#[test]
fn empty_segment_has_no_fields() {
    assert_eq!(vlq_decode(""), Vec::<i32>::new());
}

#[test]
fn unrecognized_characters_are_skipped() {
    assert_eq!(vlq_decode("A A"), vec![0, 0]);
    assert_eq!(vlq_decode("=U=A*A\tS\u{e9}A"), vec![10, 0, 0, 9, 0]);
    assert_eq!(vlq_decode("g-B"), vec![16]);
    assert_eq!(vlq_decode("!?"), Vec::<i32>::new());
}

#[test]
fn unfinished_quantity_is_dropped() {
    assert_eq!(vlq_decode("g"), Vec::<i32>::new());
    assert_eq!(vlq_decode("Ag"), vec![0]);
    assert_eq!(vlq_decode("+/"), Vec::<i32>::new());
    assert_eq!(vlq_decode("/////////"), Vec::<i32>::new());
}

#[test]
fn round_trip_at_shift_thresholds() {
    let mut samples: Vec<i64> = vec![0, 1, -1, 2, -2, 7, -7, 123, -456, 789_012, -3_456_789];
    for bits in [4u32, 9, 14, 19, 24, 29] {
        let threshold: i64 = 1 << bits;
        for v in [threshold - 1, threshold, threshold + 1] {
            samples.push(v);
            samples.push(-v);
        }
    }
    samples.push((1 << 30) - 1);
    samples.push(-((1 << 30) - 1));
    for v in samples {
        assert_eq!(vlq_decode(&encode(v)), vec![v as i32], "value {}", v);
    }
}

#[test]
fn round_trip_over_a_wide_sample() {
    let mut v: i64 = -((1 << 30) - 1);
    while v < (1 << 30) {
        assert_eq!(vlq_decode(&encode(v)), vec![v as i32], "value {}", v);
        v += 1_048_573;
    }
    for v in -2000i64..2000 {
        assert_eq!(vlq_decode(&encode(v)), vec![v as i32], "value {}", v);
    }
}

#[test]
fn round_trip_of_a_sequence() {
    let values: Vec<i64> = vec![0, -1, 31, -32, 1_000_000, -1_073_741_823, 1_073_741_823, 16];
    let mut text = String::new();
    for v in &values {
        text.push_str(&encode(*v));
    }
    let expected: Vec<i32> = values.iter().map(|v| *v as i32).collect();
    assert_eq!(vlq_decode(&text), expected);
}

#[test]
fn encodings_at_the_thresholds() {
    assert_eq!(encode(15), "e");
    assert_eq!(encode(16), "gB");
    assert_eq!(encode(-16), "hB");
    assert_eq!(encode(536_870_912), "ggggggB");
    assert_eq!(encode(1_073_741_823), "+/////B");
    assert_eq!(encode(-1_073_741_823), "//////B");
}

#[test]
fn seventh_digit_reaches_the_sign_bit() {
    assert_eq!(vlq_decode("ggggggB"), vec![536_870_912]);
    assert_eq!(vlq_decode("ggggggD"), vec![-536_870_912]);
    assert_eq!(vlq_decode("+/////B"), vec![1_073_741_823]);
    assert_eq!(vlq_decode("//////B"), vec![-1_073_741_823]);
}

#[test]
fn accumulator_wraps_at_32_bits() {
    assert_eq!(vlq_decode("ggggggC"), vec![-1_073_741_824]);
    assert_eq!(vlq_decode("hgggggC"), vec![1_073_741_824]);
    assert_eq!(vlq_decode("//////D"), vec![1]);
    assert_eq!(vlq_decode("//////H"), vec![1]);
}

#[test]
fn shift_distance_wraps_at_the_accumulator_width() {
    assert_eq!(vlq_decode("gggggggB"), vec![4]);
}

#[test]
fn decoder_state_is_cleared_between_quantities() {
    assert_eq!(vlq_decode("ggggggCC"), vec![-1_073_741_824, 1]);
    assert_eq!(vlq_decode("gggggggBgB"), vec![4, 16]);
}

#[test]
fn streaming_decoder_matches_vlq_decode() {
    let text = "UAASA";
    let mut decoder = VlqDecoder::new();
    for c in text.chars() {
        decoder.feed(c);
    }
    assert_eq!(decoder.values(), &vec![10, 0, 0, 9, 0]);
    assert_eq!(decoder.finish(), vlq_decode(text));
}

#[test]
fn streaming_decoder_reset_forgets_progress() {
    let mut decoder = VlqDecoder::new();
    decoder.feed('C');
    decoder.feed('g');
    decoder.reset();
    decoder.feed('D');
    assert_eq!(decoder.finish(), vec![-1]);
}
