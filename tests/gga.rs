use nmea_gga::{calculate_sentence_length, extract_gga, is_gga};
use rand::Rng;

fn shift_buffer(buffer: &mut [u8; 1024], sentence: &[u8], dest: usize) {
    let mut i = dest;
    for &b in sentence {
        buffer[i] = b;
        i = (i + 1) & 1023;
    }
}

const GGA_NO_TIME_NO_FIX: [u8; 32] = *b"$GNGGA,,,,,,0,00,25.5,,,,,,*64\r\n";
const GGA_WITH_TIME_NO_FIX: [u8; 42] = *b"$GNGGA,051154.000,,,,,0,00,25.5,,,,,,*7E\r\n";

const GGA_WITH_TIME_WITH_FIX: [(&[u8], [u8; 10]); 5] = [
    (
        b"$GNGGA,051200.993,2734.21973,S,15303.08927,E,1,07,2.8,103.4,M,41.1,M,,*59\r\n",
        [162, 248, 225, 210, 91, 54, 169, 63, 1, 28],
    ),
    (
        b"$GNGGA,051337.000,2734.22815,S,15303.09174,E,1,15,0.9,84.6,M,41.1,M,,*6E\r\n",
        [162, 249, 2, 182, 91, 54, 170, 54, 1, 9],
    ),
    (
        b"$GPGGA,181501.000,3944.50086,N,10459.16654,W,1,03,2.10,84.6,M,41.1,M,,*6E\r\n",
        [235, 28, 78, 124, 62, 87, 107, 238, 2, 21],
    ),
    (
        b"$GPGGA,181501.000,3944.50086,N,00459.16654,E,1,03,9.50,84.6,M,41.1,M,,*6E\r\n",
        [235, 28, 78, 124, 2, 188, 161, 238, 3, 95],
    ),
    (
        b"$GNGGA,181501.000,3615.12012,S,06357.25158,W,1,03,39.9,84.6,M,41.1,M,,*6E\r\n",
        [215, 122, 90, 248, 37, 228, 101, 102, 0, 255],
    ),
];

#[test]
fn test_is_gga() {
    let mut buffer: [u8; 1024] = [0; 1024];
    for i in 0..1024 {
        shift_buffer(&mut buffer, &GGA_WITH_TIME_WITH_FIX[0].0, i);
        assert!(!is_gga(&buffer, (i.wrapping_sub(1)) & 1023));
        assert!(is_gga(&buffer, i));
        assert!(!is_gga(&buffer, (i + 1) & 1023));
    }
}

#[test]
fn test_calculate_sentence_length() {
    let mut rng = rand::rng();
    let mut ndtr: u16 = 1024;
    let mut sentence_begin = 0;

    for _ in 0..1000000 {
        let actual_sentence_length = rng.random_range(1..83);
        ndtr = ndtr.wrapping_sub(actual_sentence_length as u16) & 1023;
        let sentence_length = calculate_sentence_length(ndtr, sentence_begin);
        assert_eq!(actual_sentence_length, sentence_length);
        sentence_begin = (sentence_begin + sentence_length) & 1023;
    }
}

#[test]
fn test_no_time_no_fix() {
    let mut position_block = [0; 10];
    let mut buffer: [u8; 1024] = [0; 1024];
    for i in 0..1024 {
        shift_buffer(&mut buffer, &GGA_NO_TIME_NO_FIX, i);
        let parsed = extract_gga(&buffer, i, &mut position_block);
        assert!(!parsed);
        assert_eq!(position_block, [0; 10]);
    }
}

#[test]
fn test_with_time_no_fix() {
    let mut position_block = [0; 10];
    let mut buffer: [u8; 1024] = [0; 1024];
    for i in 0..1024 {
        shift_buffer(&mut buffer, &GGA_WITH_TIME_NO_FIX, i);
        let parsed = extract_gga(&buffer, i, &mut position_block);
        assert!(!parsed);
        assert_eq!(position_block, [0; 10]);
    }
}

#[test]
fn test_with_time_with_fix() {
    let mut position_block = [0; 10];
    let mut buffer: [u8; 1024] = [0; 1024];
    for (sentence, expected_position_block) in GGA_WITH_TIME_WITH_FIX.iter() {
        for i in 0..1024 {
            shift_buffer(&mut buffer, sentence, i);
            let parsed = extract_gga(&buffer, i, &mut position_block);
            assert!(parsed);
            assert_eq!(position_block, *expected_position_block);
        }
    }
}

fn decode_at(sentence: &[u8], at: usize) -> (bool, [u8; 10]) {
    let mut buffer: [u8; 1024] = [b'x'; 1024];
    shift_buffer(&mut buffer, sentence, at);
    let mut block = [7u8; 10];
    let parsed = extract_gga(&buffer, at, &mut block);
    (parsed, block)
}

#[test]
fn no_fix_leaves_record_untouched() {
    for at in [0usize, 500, 1000, 1023] {
        assert_eq!(decode_at(&GGA_NO_TIME_NO_FIX, at), (false, [7u8; 10]));
        assert_eq!(decode_at(&GGA_WITH_TIME_NO_FIX, at), (false, [7u8; 10]));
    }
}

#[test]
fn rotation_keeps_classification_of_other_sentences() {
    let rmc = b"$GNRMC,051200.993,A,2734.21973,S,15303.08927,E,0.0,0.0,010124,,,A*6E\r\n";
    let mut buffer: [u8; 1024] = [0; 1024];
    for i in 0..1024 {
        shift_buffer(&mut buffer, rmc, i);
        assert!(!is_gga(&buffer, i));
    }
}

#[test]
fn classifier_ignores_talker_id() {
    let mut buffer: [u8; 1024] = [0; 1024];
    shift_buffer(&mut buffer, b"$XYGGA,", 1020);
    assert!(is_gga(&buffer, 1020));
    shift_buffer(&mut buffer, b"$GPGGB,", 1020);
    assert!(!is_gga(&buffer, 1020));
}

#[test]
fn sentence_length_edge_cases() {
    assert_eq!(calculate_sentence_length(1000, 10), 14);
    assert_eq!(calculate_sentence_length(1000, 100), 948);
    assert_eq!(calculate_sentence_length(0, 0), 1024);
    assert_eq!(calculate_sentence_length(1024, 0), 1024);
    assert_eq!(calculate_sentence_length(24, 1000), 1024);
    assert_eq!(calculate_sentence_length(1023, 1023), 2);
    assert_eq!(calculate_sentence_length(0, 1023), 1);
}

#[test]
fn sentence_length_round_trip_across_wrap() {
    let lengths = [82usize, 1, 40, 77, 13, 82, 82, 82, 82, 82, 82, 82, 82, 82, 82, 82, 5];
    let mut ndtr: u16 = 1024;
    let mut sentence_begin = 0;
    let mut wrapped = false;
    for &len in lengths.iter() {
        ndtr = ndtr.wrapping_sub(len as u16) & 1023;
        assert_eq!(calculate_sentence_length(ndtr, sentence_begin), len);
        let next = (sentence_begin + len) & 1023;
        wrapped |= next < sentence_begin;
        sentence_begin = next;
    }
    assert!(wrapped);
}

#[test]
fn hdop_single_and_double_digit() {
    let single = b"$GNGGA,051200.993,2734.21973,S,15303.08927,E,1,07,2.8,103.4,M,41.1,M,,*59\r\n";
    assert_eq!(decode_at(single, 3).1[9], 28);
    let double_small = b"$GNGGA,051200.993,2734.21973,S,15303.08927,E,1,07,12.3,103.4,M,41.1,M,,*59\r\n";
    assert_eq!(decode_at(double_small, 1010).1[9], 123);
    let double_edge = b"$GNGGA,051200.993,2734.21973,S,15303.08927,E,1,07,25.5,103.4,M,41.1,M,,*59\r\n";
    assert_eq!(decode_at(double_edge, 0).1[9], 255);
    let double_saturated = b"$GNGGA,051200.993,2734.21973,S,15303.08927,E,1,07,39.9,103.4,M,41.1,M,,*59\r\n";
    assert_eq!(decode_at(double_saturated, 700).1[9], 255);
    let double_over = b"$GNGGA,051200.993,2734.21973,S,15303.08927,E,1,07,25.6,103.4,M,41.1,M,,*59\r\n";
    assert_eq!(decode_at(double_over, 1023).1[9], 255);
}

#[test]
fn hemisphere_bits_are_independent() {
    let cases: [(&[u8], u8); 4] = [
        (b"$GNGGA,051200.993,2734.21973,N,15303.08927,E,1,07,2.8,103.4,M,41.1,M,,*59\r\n", 3),
        (b"$GNGGA,051200.993,2734.21973,N,15303.08927,W,1,07,2.8,103.4,M,41.1,M,,*59\r\n", 2),
        (b"$GNGGA,051200.993,2734.21973,S,15303.08927,E,1,07,2.8,103.4,M,41.1,M,,*59\r\n", 1),
        (b"$GNGGA,051200.993,2734.21973,S,15303.08927,W,1,07,2.8,103.4,M,41.1,M,,*59\r\n", 0),
    ];
    for (sentence, flags) in cases.iter() {
        for at in [0usize, 990, 1023] {
            let (parsed, block) = decode_at(sentence, at);
            assert!(parsed);
            assert_eq!(block[8], *flags);
            assert_eq!(&block[0..8], &[162, 248, 225, 210, 91, 54, 169, 63]);
            assert_eq!(block[9], 28);
        }
    }
}

#[test]
fn latitude_scale_and_wrap() {
    let s = b"$GPGGA,181501.000,4256.97295,N,00000.00000,W,1,03,2.10,84.6,M,41.1,M,,*6E\r\n";
    let (parsed, block) = decode_at(s, 17);
    assert!(parsed);
    let lat = u32::from_be_bytes([block[0], block[1], block[2], block[3]]);
    assert_eq!(lat, 4256972950);
    let lon = u32::from_be_bytes([block[4], block[5], block[6], block[7]]);
    assert_eq!(lon, 0);
    assert_eq!(block[8], 2);
    assert_eq!(block[9], 21);
}

#[test]
fn largest_field_values() {
    let s = b"$GNGGA,000000.000,8959.99999,N,17959.99999,E,1,07,9.9,0.0,M,0.0,M,,*00\r\n";
    let (parsed, block) = decode_at(s, 1000);
    assert!(parsed);
    let lat = u32::from_be_bytes([block[0], block[1], block[2], block[3]]);
    let lon = u32::from_be_bytes([block[4], block[5], block[6], block[7]]);
    assert_eq!(lat, (8959999990u64 % (1u64 << 32)) as u32);
    assert_eq!(lat, 370065398);
    assert_eq!(lon, 1795999999);
    assert_eq!(block[8], 3);
    assert_eq!(block[9], 99);
}
