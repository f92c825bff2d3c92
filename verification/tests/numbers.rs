use beheader::number::{decimal_string, parse_lone_number, parse_number, parse_second_number};
use beheader::stream::{build_stream_header, find_stream_len};

fn lone(s: &[u8]) -> Option<usize> {
    String::from_utf8_lossy(s).trim().parse().ok()
}

fn second(s: &[u8]) -> Option<usize> {
    let text = String::from_utf8_lossy(s).to_string();
    let words: Vec<&str> = text.trim().split_whitespace().collect();
    words.get(1).and_then(|w| w.parse().ok())
}

#[test]
fn numbers_are_read() {
    assert_eq!(parse_number(b"0012"), Some(12));
    assert_eq!(parse_number(b"+7"), Some(7));
    assert_eq!(parse_number(b"+"), None);
    assert_eq!(parse_number(b""), None);
    assert_eq!(parse_number(b"-0"), None);
    assert_eq!(parse_number(b"++1"), None);
    let max = usize::MAX.to_string();
    assert_eq!(parse_number(max.as_bytes()), Some(usize::MAX));
    assert_eq!(parse_number((max + "0").as_bytes()), None);
    assert_eq!(parse_number((usize::MAX as u128 + 1).to_string().as_bytes()), None);
}

#[test]
fn white_space_is_that_of_unicode() {
    for code in 0..=0x10ffffu32 {
        if let Some(c) = char::from_u32(code) {
            let text = format!("{c}12{c}");
            assert_eq!(parse_lone_number(text.as_bytes()), lone(text.as_bytes()), "{code:x}");
            let two = format!("1{c}2");
            assert_eq!(parse_second_number(two.as_bytes()), second(two.as_bytes()), "{code:x}");
        }
    }
}

#[test]
fn bytes_that_are_no_text_are_read_alike() {
    let alphabet = [
        0x20u8, 0x31, 0x32, 0x0a, 0xe2, 0x80, 0x81, 0x9f, 0xc2, 0xa0, 0x85, 0xe1, 0x9a, 0xe3, 0xf0,
        0xff, 0x2b, 0x30,
    ];
    let mut state = 12345u64;
    for _ in 0..300000 {
        let mut s = Vec::new();
        state = state.wrapping_mul(6364136223846793005).wrapping_add(1442695040888963407);
        let len = (state >> 60) as usize % 9;
        for _ in 0..len {
            state = state.wrapping_mul(6364136223846793005).wrapping_add(1442695040888963407);
            s.push(alphabet[(state >> 40) as usize % alphabet.len()]);
        }
        assert_eq!(parse_lone_number(&s), lone(&s), "{s:?}");
        assert_eq!(parse_second_number(&s), second(&s), "{s:?}");
    }
}

#[test]
fn second_words_are_read() {
    assert_eq!(parse_second_number(b"0 6"), Some(6));
    assert_eq!(parse_second_number(b"  0   6 f"), Some(6));
    assert_eq!(parse_second_number(b"0"), None);
    assert_eq!(parse_second_number(b"0 x"), None);
    assert_eq!(parse_second_number(b""), None);
}

#[test]
fn decimals_are_those_of_std() {
    for n in [0usize, 1, 9, 10, 99, 100, 12345, usize::MAX] {
        assert_eq!(decimal_string(n), n.to_string());
        assert_eq!(parse_number(decimal_string(n).as_bytes()), Some(n));
    }
}

#[test]
fn stream_and_header_fill_the_room() {
    assert_eq!(find_stream_len(60, 99), Some(9));
    assert_eq!(find_stream_len(60, 100), None);
    assert_eq!(find_stream_len(60, 101), Some(10));
    assert_eq!(find_stream_len(36, 500), Some(432));
    assert_eq!(find_stream_len(90, 100), None);
    assert_eq!(find_stream_len(200, 100), None);
    assert_eq!(build_stream_header(432), b"\n1 0 obj\n<</Length 432>>\nstream\n".to_vec());
    for total in 300..3000 {
        if let Some(l) = find_stream_len(40, total) {
            assert_eq!(40 + build_stream_header(l).len() + l, total);
        }
    }
}
