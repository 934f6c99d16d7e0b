use fex::encoding::{base64_encode, fmt_thousands, ThroughputMeter};

#[test]
fn base64_rfc4648_vectors() {
    assert_eq!(base64_encode(b""), "");
    assert_eq!(base64_encode(b"f"), "Zg==");
    assert_eq!(base64_encode(b"fo"), "Zm8=");
    assert_eq!(base64_encode(b"foo"), "Zm9v");
    assert_eq!(base64_encode(b"foob"), "Zm9vYg==");
    assert_eq!(base64_encode(b"fooba"), "Zm9vYmE=");
    assert_eq!(base64_encode(b"foobar"), "Zm9vYmFy");
}

#[test]
fn base64_uses_plus_and_slash() {
    assert_eq!(base64_encode(&[0xfb, 0xff, 0xbf]), "+/+/");
    assert_eq!(base64_encode(&[0x00, 0x00, 0x00]), "AAAA");
    assert_eq!(base64_encode(&[0xff]), "/w==");
}

#[test]
fn base64_length_is_four_per_group() {
    for n in 0..40usize {
        let data: Vec<u8> = (0..n).map(|i| (i * 37 % 256) as u8).collect();
        let s = base64_encode(&data);
        assert_eq!(s.len(), (n + 2) / 3 * 4);
        assert!(s.chars().all(|c| c.is_ascii_alphanumeric() || c == '+' || c == '/' || c == '='));
        if n % 3 == 0 {
            assert!(!s.contains('='));
        }
    }
}

#[test]
fn fmt_thousands_groups_digits() {
    assert_eq!(fmt_thousands(0), "0");
    assert_eq!(fmt_thousands(7), "7");
    assert_eq!(fmt_thousands(999), "999");
    assert_eq!(fmt_thousands(1000), "1_000");
    assert_eq!(fmt_thousands(1540158), "1_540_158");
    assert_eq!(fmt_thousands(165916), "165_916");
    assert_eq!(fmt_thousands(100000000), "100_000_000");
}

#[test]
fn fmt_thousands_keeps_every_digit() {
    for n in [0usize, 5, 12, 123, 1234, 98765, 4294967295, usize::MAX] {
        let s = fmt_thousands(n);
        assert_eq!(s.replace('_', ""), n.to_string());
    }
}

#[test]
fn throughput_reports_deltas() {
    let mut m = ThroughputMeter::new();
    assert_eq!(m.tick(100), 100);
    assert_eq!(m.tick(250), 150);
    assert_eq!(m.tick(250), 0);
    assert_eq!(m.tick(10), 0);
    assert_eq!(m.last, 10);
}

fn decode_standard(s: &str) -> Vec<u8> {
    let value = |c: u8| -> u32 {
        match c {
            b'A'..=b'Z' => (c - b'A') as u32,
            b'a'..=b'z' => (c - b'a') as u32 + 26,
            b'0'..=b'9' => (c - b'0') as u32 + 52,
            b'+' => 62,
            b'/' => 63,
            _ => 0,
        }
    };
    let mut out = Vec::new();
    for q in s.as_bytes().chunks(4) {
        let v = value(q[0]) << 18 | value(q[1]) << 12 | value(q[2]) << 6 | value(q[3]);
        out.push((v >> 16) as u8);
        if q[2] != b'=' {
            out.push((v >> 8) as u8);
        }
        if q[3] != b'=' {
            out.push(v as u8);
        }
    }
    out
}

#[test]
fn base64_decodes_back_to_the_input() {
    let inputs: Vec<Vec<u8>> = vec![
        vec![],
        vec![0],
        vec![255, 254],
        b"hello world".to_vec(),
        (0u8..=255).collect(),
    ];
    for data in inputs {
        assert_eq!(decode_standard(&base64_encode(&data)), data);
    }
}

#[test]
fn base64_of_joined_parts_when_first_is_whole_groups() {
    let a = b"foobar".to_vec();
    let b = b"hi!?".to_vec();
    let joined = [a.clone(), b.clone()].concat();
    assert_eq!(base64_encode(&joined), base64_encode(&a) + &base64_encode(&b));
    assert_eq!(base64_encode(&joined), "Zm9vYmFyaGkhPw==");
}

#[test]
fn fmt_thousands_group_shape() {
    for n in [0usize, 7, 999, 1000, 65536, 1234567, usize::MAX] {
        let s = fmt_thousands(n);
        let groups: Vec<&str> = s.split('_').collect();
        assert!((1..=3).contains(&groups[0].len()));
        for g in &groups[1..] {
            assert_eq!(g.len(), 3);
        }
    }
}
