//! Packed polygons, base64 and variable-length integers.
use tzconvert::polycodec::{
    base64_decode, base64_encode, decode_polygon, decode_vectors, encode_polygon, encode_vectors,
};
use tzconvert::serialize::leb::{read_svar, read_uvar, write_svar, write_uvar};
use tzconvert::serialize::qvarint::{
    read_q, representable, try_read_q, unzigzag, write_q, zigzag, Q_MAX,
};

#[test]
fn round_trips_far_from_origin() {
    for poly in [
        vec![[10, 10], [20, 20], [30, 10]],
        vec![[400000, 100000], [400010, 100010]],
        vec![[-524288, -262144], [-524200, -262100]],
        vec![[10, 10], [10, -2000], [500, 500]],
    ] {
        let (o, p) = encode_polygon(&poly);
        assert_eq!(decode_polygon(o, &p), poly);
    }
}

#[test]
fn form_selection() {
    assert_eq!(encode_vectors(&[[0, 0]]).len(), 2);
    assert_eq!(encode_vectors(&[[63, -64]]).len(), 2);
    assert_eq!(encode_vectors(&[[64, 0]]).len(), 3);
    assert_eq!(encode_vectors(&[[1024, 0]]).len(), 5);
    assert_eq!(encode_vectors(&[[262144, 0]]).len(), 6);
}

#[test]
fn base64_roundtrip() {
    for n in [0usize, 1, 2, 3, 4, 5, 100, 255] {
        let data: Vec<u8> = (0..n).map(|i| (i * 37 % 256) as u8).collect();
        assert_eq!(base64_decode(&base64_encode(&data)), data);
    }
}

#[test]
fn packed_bytes_are_the_documented_forms() {
    // 11aaaaaa abbbbbbb
    assert_eq!(encode_vectors(&[[1, -1]]), vec![0b1100_0000, 0b1111_1111]);
    // 10aaaaaa aaaaabbb bbbbbbbb
    assert_eq!(encode_vectors(&[[1000, 0]]), vec![0x9f, 0x40, 0x00]);
    assert_eq!(encode_vectors(&[[0, -1000]]), vec![0x80, 0x04, 0x18]);
    // 00aaaaaa aaaaaaaa aaaaabbb bbbbbbbb bbbbbbbb
    assert_eq!(encode_vectors(&[[1024, 1]]), vec![0x00, 0x20, 0x00, 0x00, 0x01]);
    // 01aaaaaa aaaaaaaa aaaaaaaa aaabbbbb bbbbbbbb bbbbbbbb
    assert_eq!(encode_vectors(&[[-1, 262144]]), vec![0x7f, 0xff, 0xff, 0x84, 0x00, 0x00]);
    let all = vec![[1, -1], [1000, 0], [0, -1000], [1024, 1], [-1, 262144]];
    assert_eq!(decode_vectors(&encode_vectors(&all)), all);
}

#[test]
fn base64_text() {
    assert_eq!(base64_encode(b""), "");
    assert_eq!(base64_encode(b"M"), "TQ==");
    assert_eq!(base64_encode(b"Ma"), "TWE=");
    assert_eq!(base64_encode(b"Man"), "TWFu");
    assert_eq!(base64_encode(&[0xfb, 0xff]), "+/8=");
    assert_eq!(base64_decode("TWFu"), b"Man".to_vec());
}

#[test]
fn empty_polygon() {
    assert_eq!(encode_polygon(&[]), ([0, 0], vec![]));
    assert_eq!(decode_polygon([7, 8], &[]), vec![[7, 8]]);
}

#[test]
fn q_roundtrip() {
    for q in [0u64, 1, 127, 128, 129, 16511, 16514, 16516, 100000, Q_MAX] {
        let mut buf = Vec::new();
        write_q(&mut buf, q);
        let mut pos = 0;
        assert_eq!(read_q(&buf, &mut pos), q, "q={q}");
        assert_eq!(pos, buf.len());
    }
}

#[test]
fn q_form_sizes() {
    let sz = |q| {
        let mut b = Vec::new();
        write_q(&mut b, q);
        b.len()
    };
    assert_eq!(sz(0), 1);
    assert_eq!(sz(127), 1);
    assert_eq!(sz(128), 2);
    assert_eq!(sz(16511), 2);
    assert_eq!(sz(16514), 3);
}

#[test]
fn representable_is_exact_below_c() {
    for n in [0u64, 1, 8, 127, 128, 16511] {
        assert_eq!(representable(n), n);
    }
    assert_eq!(representable(16512), 16514);
    assert_eq!(representable(16515), 16516);
}

#[test]
fn zigzag_roundtrip() {
    for n in [0i64, 1, -1, 2, -2, 100, -100, i32::MAX as i64, i32::MIN as i64] {
        assert_eq!(unzigzag(zigzag(n)), n, "n={n}");
    }
}

#[test]
fn q_bytes_are_the_documented_forms() {
    let code = |q| {
        let mut b = Vec::new();
        write_q(&mut b, q);
        b
    };
    assert_eq!(code(5), vec![5]);
    assert_eq!(code(128), vec![0x80, 0x00]);
    assert_eq!(code(16511), vec![0xbf, 0xff]);
    assert_eq!(code(16514), vec![0xc0, 0x00, 0x00]);
    assert_eq!(code(Q_MAX), vec![0xff, 0xff, 0xff]);
    assert_eq!(Q_MAX, 2 * 0x3F_FFFF + 16514);
}

#[test]
fn q_cut_short() {
    let mut pos = 0;
    assert_eq!(try_read_q(&[], &mut pos), None);
    assert_eq!(try_read_q(&[0x80], &mut pos), None);
    assert_eq!(try_read_q(&[0xc0, 0], &mut pos), None);
    assert_eq!(try_read_q(&[0x80, 1], &mut pos), Some(129));
    assert_eq!(pos, 2);
}

#[test]
fn zigzag_order() {
    assert_eq!([0i64, -1, 1, -2, 2].map(zigzag), [0, 1, 2, 3, 4]);
    assert_eq!(unzigzag(zigzag(i64::MIN)), i64::MIN);
    assert_eq!(zigzag(i64::MIN), u64::MAX);
}

#[test]
fn leb_values() {
    let mut buf = Vec::new();
    write_uvar(&mut buf, 300);
    assert_eq!(buf, vec![0xac, 0x02]);
    write_svar(&mut buf, -3);
    assert_eq!(buf[2], 5);
    write_uvar(&mut buf, u64::MAX);
    let mut pos = 0;
    assert_eq!(read_uvar(&buf, &mut pos), Some(300));
    assert_eq!(read_svar(&buf, &mut pos), Some(-3));
    assert_eq!(read_uvar(&buf, &mut pos), Some(u64::MAX));
    assert_eq!(pos, buf.len());
    assert_eq!(read_uvar(&buf, &mut pos), None);
}

#[test]
fn varint_high_bits_are_dropped() {
    // Ten groups hold 70 bits, of which 64 count.
    let mut bytes = vec![0xFF; 9];
    bytes.push(0x7F);
    let mut pos = 0;
    assert_eq!(read_uvar(&bytes, &mut pos), Some(u64::MAX));
    assert_eq!(pos, 10);
    let mut low = vec![0x80; 9];
    low.push(0x02);
    pos = 0;
    assert_eq!(read_uvar(&low, &mut pos), Some(0));
    // Eleven groups are no code.
    let mut long = vec![0x80; 10];
    long.push(0);
    pos = 0;
    assert_eq!(read_uvar(&long, &mut pos), None);
}
