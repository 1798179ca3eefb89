use rollback::session::InputFrame;
use rollback::wire::{decode_input, encode_input};

#[test]
fn encode_exact_bytes() {
    let m = InputFrame { handle: 1, frame: 300, bits: 17 };
    let b = encode_input(&m);
    assert_eq!(b, vec![1, 0, 44, 1, 0, 0, 0, 0, 0, 0, 17]);
}

#[test]
fn codec_round_trip() {
    for m in [
        InputFrame { handle: 0, frame: 0, bits: 0 },
        InputFrame { handle: 1, frame: 300, bits: 17 },
        InputFrame { handle: 65535, frame: 123_456_789_012, bits: 31 },
    ] {
        let b = encode_input(&m);
        assert_eq!(decode_input(&b), Some(m));
    }
}

#[test]
fn decode_rejects_wrong_length() {
    assert_eq!(decode_input(&vec![]), None);
    assert_eq!(decode_input(&vec![0; 10]), None);
    assert_eq!(decode_input(&vec![0; 12]), None);
}

#[test]
fn decode_rejects_reserved_bits() {
    let m = InputFrame { handle: 0, frame: 0, bits: 0 };
    let mut b = encode_input(&m);
    b[10] = 0x40;
    assert_eq!(decode_input(&b), None);
}
