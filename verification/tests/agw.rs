//! AGW frames.

use b2fmsg::agw::{connect, data, disconnect, Decoder, HEADER_LEN, PID_NO_L3};

#[test]
fn roundtrip_frames() {
    let mut bytes = connect(0, "SA0KAM", "SK0XYZ-10", &[]);
    bytes.extend(data(1, "SA0KAM", "SK0XYZ-10", &[7u8; 300], 128));
    let mut dec = Decoder::default();
    // Arrives in awkward pieces.
    let mut frames = Vec::new();
    for piece in bytes.chunks(17) {
        frames.extend(dec.push(piece).unwrap());
    }
    assert_eq!(frames.len(), 4);
    assert_eq!(frames[0].kind, b'C');
    assert_eq!(frames[0].call_from, "SA0KAM");
    assert_eq!(frames[0].call_to, "SK0XYZ-10");
    assert_eq!(frames[0].pid, PID_NO_L3);
    assert_eq!(frames[1].port, 1);
    assert_eq!(frames[1].data.len(), 128);
    assert_eq!(frames[3].data.len(), 44);
}

#[test]
fn header_layout() {
    let f = disconnect(2, "N0CALL", "N1CALL-5");
    assert_eq!(f.len(), HEADER_LEN);
    assert_eq!(f[0], 2);
    assert_eq!(f[4], b'd');
    assert_eq!(&f[8..14], b"N0CALL");
    assert_eq!(f[14], 0);
    assert_eq!(&f[18..26], b"N1CALL-5");
}

#[test]
fn via_digipeaters() {
    let f = connect(
        0,
        "SA0KAM",
        "SK0XYZ-10",
        &["SK0DIG".into(), "WIDE2-1".into()],
    );
    let frame = Decoder::default().push(&f).unwrap().remove(0);
    assert_eq!(frame.kind, b'v');
    assert_eq!(frame.data[0], 2);
    assert_eq!(&frame.data[1..7], b"SK0DIG");
    assert_eq!(&frame.data[11..18], b"WIDE2-1");
}

#[test]
fn rejects_non_agw_streams() {
    let mut junk = vec![0u8; HEADER_LEN];
    junk[28..32].copy_from_slice(&u32::MAX.to_le_bytes());
    assert!(Decoder::default().push(&junk).is_err());
}
