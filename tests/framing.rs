use gax::framing::{self, FramingError};
use gax::{gam, gamp};

fn messages(n: usize) -> Vec<Vec<u8>> {
    (0..n).map(|i| vec![(i % 251) as u8, (i / 251) as u8, 7]).collect()
}

#[test]
fn gam_round_trip() {
    let msgs = messages(3);
    let bytes = gam::write(&msgs).unwrap();
    assert_eq!(&bytes[..2], &[0x1f, 0x8b]);
    assert_eq!(gam::parse(&bytes).unwrap(), msgs);
}

#[test]
fn gam_empty_round_trip() {
    assert!(gamp::write(&[]).is_ok());
    let bytes = gam::write(&[]).unwrap();
    assert_eq!(gam::parse(&bytes).unwrap(), Vec::<Vec<u8>>::new());
}

#[test]
fn gam_large_batch_is_two_groups() {
    let msgs = messages(1500);
    let plain = framing::frame(&msgs, b"GAM");
    // first group: 1000 messages, so the count varint holds 1001
    assert_eq!(&plain[..2], &[0xe9, 0x07]);
    assert_eq!(&plain[2..6], &[3, b'G', b'A', b'M']);
    let second = 2 + 1 + 3 + 1000 * 4;
    // second group: 500 messages
    assert_eq!(&plain[second..second + 2], &[0xf5, 0x03]);
    let bytes = gam::write(&msgs).unwrap();
    assert_eq!(gam::parse(&bytes).unwrap(), msgs);
}

#[test]
fn gamp_rejects_gam_tag() {
    let bytes = gam::write(&messages(2)).unwrap();
    match gamp::parse(&bytes) {
        Err(FramingError::InvalidTypeTag(found, expected)) => {
            assert_eq!(found, "GAM");
            assert_eq!(expected, "MGAM");
        },
        other => panic!("unexpected: {:?}", other),
    }
    let bytes = gamp::write(&messages(2)).unwrap();
    assert_eq!(gamp::parse(&bytes).unwrap(), messages(2));
}

#[test]
fn framing_errors() {
    assert!(matches!(gam::parse(b"not gzip at all"), Err(FramingError::Io(_))));
    assert!(matches!(framing::unframe(&[2, 3, b'G', b'A'], b"GAM"), Err(FramingError::Truncated)));
    assert!(matches!(framing::unframe(&[2, 3, b'G', b'A', b'M', 5, 1], b"GAM"), Err(FramingError::Truncated)));
    assert!(matches!(framing::unframe(&[0x80], b"GAM"), Err(FramingError::Truncated)));
    assert!(matches!(framing::unframe(&[0xff; 11], b"GAM"), Err(FramingError::InvalidVarint)));
    assert!(matches!(framing::unframe(&[0, 3, b'G', b'A', b'M'], b"GAM"), Err(FramingError::InvalidGroupCount)));
    assert!(matches!(framing::unframe(&[1, 2, 0xff, 0xfe], b"GAM"), Err(FramingError::Utf8)));
    assert_eq!(framing::unframe(&[1, 3, b'G', b'A', b'M'], b"GAM").unwrap(), Vec::<Vec<u8>>::new());
}

#[test]
fn framing_varint_values() {
    let plain = framing::frame(&[vec![0u8; 300]], b"GAM");
    assert_eq!(&plain[..5], &[2, 3, b'G', b'A', b'M']);
    assert_eq!(&plain[5..7], &[0xac, 0x02]);
    assert_eq!(plain.len(), 7 + 300);
}
