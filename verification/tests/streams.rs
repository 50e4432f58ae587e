use for_util::error::Error;
use for_util::store::{ByteInput, ByteOutput};

fn vint(value: u32) -> Vec<u8> {
    let mut out = ByteOutput::new();
    out.write_vint(value);
    out.into_bytes()
}

#[test]
fn vint_exact_bytes() {
    assert_eq!(vint(0), vec![0x00]);
    assert_eq!(vint(1), vec![0x01]);
    assert_eq!(vint(127), vec![0x7f]);
    assert_eq!(vint(128), vec![0x80, 0x01]);
    assert_eq!(vint(300), vec![0xac, 0x02]);
    assert_eq!(vint(16383), vec![0xff, 0x7f]);
    assert_eq!(vint(16384), vec![0x80, 0x80, 0x01]);
    assert_eq!(vint(1 << 28), vec![0x80, 0x80, 0x80, 0x80, 0x01]);
    assert_eq!(vint(u32::MAX), vec![0xff, 0xff, 0xff, 0xff, 0x0f]);
}

#[test]
fn vint_round_trip() {
    let samples: [u32; 14] = [
        0,
        1,
        127,
        128,
        255,
        16383,
        16384,
        2097151,
        2097152,
        268435455,
        268435456,
        0x7fff_ffff,
        0x8000_0000,
        u32::MAX,
    ];
    let mut out = ByteOutput::new();
    for value in samples {
        out.write_vint(value);
    }
    let mut input = ByteInput::new(out.into_bytes());
    for value in samples {
        assert_eq!(input.read_vint(), Ok(value));
    }
    assert_eq!(input.file_pointer(), input.len());
    assert_eq!(input.read_vint(), Err(Error::UnexpectedEof));
}

#[test]
fn vint_accepts_padded_forms() {
    let mut input = ByteInput::new(vec![0x80, 0x00, 0x85, 0x80, 0x80, 0x80, 0x00]);
    assert_eq!(input.read_vint(), Ok(0));
    assert_eq!(input.file_pointer(), 2);
    assert_eq!(input.read_vint(), Ok(5));
    assert_eq!(input.file_pointer(), 7);
}

#[test]
fn vint_failures_consume_nothing() {
    let mut input = ByteInput::new(vec![0x05, 0x80, 0x80]);
    assert_eq!(input.read_vint(), Ok(5));
    assert_eq!(input.read_vint(), Err(Error::UnexpectedEof));
    assert_eq!(input.file_pointer(), 1);
    let mut input = ByteInput::new(vec![0xff, 0xff, 0xff, 0xff, 0x10, 0x00]);
    assert_eq!(input.read_vint(), Err(Error::InvalidVInt));
    assert_eq!(input.file_pointer(), 0);
    let mut input = ByteInput::new(vec![0xff, 0xff, 0xff, 0xff, 0x8f, 0x00]);
    assert_eq!(input.read_vint(), Err(Error::InvalidVInt));
    let mut input = ByteInput::new(vec![0xff, 0xff, 0xff, 0xff]);
    assert_eq!(input.read_vint(), Err(Error::UnexpectedEof));
}

#[test]
fn bytes_are_read_in_order() {
    let mut input = ByteInput::new(vec![10, 20, 30, 40, 50]);
    assert_eq!(input.len(), 5);
    assert_eq!(input.file_pointer(), 0);
    assert_eq!(input.read_byte(), Ok(10));
    let mut buf = [0u8; 4];
    assert_eq!(input.read_exact(&mut buf, 3), Ok(()));
    assert_eq!(buf, [20, 30, 40, 0]);
    assert_eq!(input.file_pointer(), 4);
    assert_eq!(input.read_exact(&mut buf, 2), Err(Error::UnexpectedEof));
    assert_eq!(buf, [20, 30, 40, 0]);
    assert_eq!(input.file_pointer(), 4);
    assert_eq!(input.read_exact(&mut buf, 0), Ok(()));
    assert_eq!(input.read_byte(), Ok(50));
    assert_eq!(input.read_byte(), Err(Error::UnexpectedEof));
    assert_eq!(input.file_pointer(), 5);
}

#[test]
fn seek_stays_inside_the_input() {
    let mut input = ByteInput::new(vec![1, 2, 3]);
    assert_eq!(input.seek(3), Ok(()));
    assert_eq!(input.file_pointer(), 3);
    assert_eq!(input.seek(4), Err(Error::UnexpectedEof));
    assert_eq!(input.file_pointer(), 3);
    assert_eq!(input.seek(1), Ok(()));
    assert_eq!(input.read_byte(), Ok(2));
}

#[test]
fn output_grows_at_its_end() {
    let mut out = ByteOutput::new();
    assert_eq!(out.file_pointer(), 0);
    out.write_byte(7);
    out.write_bytes(&[1, 2, 3, 4, 5], 1, 3);
    out.write_bytes(&[9], 1, 0);
    out.write_vint(200);
    assert_eq!(out.file_pointer(), 6);
    assert_eq!(out.into_bytes(), vec![7, 2, 3, 4, 0xc8, 0x01]);
}
