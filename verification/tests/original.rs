use varint::{
    BoundedSink, IoError, IoErrorKind, SliceSource, Varint, VarintError, VarintReader,
    VarintWriter,
};

fn check_read<V: Varint + PartialEq + std::fmt::Debug>(
    buf: &[u8],
    expected: Result<V, VarintError<IoError>>,
) {
    let mut r = SliceSource::new(buf);
    assert_eq!(r.read_le_varint(), expected);
}

#[test]
fn read_le_varint() {
    check_read(&[0x00], Ok(0x00u32));
    check_read(&[0x7F], Ok(0x7Fu32));
    check_read(&[0x80, 0x01], Ok(0x80u32));
    check_read(&[0xAC, 0x02], Ok(300u32));
    check_read(&[0x80, 0x01], Ok(0x80u8));
    check_read(
        &[0xFF, 0xFF, 0xFF, 0xFF, 0xFF, 0xFF, 0xFF, 0xFF, 0xFF, 0x01],
        Ok(0xFFFFFFFFFFFFFFFFu64),
    );
}

#[test]
fn read_le_varint_owerflow() {
    check_read::<u8>(&[0xAC, 0x02], Err(VarintError::Overflow));
    check_read::<u64>(
        &[0xFF, 0xFF, 0xFF, 0xFF, 0xFF, 0xFF, 0xFF, 0xFF, 0xFF, 0x7F],
        Err(VarintError::Overflow),
    );
}

fn check_write<V: Varint + PartialEq + std::fmt::Debug>(x: V, result: &[u8]) {
    let mut w = BoundedSink::new(10);
    let r = w.write_le_varint(x);
    assert_eq!(Ok(result.len()), r);
    let n = r.unwrap();
    assert_eq!(&w.as_slice()[..n], result);
}

#[test]
fn write_le_varint() {
    check_write(0x00u32, &[0x00]);
    check_write(0x7Fu32, &[0x7F]);
    check_write(0x80u32, &[0x80, 0x01]);
    check_write(300u32, &[0xAC, 0x02]);
    check_write(0x80u8, &[0x80, 0x01]);
    check_write(
        0xFFFFFFFFFFFFFFFFu64,
        &[0xFF, 0xFF, 0xFF, 0xFF, 0xFF, 0xFF, 0xFF, 0xFF, 0xFF, 0x01],
    );
}

#[test]
fn write_le_varint_erro_is_reported() {
    let mut w = BoundedSink::new(1);
    match w.write_le_varint(0x80u32) {
        Err(ref err) if err.kind == IoErrorKind::OtherIoError => {}
        res => panic!("{:?}", res),
    }
}
