use ved::teereader::tee;

#[test]
fn test_basic_duplication() {
    let data = b"Hello, world!";
    let mut t = tee(data.to_vec());

    let out1 = t.read_to_end(0);
    let out2 = t.read_to_end(1);

    assert_eq!(out1, data);
    assert_eq!(out2, data);
}

#[test]
fn test_interleaved_reads() {
    // Test reading small chunks alternately to stress the internal buffer offsets
    let data = b"0123456789";
    let mut t = tee(data.to_vec());

    // R1 reads "01"
    let buf = t.read(0, 2);
    assert_eq!(buf.len(), 2);
    assert_eq!(&buf, b"01");

    // R2 reads "01" (from buffer)
    let buf = t.read(1, 2);
    assert_eq!(buf.len(), 2);
    assert_eq!(&buf, b"01");

    // R1 reads "23"
    let buf = t.read(0, 2);
    assert_eq!(buf.len(), 2);
    assert_eq!(&buf, b"23");

    // R1 reads "45" (R2 is now behind by 4 bytes)
    let buf = t.read(0, 2);
    assert_eq!(buf.len(), 2);
    assert_eq!(&buf, b"45");

    // R2 reads "23" (catch up)
    let buf = t.read(1, 2);
    assert_eq!(buf.len(), 2);
    assert_eq!(&buf, b"23");

    // Finish up
    let rest1 = t.read_to_end(0);
    let rest2 = t.read_to_end(1);

    assert_eq!(rest1, b"6789");
    assert_eq!(rest2, b"456789");
}

#[test]
fn test_drop_one_reader_early() {
    // Ensures that if one reader is released, the other can still finish
    // and internal buffers don't grow infinitely for the dead reader.
    let data = b"Long string of data to ensure we pass buffer limits if any";
    let mut t = tee(data.to_vec());

    // Reader 0 reads a little bit
    let buf = t.read(0, 5);
    assert_eq!(&buf, b"Long ");

    // Release reader 1 explicitly
    t.release(1);

    // Reader 0 should be able to continue reading the rest
    let result = t.read_to_end(0);

    assert_eq!(result, b"string of data to ensure we pass buffer limits if any");
}

#[test]
fn test_different_buffer_sizes() {
    // One reader uses a tiny chunk size, the other reads all at once
    let data = [1u8; 1024]; // 1KB of ones
    let mut t = tee(data.to_vec());

    let mut out1 = Vec::new();
    for _ in 0..1024 {
        let tiny = t.read(0, 1);
        assert_eq!(tiny.len(), 1);
        out1.push(tiny[0]);
    }

    let out2 = t.read_to_end(1);

    assert_eq!(out1, data);
    assert_eq!(out2, data);
}

#[test]
fn test_empty_source() {
    let mut t = tee(b"".to_vec());

    assert_eq!(t.read_to_end(0).len(), 0);
    assert_eq!(t.read_to_end(1).len(), 0);
}
