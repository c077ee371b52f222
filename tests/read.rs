use han::{Error, Object, Reader, Readout, Scanner, CAPACITY};

const BODY: &str = "1-0:1.8.0(00006136.930*kWh)\r\n1-0:72.7.0(235.5*V)\r\n0-0:1.0.0(221022162844W)\r\n1-0:99.7.0(0000.000*kW)\r\n";

/// A frame: header, blank line, body lines, trailer line `!` and the checksum.
fn frame(body: &str) -> Vec<u8> {
    let mut text = format!("/ELL5\\253833635_A\r\n\r\n{}!", body);
    let crc = crc16::State::<crc16::ARC>::calculate(text.as_bytes());
    text.push_str(&format!("{:04X}", crc));
    text.into_bytes()
}

fn first_readout(bytes: &[u8]) -> Readout {
    Reader::new(bytes.to_vec()).next().unwrap()
}

#[test]
fn arc_checksum_vectors() {
    assert_eq!(crc16::State::<crc16::ARC>::calculate(b""), 0);
    assert_eq!(crc16::State::<crc16::ARC>::calculate(b"123456789"), 0xBB3D);
}

#[test]
fn telegram_parts() {
    let bytes = frame(BODY);
    let readout = first_readout(&bytes);
    assert_eq!(readout.as_bytes(), &bytes[..]);
    let telegram = readout.to_telegram().unwrap();
    let end = bytes.iter().position(|b| *b == b'!').unwrap();
    assert_eq!(
        telegram.checksum,
        crc16::State::<crc16::ARC>::calculate(&bytes[..=end])
    );
    assert_ne!(telegram.checksum, 0);
    assert_eq!(telegram.flag_id, "ELL");
    assert_eq!(telegram.identification, "\\253833635_A");
    let objects = telegram.objects();
    assert_eq!(objects.len(), 4);
    assert_eq!(
        objects[0],
        Ok(Object::Energy(han::Power::Active, han::Direction::FromGrid, 6136930))
    );
    assert_eq!(objects[1], Ok(Object::Voltage(han::Line::L3, 2355)));
    assert!(matches!(objects[2], Ok(Object::DateTime(_))));
    assert_eq!(objects[3], Err(Error::UnrecognizedReference));
}

#[test]
fn telegram_lowercase_checksum() {
    let mut bytes = frame("1-0:72.7.0(235.5*V)\r\n");
    let n = bytes.len();
    bytes[n - 4..].make_ascii_lowercase();
    assert!(first_readout(&bytes).to_telegram().is_ok());
}

#[test]
fn checksum_mismatch() {
    let mut bytes = frame(BODY);
    let n = bytes.len();
    bytes[n - 1] = if bytes[n - 1] == b'0' { b'1' } else { b'0' };
    assert!(matches!(
        first_readout(&bytes).to_telegram(),
        Err(Error::Checksum)
    ));
}

#[test]
fn single_byte_corruption_is_detected() {
    let bytes = frame(BODY);
    let end = bytes.iter().position(|b| *b == b'!').unwrap();
    for i in 1..end {
        let mut corrupted = bytes.clone();
        corrupted[i] = if corrupted[i] == b'x' { b'y' } else { b'x' };
        let readout = first_readout(&corrupted);
        assert!(
            matches!(readout.to_telegram(), Err(Error::Checksum)),
            "byte {} not detected",
            i
        );
    }
}

#[test]
fn malformed_frames() {
    // bad checksum digits
    let mut bytes = frame(BODY);
    let n = bytes.len();
    bytes[n - 2] = b'G';
    assert!(matches!(
        first_readout(&bytes).to_telegram(),
        Err(Error::InvalidFormat)
    ));
    // no blank line between header and body
    let text = "/ELL5\\253833635_A\r\n1-0:72.7.0(235.5*V)\r\n!";
    let crc = crc16::State::<crc16::ARC>::calculate(text.as_bytes());
    let bytes = format!("{}{:04X}", text, crc).into_bytes();
    assert!(matches!(
        first_readout(&bytes).to_telegram(),
        Err(Error::InvalidFormat)
    ));
    // header too short
    let text = "/ELL\r\n\r\n1-0:72.7.0(235.5*V)\r\n!";
    let crc = crc16::State::<crc16::ARC>::calculate(text.as_bytes());
    let bytes = format!("{}{:04X}", text, crc).into_bytes();
    assert!(matches!(
        first_readout(&bytes).to_telegram(),
        Err(Error::InvalidFormat)
    ));
    // not UTF-8
    let mut raw = b"/ELL5\\2538\xff35_A\r\n\r\n1-0:72.7.0(235.5*V)\r\n!".to_vec();
    let crc = crc16::State::<crc16::ARC>::calculate(&raw);
    raw.extend_from_slice(format!("{:04X}", crc).as_bytes());
    assert!(matches!(
        first_readout(&raw).to_telegram(),
        Err(Error::InvalidFormat)
    ));
}

#[test]
fn reader_skips_noise_and_ends() {
    let mut stream = b"noise!1234".to_vec();
    let a = frame(BODY);
    let b = frame("1-0:72.7.0(235.5*V)\r\n");
    stream.extend_from_slice(&a);
    stream.extend_from_slice(b"\r\n");
    stream.extend_from_slice(&b);
    stream.extend_from_slice(b"/ELL5 unfinished");
    let mut reader = Reader::new(stream);
    assert_eq!(reader.next().unwrap().as_bytes(), &a[..]);
    assert_eq!(reader.next().unwrap().as_bytes(), &b[..]);
    assert!(reader.next().is_none());
    assert!(reader.next().is_none());
}

/// Drives a scanner the way a buffered byte source does: the source offers
/// what it holds, the scanner consumes a prefix of it.
fn scan_chunks(chunks: &[&[u8]]) -> Vec<Vec<u8>> {
    let mut scanner = Scanner::new();
    let mut pending: Vec<u8> = Vec::new();
    let mut frames = Vec::new();
    for chunk in chunks {
        pending.extend_from_slice(chunk);
        loop {
            let (n, out) = scanner.feed(&pending);
            assert!(n <= pending.len());
            pending.drain(..n);
            match out {
                Some(f) => frames.push(f.as_bytes().to_vec()),
                None => break,
            }
        }
        assert!(pending.is_empty());
    }
    frames
}

#[test]
fn chunking_does_not_matter() {
    let prefix = b"xx/garbage without end".to_vec();
    let a = frame(BODY);
    let b = frame("1-0:72.7.0(235.5*V)\r\n");
    let mut stream = prefix.clone();
    stream.extend_from_slice(&a);
    stream.extend_from_slice(b"\r\n");
    stream.extend_from_slice(&b);
    stream.extend_from_slice(&a);
    let whole = scan_chunks(&[&stream]);
    // the unfinished frame after "xx" runs on through the first complete one
    assert_eq!(whole.len(), 3);
    assert_eq!(whole[0], [&prefix[2..], &a[..]].concat());
    assert_eq!(whole[1], b);
    assert_eq!(whole[2], a);
    for size in 1..40 {
        let chunks: Vec<&[u8]> = stream.chunks(size).collect();
        assert_eq!(scan_chunks(&chunks), whole, "chunk size {}", size);
    }
    // splits inside a checksum, at a frame boundary and right after a '/'
    let end_a = prefix.len() + a.len();
    let start_b = end_a + 2;
    let start_last = start_b + b.len();
    for cut in [end_a - 2, end_a, start_b, start_b + 1, start_last, start_last + 1] {
        let (x, y) = stream.split_at(cut);
        assert_eq!(scan_chunks(&[x, y]), whole, "cut at {}", cut);
    }
}

#[test]
fn scanner_feed_stops_after_frame() {
    let a = frame(BODY);
    let mut stream = a.clone();
    stream.extend_from_slice(b"tail");
    let mut scanner = Scanner::new();
    let (n, out) = scanner.feed(&stream);
    assert_eq!(n, a.len());
    assert_eq!(out.unwrap().as_bytes(), &a[..]);
    let (n, out) = scanner.feed(b"tail");
    assert_eq!(n, 4);
    assert!(out.is_none());
    let (n, out) = scanner.feed(b"");
    assert_eq!(n, 0);
    assert!(out.is_none());
}

#[test]
fn oversized_frame_is_dropped() {
    let mut stream = b"/".to_vec();
    stream.extend(std::iter::repeat(b'a').take(CAPACITY + 10));
    let good = frame(BODY);
    stream.extend_from_slice(&good);

    let frames = scan_chunks(&[&stream]);
    assert_eq!(frames, vec![good.clone()]);

    let mut reader = Reader::new(stream.clone());
    assert!(reader.next().is_none()); // the oversized frame ends this call
    assert_eq!(reader.next().unwrap().as_bytes(), &good[..]);
    assert!(reader.next().is_none());

    // a '/' right where the buffer is full starts the next frame
    let mut stream = b"/".to_vec();
    stream.extend(std::iter::repeat(b'a').take(CAPACITY - 1));
    stream.extend_from_slice(&good);
    assert_eq!(scan_chunks(&[&stream]), vec![good.clone()]);
}

#[test]
fn largest_frame_fits() {
    let head = "/ELL5\\253833635_A\r\n\r\n";
    let tail_len = 1 + 4; // "!" and the checksum
    let pad = CAPACITY - head.len() - tail_len - "x\r\n".len();
    let body = format!("{}x\r\n", "y".repeat(pad));
    let bytes = frame(&body);
    assert_eq!(bytes.len(), CAPACITY);
    let mut reader = Reader::new(bytes.clone());
    assert_eq!(reader.next().unwrap().as_bytes(), &bytes[..]);
    let too_big = frame(&format!("y{}", body));
    assert_eq!(too_big.len(), CAPACITY + 1);
    assert!(Reader::new(too_big).next().is_none());
}
