use holycontainer::error::{errno_to_string, io_error, ContainerError, IoKind};
use holycontainer::gzip::{compress_simple, crc32, decompress, gzip_trailer, inflate, BitReader, HuffmanTree};
use holycontainer::tar::{
    block_padding, dir_header, end_of_archive, extract_step, file_header, parse_name, parse_tar_octal,
    symlink_header, tar_entries, ExtractStep, TarAction, TarHeader,
};

#[test]
fn gzip_roundtrip_examples() {
    for data in [&b""[..], &b"a"[..], &b"hello hello hello hello"[..], &[0u8; 70000][..]] {
        let gz = compress_simple(data);
        assert_eq!(&gz[0..3], &[0x1f, 0x8b, 8]);
        assert_eq!(decompress(&gz).unwrap(), data.to_vec());
        let (crc, size) = gzip_trailer(&gz).unwrap();
        assert_eq!(crc, crc32(data));
        assert_eq!(size as usize, data.len());
    }
}

#[test]
fn crc32_known_values() {
    assert_eq!(crc32(b""), 0);
    assert_eq!(crc32(b"123456789"), 0xCBF43926);
    assert_eq!(crc32(b"The quick brown fox jumps over the lazy dog"), 0x414FA339);
}

#[test]
fn inflate_fixed_huffman_block() {
    // "abc" compressed with a fixed Huffman block (as zlib does at level 9, raw)
    let raw = [0x4b, 0x4c, 0x4a, 0x06, 0x00];
    let mut r = BitReader::new(&raw);
    assert_eq!(inflate(&mut r).unwrap(), b"abc".to_vec());
    // a block type of 3 is invalid
    let bad = [0x07u8];
    let mut r = BitReader::new(&bad);
    assert!(inflate(&mut r).is_err());
}

#[test]
fn gzip_errors() {
    assert!(matches!(decompress(&[0x1f]), Err(ContainerError::Io { .. })));
    assert!(matches!(decompress(&[0, 0, 8, 0, 0, 0, 0, 0, 0, 0]), Err(ContainerError::Io { .. })));
    assert!(gzip_trailer(&[1, 2, 3]).is_none());
}

#[test]
fn huffman_and_bits() {
    let mut r = BitReader::new(&[0b1010_1101, 0xff]);
    assert_eq!(r.read_bits(3).unwrap(), 0b101);
    assert_eq!(r.read_bits(5).unwrap(), 0b10101);
    r.byte_align();
    assert_eq!(r.total_byte_pos(), 1);
    assert_eq!(r.read_bits(8).unwrap(), 0xff);
    assert!(r.read_bits(1).is_err());
    // lengths 1,2,2: codes 0, 10, 11
    let t = HuffmanTree::from_lengths(&[1, 2, 2]);
    let mut r = BitReader::new(&[0b0000_0110]);
    assert_eq!(t.decode(&mut r).unwrap(), 0);
    assert_eq!(t.decode(&mut r).unwrap(), 2);
}

#[test]
fn huffman_decode_reads_canonical_codes() {
    // lengths 2,1,3,3: codes 10, 0, 110, 111
    let t = HuffmanTree::from_lengths(&[2, 1, 3, 3]);
    // bits in reading order: 110 0 111 1|0
    let mut r = BitReader::new(&[0b1111_0011, 0b0000_0000]);
    assert_eq!(t.decode(&mut r).unwrap(), 2);
    assert_eq!(t.decode(&mut r).unwrap(), 1);
    assert_eq!(t.decode(&mut r).unwrap(), 3);
    assert_eq!(t.decode(&mut r).unwrap(), 0);
    assert_eq!(r.total_byte_pos(), 2);
    // the zero bits left in the last byte are the code of symbol 1
    assert_eq!(t.decode(&mut r).unwrap(), 1);
}

#[test]
fn tar_headers() {
    let h = file_header("etc/passwd", 1234);
    let b = h.as_bytes();
    assert_eq!(b.len(), 512);
    assert_eq!(&b[0..10], b"etc/passwd");
    assert_eq!(&b[100..108], b"0000644\0");
    assert_eq!(&b[124..136], b"00000002322\0");
    assert_eq!(b[156], b'0');
    assert_eq!(&b[257..263], b"ustar\0");
    assert_eq!(&b[265..269], b"root");
    let sum: u32 = b.iter().enumerate().map(|(i, &x)| if (148..156).contains(&i) { 32 } else { x as u32 }).sum();
    assert_eq!(parse_tar_octal(b, 148, 156) as u32, sum);
    let d = dir_header("usr/bin");
    assert_eq!(&d.as_bytes()[0..8], b"usr/bin/");
    assert_eq!(d.as_bytes()[156], b'5');
    let s = symlink_header("bin", "usr/bin");
    assert_eq!(&s.as_bytes()[157..164], b"usr/bin");
    assert_eq!(s.as_bytes()[156], b'2');
    assert_eq!(block_padding(0), 0);
    assert_eq!(block_padding(1), 511);
    assert_eq!(block_padding(512), 0);
    assert_eq!(end_of_archive(), vec![0u8; 1024]);
}

#[test]
fn tar_long_names_split_into_prefix() {
    let long = format!("{}/{}", "d".repeat(120), "f".repeat(50));
    let mut h = TarHeader::new();
    h.set_name(&long);
    let b = h.as_bytes();
    assert_eq!(&b[345..465], "d".repeat(120).as_bytes());
    assert_eq!(&b[0..50], "f".repeat(50).as_bytes());
    assert_eq!(parse_name(b), long);
}

#[test]
fn tar_set_name_reads_back() {
    let names = [
        String::new(),
        "usr/bin/env".to_string(),
        "/etc/hosts".to_string(),
        format!("{}/{}/", "a".repeat(60), "b".repeat(60)),
        format!("{}/x/{}", "p".repeat(40), "q".repeat(99)),
    ];
    for name in names.iter() {
        let mut h = TarHeader::new();
        h.set_name(name);
        assert_eq!(&parse_name(h.as_bytes()), name);
    }
}

#[test]
fn tar_extract_steps() {
    let mut archive: Vec<u8> = Vec::new();
    archive.extend_from_slice(dir_header("a").as_bytes());
    archive.extend_from_slice(file_header("a/f", 3).as_bytes());
    archive.extend_from_slice(b"xyz");
    archive.extend_from_slice(&vec![0u8; block_padding(3)]);
    archive.extend_from_slice(symlink_header("a/l", "f").as_bytes());
    archive.extend_from_slice(&end_of_archive());
    match extract_step(&archive[0..512]) {
        ExtractStep::Dir(n) => assert_eq!(n, "a/"),
        _ => panic!("expected a directory"),
    }
    match extract_step(&archive[512..1024]) {
        ExtractStep::File { name, size, padding, mode } => {
            assert_eq!((name.as_str(), size, padding, mode), ("a/f", 3, 509, 0o644));
        },
        _ => panic!("expected a file"),
    }
    match extract_step(&archive[1536..2048]) {
        ExtractStep::Symlink { name, target } => assert_eq!((name.as_str(), target.as_str()), ("a/l", "f")),
        _ => panic!("expected a link"),
    }
    assert!(matches!(extract_step(&archive[2048..2560]), ExtractStep::End));
    let entries = tar_entries(&archive);
    assert_eq!(entries.len(), 3);
    match &entries[1] {
        TarAction::File { name, start, end } => {
            assert_eq!(name, "a/f");
            assert_eq!(&archive[*start..*end], b"xyz");
        },
        other => panic!("{:?}", other),
    }
}

#[test]
fn error_texts() {
    assert_eq!(errno_to_string(2), "No such file or directory");
    let e = io_error(IoKind::UnexpectedEof, "short");
    assert!(e.message().contains("short"));
    assert_eq!(ContainerError::NotFound("web".to_string()).message(), "container 'web' not found");
    assert_eq!(errno_to_string(99), "OS error code 99");
    assert_eq!(ContainerError::Config("x".to_string()).message(), "config error: x");
}

#[test]
fn gzip_checks_the_trailer() {
    let mut g = compress_simple(b"abc");
    assert_eq!(decompress(&g).unwrap(), b"abc".to_vec());
    let n = g.len();
    g[n - 8] ^= 0xff;
    assert!(matches!(decompress(&g), Err(ContainerError::Io { kind: IoKind::InvalidData, .. })));
    let mut h = compress_simple(b"abc");
    let m = h.len();
    h[m - 4] = 9;
    assert!(decompress(&h).is_err());
}

#[test]
fn tar_entries_stay_inside_the_destination() {
    let mut archive: Vec<u8> = Vec::new();
    archive.extend_from_slice(file_header("/etc/x", 1).as_bytes());
    archive.extend_from_slice(&[b'a']);
    archive.extend_from_slice(&vec![0u8; block_padding(1)]);
    archive.extend_from_slice(dir_header("a/../../up").as_bytes());
    archive.extend_from_slice(file_header("a/.wh...", 0).as_bytes());
    archive.extend_from_slice(file_header("ok/..x", 0).as_bytes());
    archive.extend_from_slice(&end_of_archive());
    let entries = tar_entries(&archive);
    assert_eq!(entries.len(), 1);
    match &entries[0] {
        TarAction::File { name, .. } => assert_eq!(name, "ok/..x"),
        _ => panic!("expected the one confined file"),
    }
    assert!(matches!(extract_step(&archive[0..512]), ExtractStep::Skip(512)));
    assert!(matches!(extract_step(&archive[1024..1536]), ExtractStep::Skip(0)));
}
