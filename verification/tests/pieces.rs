//! The parts that an image is read and written with: numbers, devices, codecs,
//! errors, and what the inspector shows.

use flate2::write::DeflateEncoder;
use flate2::Compression;
use qcow2::bytes::{
    copy_into, read_u16, read_u32, read_u64, u16_to_bytes, u64_to_bytes, zero_vec,
};
use qcow2::cli::{hex_dump, hex_line, parse_u64, read_len, NumberError, NumberFault};
use qcow2::codec::{check_frame_length, decode_cluster};
use qcow2::error::{from_device, to_device};
use qcow2::text::{hex_padded, number};
use qcow2::zstd::{check_block, check_frame};
use qcow2::{BlockDevice, DeviceError, Error, MemDevice};
use std::io::Write;

#[test]
fn integers_are_big_endian() {
    let b = [0x00, 0x01, 0x23, 0x45, 0x67, 0x89, 0xab, 0xcd, 0xef];
    assert_eq!(read_u16(&b, 1), 0x0123);
    assert_eq!(read_u32(&b, 1), 0x0123_4567);
    assert_eq!(read_u64(&b, 1), 0x0123_4567_89ab_cdef);
    assert_eq!(u16_to_bytes(0x0123), vec![0x01, 0x23]);
    assert_eq!(u64_to_bytes(0x0123_4567_89ab_cdef), b[1..].to_vec());
    assert_eq!(zero_vec(3), vec![0, 0, 0]);
    let mut dst = [9u8; 5];
    copy_into(&mut dst, 1, &[1, 2, 3]);
    assert_eq!(dst, [9, 1, 2, 3, 9]);
}

#[test]
fn a_device_in_memory_serves_what_it_holds_and_grows() {
    let mut d = MemDevice::new(vec![1, 2, 3, 4]);
    assert!(d.is_writable());
    assert_eq!(d.size_bytes(), 4);
    let mut buf = [0u8; 2];
    d.read_at(2, &mut buf).unwrap();
    assert_eq!(buf, [3, 4]);
    let mut buf = [0u8; 4];
    match d.read_at(2, &mut buf) {
        Err(DeviceError::ShortRead { offset, want, got }) => {
            assert_eq!((offset, want, got), (2, 4, 2));
            assert_eq!(&buf[..2], &[3, 4]);
        }
        other => panic!("expected ShortRead, got {other:?}"),
    }
    d.write_at(6, &[7, 8]).unwrap();
    d.flush().unwrap();
    assert_eq!(d.bytes(), &vec![1, 2, 3, 4, 0, 0, 7, 8]);
    assert_eq!(d.into_bytes(), vec![1, 2, 3, 4, 0, 0, 7, 8]);
    assert!(!MemDevice::read_only(vec![]).is_writable());
}

fn deflated(plain: &[u8]) -> Vec<u8> {
    let mut enc = DeflateEncoder::new(Vec::new(), Compression::default());
    enc.write_all(plain).unwrap();
    enc.finish().unwrap()
}

#[test]
fn a_deflated_cluster_decodes_and_a_damaged_one_does_not() {
    let plain: Vec<u8> = (0..512u32).map(|i| (i * 7 % 256) as u8).collect();
    let mut data = deflated(&plain);
    assert_eq!(decode_cluster(&data, 0, 512).unwrap(), plain);
    // What follows the stream, up to the end of the sector, does not matter.
    data.extend_from_slice(&[0; 100]);
    assert_eq!(decode_cluster(&data, 0, 512).unwrap(), plain);
    // A stream of more than a cluster is read as far as a cluster goes.
    assert_eq!(
        decode_cluster(&deflated(&[5; 600]), 0, 512).unwrap(),
        vec![5; 512]
    );
    assert!(matches!(
        decode_cluster(&deflated(&plain[..511]), 0, 512),
        Err(Error::Decompress(_))
    ));
    assert!(matches!(
        decode_cluster(&[0xff; 16], 0, 512),
        Err(Error::Decompress(_))
    ));
}

#[test]
fn a_zstd_cluster_has_to_be_a_cluster_long() {
    let frame = |n: usize| zstd::stream::encode_all(&vec![3u8; n][..], 0).unwrap();
    let mut data = frame(512);
    data.extend_from_slice(&[0; 50]);
    assert_eq!(decode_cluster(&data, 1, 512).unwrap(), vec![3; 512]);
    match decode_cluster(&frame(511), 1, 512) {
        Err(Error::Decompress(m)) => {
            assert_eq!(m, "zstd frame produced 511 bytes, expected 512")
        }
        other => panic!("expected Decompress, got {other:?}"),
    }
    // However much a frame claims, one byte too many is all that is decoded.
    match decode_cluster(&frame(100_000), 1, 512) {
        Err(Error::Decompress(m)) => {
            assert_eq!(m, "zstd frame produced 513 bytes, expected 512")
        }
        other => panic!("expected Decompress, got {other:?}"),
    }
    assert!(matches!(
        decode_cluster(&[1, 2, 3, 4, 5, 6, 7, 8], 1, 512),
        Err(Error::Decompress(_))
    ));
    assert!(matches!(
        decode_cluster(&data, 2, 512),
        Err(Error::Unsupported("unknown compression_type"))
    ));
    assert_eq!(check_frame_length(vec![1, 2], 2).unwrap(), vec![1, 2]);
    match check_frame_length(vec![1, 2], 3) {
        Err(Error::Decompress(m)) => assert_eq!(m, "zstd frame produced 2 bytes, expected 3"),
        other => panic!("expected Decompress, got {other:?}"),
    }
}

#[test]
fn every_error_has_its_words() {
    let io = || std::io::Error::new(std::io::ErrorKind::Other, "disk on fire");
    let said = [
        (Error::Io(io()), "io: disk on fire"),
        (Error::NotQcow2, "not a QCOW2 image (bad magic)"),
        (Error::UnsupportedVersion(7), "unsupported qcow2 version: 7"),
        (
            Error::InvalidClusterBits(22),
            "invalid cluster_bits: 22 (must be 9..=21)",
        ),
        (Error::Corrupt("no"), "corrupt qcow2: no"),
        (
            Error::Unsupported("encryption (AES or LUKS)"),
            "unsupported qcow2 feature: encryption (AES or LUKS)",
        ),
        (
            Error::OutOfBounds {
                offset: 10,
                len: 20,
                size: 25,
            },
            "read [10, 10+20) past virtual size 25",
        ),
        (Error::Decompress("bad".to_string()), "decompress: bad"),
        (Error::BadBackingPath, "backing-file path is not valid UTF-8"),
        (Error::BackingTooDeep, "backing chain too deep (cycle?)"),
        (Error::ReadOnly, "image was opened read-only"),
    ];
    for (e, words) in said.iter() {
        assert_eq!(e.message(), *words);
        assert_eq!(e.source().is_some(), matches!(e, Error::Io(_)));
    }
    assert_eq!(Error::from(io()).message(), "io: disk on fire");
    assert_eq!(
        Error::from(io()).source().unwrap().to_string(),
        "disk on fire"
    );
}

#[test]
fn errors_pass_the_border_to_the_device_and_back() {
    match from_device(DeviceError::ShortRead {
        offset: 5,
        want: 8,
        got: 2,
    }) {
        Error::Io(e) => {
            assert_eq!(e.kind(), std::io::ErrorKind::UnexpectedEof);
            assert_eq!(e.to_string(), "short read at 5: wanted 8 got 2");
        }
        other => panic!("expected Io, got {other:?}"),
    }
    assert!(matches!(
        from_device(DeviceError::ReadOnly),
        Error::ReadOnly
    ));
    assert!(matches!(
        from_device(DeviceError::OutOfBounds {
            offset: 1,
            len: 2,
            size: 3
        }),
        Error::OutOfBounds {
            offset: 1,
            len: 2,
            size: 3
        }
    ));
    assert!(matches!(
        from_device(DeviceError::Custom("x".to_string())),
        Error::Decompress(s) if s == "x"
    ));
    assert!(matches!(to_device(Error::ReadOnly), DeviceError::ReadOnly));
    assert!(matches!(
        to_device(Error::OutOfBounds {
            offset: 1,
            len: 2,
            size: 3
        }),
        DeviceError::OutOfBounds {
            offset: 1,
            len: 2,
            size: 3
        }
    ));
    assert!(matches!(
        to_device(Error::NotQcow2),
        DeviceError::Custom(s) if s == "not a QCOW2 image (bad magic)"
    ));
}

#[test]
fn numbers_are_written_in_any_base() {
    assert_eq!(number(0, 10), "0");
    assert_eq!(number(u64::MAX, 10), "18446744073709551615");
    assert_eq!(number(0xbeef, 16), "beef");
    assert_eq!(hex_padded(0xbeef, 8), "0000beef");
    assert_eq!(hex_padded(0x1_2345_6789, 8), "123456789");
}

#[test]
fn arguments_are_read_as_decimal_or_hex() {
    let fault = |hex: bool, fault: NumberFault| Err(NumberError { hex, fault });
    assert_eq!(parse_u64("4096"), Ok(4096));
    assert_eq!(parse_u64("+7"), Ok(7));
    assert_eq!(parse_u64("0x1F"), Ok(31));
    assert_eq!(parse_u64("0XfF"), Ok(255));
    assert_eq!(parse_u64("18446744073709551615"), Ok(u64::MAX));
    assert_eq!(parse_u64("0xffffffffffffffff"), Ok(u64::MAX));
    assert_eq!(parse_u64(""), fault(false, NumberFault::Empty));
    assert_eq!(parse_u64("0x"), fault(true, NumberFault::Empty));
    assert_eq!(parse_u64("+"), fault(false, NumberFault::InvalidDigit));
    assert_eq!(parse_u64("-1"), fault(false, NumberFault::InvalidDigit));
    assert_eq!(parse_u64("12a"), fault(false, NumberFault::InvalidDigit));
    assert_eq!(parse_u64("0xg"), fault(true, NumberFault::InvalidDigit));
    assert_eq!(
        parse_u64("18446744073709551616"),
        fault(false, NumberFault::TooLarge)
    );
    assert_eq!(
        parse_u64("0x10000000000000000"),
        fault(true, NumberFault::TooLarge)
    );
    assert_eq!(
        NumberFault::Empty.text(),
        "cannot parse integer from empty string"
    );
    assert_eq!(
        NumberFault::InvalidDigit.text(),
        "invalid digit found in string"
    );
    assert_eq!(
        NumberFault::TooLarge.text(),
        "number too large to fit in target type"
    );
}

#[test]
fn a_read_is_limited_to_64_mib() {
    assert_eq!(read_len(0), Some(0));
    assert_eq!(read_len(64 * 1024 * 1024), Some(64 * 1024 * 1024));
    assert_eq!(read_len(64 * 1024 * 1024 + 1), None);
}

#[test]
fn a_dump_has_sixteen_bytes_to_the_line() {
    assert_eq!(
        hex_line(0x10, b"0123456789abcde\n"),
        "00000010  30 31 32 33 34 35 36 37  38 39 61 62 63 64 65 0a  |0123456789abcde.|"
    );
    let lines = hex_dump(0xfff0, b"0123456789abcdef\x00~\x7f");
    assert_eq!(lines.len(), 2);
    assert_eq!(
        lines[0],
        "0000fff0  30 31 32 33 34 35 36 37  38 39 61 62 63 64 65 66  |0123456789abcdef|"
    );
    assert!(lines[1].starts_with("00010000  00 7e 7f "));
    assert!(lines[1].ends_with("|.~.|"));
    assert!(hex_dump(0, b"").is_empty());
}

/// Bytes that compress a little: runs, repeats, and noise.
fn mixed(n: usize) -> Vec<u8> {
    let mut x: u32 = 12345;
    let mut out = Vec::new();
    while out.len() < n {
        x = x.wrapping_mul(1664525).wrapping_add(1013904223);
        match (x >> 28) % 4 {
            0 => out.extend_from_slice(&[(x >> 8) as u8; 37]),
            1 if out.len() > 1000 => {
                let from = out.len() - 1 - (x >> 12) as usize % 999;
                let to = (from + 50).min(out.len());
                let copy = out[from..to].to_vec();
                out.extend_from_slice(&copy);
            }
            _ => {
                for i in 0..60 {
                    x = x.wrapping_mul(1664525).wrapping_add(1013904223);
                    out.push((x >> (16 + i % 8)) as u8);
                }
            }
        }
    }
    out.truncate(n);
    out
}

#[test]
fn a_frame_of_many_blocks_decodes() {
    for n in [65536usize, 300_000, 2 << 20] {
        let plain = mixed(n);
        for level in [1, 3, 9] {
            let frame = zstd::stream::encode_all(&plain[..], level).unwrap();
            assert!(check_frame(&frame));
            assert_eq!(decode_cluster(&frame, 1, n).unwrap(), plain);
        }
        let same = vec![9u8; n];
        let frame = zstd::stream::encode_all(&same[..], 3).unwrap();
        assert_eq!(decode_cluster(&frame, 1, n).unwrap(), same);
    }
}

/// A frame with one compressed block: no literals, and `head` for its sequences.
fn frame_of(size: usize, head: &[u8]) -> Vec<u8> {
    let mut f = vec![0x28, 0xb5, 0x2f, 0xfd, 0x20, 0x00];
    let h = (size as u32) << 3 | 2 << 1 | 1;
    f.extend_from_slice(&h.to_le_bytes()[..3]);
    let mut block = vec![0u8];
    block.extend_from_slice(head);
    block.resize(size, 0);
    f.extend_from_slice(&block);
    f
}

#[test]
fn a_block_that_may_copy_too_much_is_not_decoded() {
    let f = frame_of(70_000, &[255, 255, 255]);
    assert!(!check_frame(&f));
    match decode_cluster(&f, 1, 65536) {
        Err(Error::Decompress(m)) => assert_eq!(m, "zstd block announces too many sequences"),
        other => panic!("expected Decompress, got {other:?}"),
    }
    // Fewer sequences, or a smaller block, and the decoder has its say.
    assert!(check_frame(&frame_of(70_000, &[255, 0, 0])));
    assert!(check_frame(&frame_of(60_000, &[255, 255, 255])));
    assert!(matches!(
        decode_cluster(&frame_of(60_000, &[255, 255, 255]), 1, 65536),
        Err(Error::Decompress(_))
    ));
    // One that comes behind another block is found too.
    let mut two = vec![0x28, 0xb5, 0x2f, 0xfd, 0x00, 0x58];
    two.extend_from_slice(&[(4 << 3), 0, 0, 1, 2, 3, 4]);
    two.extend_from_slice(&[(9 << 3) | 2, 0, 0, 7]);
    two.extend_from_slice(&f[6..]);
    assert!(!check_frame(&two));
    two[13] |= 1;
    assert!(check_frame(&two));
    // What is no frame, or is cut off, is for the decoder.
    assert!(check_frame(&[]));
    assert!(check_frame(&f[..5]));
    assert!(check_frame(&f[..60_000]));
}

#[test]
fn sequences_are_found_behind_the_literals() {
    // Literals that take `n` bytes behind their header, then 32768 sequences, which have
    // `stream` bytes to say what they copy.
    let block = |lits: &[u8], n: usize, stream: usize| {
        let mut b = lits.to_vec();
        b.resize(lits.len() + n, 0xee);
        b.extend_from_slice(&[255, 0, 1, 0]);
        b.resize(b.len() + stream, 0xee);
        b
    };
    let cases: [(&[u8], usize); 7] = [
        // Raw, with one, two and three bytes of size.
        (&[3 << 3], 3),
        (&[1 << 2 | 4 << 4, 1], 20),
        (&[3 << 2, 0, 1], 4096),
        // One byte for all.
        (&[1 | 3 << 2, 0, 1], 1),
        // Compressed, with three, four and five bytes of sizes.
        (&[2, 3 << 6, 0], 3),
        (&[3 | 2 << 2, 0, 2 << 2, 1], 66),
        (&[2 | 3 << 2, 0, 1 << 6, 1, 0], 5),
    ];
    for (lits, n) in cases {
        assert!(check_block(&block(lits, n, 65518)), "{lits:?}");
        assert!(!check_block(&block(lits, n, 65519)), "{lits:?}");
    }
    // What the literals come to counts too.
    assert!(check_block(&block(&[1 | 3 << 2, 0, 16], 1, 65517)));
    assert!(!check_block(&block(&[1 | 3 << 2, 0, 16], 1, 65518)));
}

#[test]
fn as_many_sequences_as_can_be_added_up_are_let_through() {
    // Raw literals of three bytes, and 100000 bytes behind the number of sequences.
    let block = |head: &[u8]| {
        let mut b = vec![3 << 3, 7, 7, 7];
        b.extend_from_slice(head);
        b.resize(b.len() + 100_000, 0xee);
        b
    };
    assert!(check_block(&block(&[0])));
    assert!(check_block(&block(&[127, 0])));
    assert!(check_block(&block(&[254, 255, 0])));
    assert!(check_block(&block(&[255, 255, 0, 0])));
    assert!(!check_block(&block(&[255, 0, 1, 0])));
    // Cut off.
    assert!(check_block(&[]));
    assert!(check_block(&[0, 255, 255]));
    assert!(check_block(&[1 | 3 << 2, 0, 1, 9, 255]));
}

#[test]
fn numbers_are_read_back() {
    for n in [0u64, 9, 10, 255, 4096, 0xdead_beef, u64::MAX - 1, u64::MAX] {
        assert_eq!(parse_u64(&number(n, 10)).unwrap(), n);
        let hex = number(n, 16);
        assert_eq!(parse_u64(&format!("0x{hex}")).unwrap(), n);
        assert_eq!(parse_u64(&format!("0X{}", hex.to_uppercase())).unwrap(), n);
    }
    for bad in ["", "0x", "0X", "12z", "-1", "0xg", "18446744073709551616"] {
        assert!(parse_u64(bad).is_err(), "{bad}");
    }
}
