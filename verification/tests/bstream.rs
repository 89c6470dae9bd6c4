use tsz::bstream::{Bstream, BstreamReader};

#[test]
fn test_bstream() {
    let mut bstream = Bstream::new(vec![]);

    // test writing bit
    for bit in vec![true, false, true, false] {
        bstream.write_bit(bit);
    }

    // test writing byte
    bstream.write_byte(0b10101011);

    // test writing bits
    for nbits in 1u64..=64 {
        bstream.write_bits(nbits, nbits as i32)
    }

    for v in (1u64..10000).step_by(123) {
        bstream.write_bits(v, 29)
    }

    // test reading bit
    let mut r = BstreamReader::new(bstream.bytes());
    for bit in vec![true, false, true, false] {
        let v: bool;
        match r.read_bit_fast() {
            Ok(bit) => v = bit,
            Err(_) => match r.read_bit() {
                Ok(bit) => v = bit,
                Err(e) => {
                    println!("{:?}", e);
                    panic!("read bit failed")
                }
            },
        }
        assert_eq!(bit, v);
    }

    // test reading byte
    let v = r.read_byte().unwrap();
    assert_eq!(0b10101011, v);

    // test reading bits
    for nbits in 1..=64 {
        let v: u64;
        match r.read_bits_fast(nbits) {
            Ok(bits) => v = bits,
            Err(_) => match r.read_bits(nbits) {
                Ok(bits) => v = bits,
                Err(e) => {
                    println!("{:?}", e);
                    panic!("read bits failed")
                }
            },
        }
        assert_eq!(nbits as u64, v);
    }
    for v in (1u64..10000).step_by(123) {
        let actual: u64;
        match r.read_bits_fast(29) {
            Ok(bits) => actual = bits,
            Err(_) => match r.read_bits(29) {
                Ok(bits) => actual = bits,
                Err(e) => {
                    println!("{:?}", e);
                    panic!("read bits failed")
                }
            },
        }
        assert_eq!(v, actual);
    }
}

fn cases() -> Vec<i64> {
    vec![
        -1 << 63,
        -1,
        0,
        1,
        2,
        10,
        20,
        63,
        64,
        65,
        127,
        128,
        129,
        255,
        256,
        257,
        1 << 63 - 1,
    ]
}

#[test]
fn test_uvarint() {
    let mut bstream = Bstream::new(vec![]);

    // write
    for v in &cases() {
        bstream.write_uvarint(*v as u64);
    }
    let mut r = BstreamReader::new(bstream.bytes());
    for v in &cases() {
        let actual = r.read_uvarint().unwrap();
        assert_eq!(*v as u64, actual);
    }
}

#[test]
fn test_varint() {
    let mut bstream = Bstream::new(vec![]);

    // write
    for v in &cases() {
        bstream.write_varint(*v);
    }
    let mut r = BstreamReader::new(bstream.bytes());
    for v in &cases() {
        let actual = r.read_varint().unwrap();
        assert_eq!(*v, actual);
    }
}

#[test]
fn test_write_bits_truncates_to_width() {
    // writing a value wider than the field keeps only the low bits
    let mut bstream = Bstream::new(vec![]);
    bstream.write_bits(0xffff_ffff_ffff_ffff, 5);
    bstream.write_bits(0b1_0110, 5);
    let mut r = BstreamReader::new(bstream.bytes());
    assert_eq!(r.read_bits(5).unwrap(), 0b1_1111);
    assert_eq!(r.read_bits(5).unwrap(), 0b1_0110);
}

#[test]
fn test_read_past_end_fails() {
    let bytes: Vec<u8> = vec![0xab, 0xcd];
    let mut r = BstreamReader::new(&bytes);
    assert_eq!(r.read_bits(16).unwrap(), 0xabcd);
    assert!(r.read_bit().is_err());
    assert!(r.read_bits(1).is_err());
}

#[test]
fn test_read_bits_splices_across_buffer_boundary() {
    // a read spanning the lookahead refill must not drop or duplicate bits
    let bytes: Vec<u8> = vec![0x12, 0x34, 0x56, 0x78, 0x9a, 0xbc, 0xde, 0xf0, 0x11, 0x22];
    let mut r = BstreamReader::new(&bytes);
    assert_eq!(r.read_bits(4).unwrap(), 0x1);
    assert_eq!(r.read_bits(64).unwrap(), 0x23456789abcdef01);
    assert_eq!(r.read_bits(12).unwrap(), 0x122);
}

#[test]
fn test_uvarint_overflow_reads_zero() {
    // eleven continuation bytes: more than any 64-bit value needs
    let bytes: Vec<u8> = vec![0xff; 11];
    let mut r = BstreamReader::new(&bytes);
    assert_eq!(r.read_uvarint().unwrap(), 0);
    // ten bytes whose final payload spells more than one bit
    let bytes2: Vec<u8> = vec![0x80, 0x80, 0x80, 0x80, 0x80, 0x80, 0x80, 0x80, 0x80, 0x02];
    let mut r2 = BstreamReader::new(&bytes2);
    assert_eq!(r2.read_uvarint().unwrap(), 0);
}

#[test]
fn test_header_patch_keeps_body() {
    let mut bstream = Bstream::new(vec![0, 0]);
    bstream.write_byte(0x5a);
    bstream.modify_first_two_bytes(0x12, 0x34);
    let mut r = BstreamReader::new(bstream.bytes());
    assert_eq!(r.read_bits(16).unwrap(), 0x1234);
    assert_eq!(r.read_byte().unwrap(), 0x5a);
}
