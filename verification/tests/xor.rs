use rand::Rng;
use tsz::bstream::Error;
use tsz::xor::{XORChunk, XORIterator};

#[test]
fn test_xor_chunk() {
    let chunk = XORChunk::new();
    let mut appender = chunk.appender().unwrap();

    let mut cases: Vec<(i64, f64)> = vec![];
    let mut ts = 1234123324 as i64;
    let mut val = 1243535.123;
    for i in 0..300 {
        ts = ts + rand::thread_rng().gen_range(1..10001);
        if i % 2 == 0 {
            val = val + rand::thread_rng().gen_range(1..1000000) as f64;
        } else {
            val = val - rand::thread_rng().gen_range(1..1000000) as f64;
        }

        if i % 10 == 0 {
            appender = appender.into_chunk().appender().unwrap();
        }
        appender.Append(ts, val.to_bits());
        cases.push((ts, val));
    }

    let chunk = appender.into_chunk();
    let mut reader = chunk.iterator();
    let mut res: Vec<(i64, f64)> = vec![];
    while let Some((t, vbits)) = reader.next() {
        res.push((t, f64::from_bits(vbits)));
    }
    assert_eq!(res, cases);
}

fn encode(samples: &[(i64, u64)], reopen_every: Option<usize>) -> XORChunk {
    let chunk = XORChunk::new();
    let mut appender = chunk.appender().unwrap();
    for (i, (t, v)) in samples.iter().enumerate() {
        if let Some(k) = reopen_every {
            if k > 0 && i % k == 0 {
                appender = appender.into_chunk().appender().unwrap();
            }
        }
        appender.Append(*t, *v);
    }
    appender.into_chunk()
}

fn decode(chunk: &XORChunk) -> Vec<(i64, u64)> {
    let mut it = chunk.iterator();
    let mut out = vec![];
    while let Some(s) = it.next() {
        out.push(s);
    }
    assert!(it.err().is_none());
    out
}

#[test]
fn test_round_trip_exact_values() {
    let samples: Vec<(i64, u64)> = vec![
        (-5, f64::to_bits(0.0)),
        (-5, f64::to_bits(-0.0)),
        (1000, f64::to_bits(1.5)),
        (i64::MAX, f64::to_bits(f64::NAN)),
        (i64::MIN, u64::MAX),
        (0, 1),
    ];
    let chunk = encode(&samples, None);
    assert_eq!(decode(&chunk), samples);
}

#[test]
fn test_header_count_bounds_reads() {
    let samples: Vec<(i64, u64)> = (0..5).map(|i| (10 * i, (i as u64) << 52)).collect();
    let chunk = encode(&samples, None);
    // the first two bytes hold the sample count, big-endian
    let bytes = chunk.bytes();
    assert_eq!(bytes[0], 0);
    assert_eq!(bytes[1], 5);
    // and the iterator yields exactly that many samples
    let mut it = chunk.iterator();
    for i in 0..5 {
        assert_eq!(it.next(), Some(samples[i]));
    }
    assert_eq!(it.next(), None);
    assert_eq!(it.next(), None);
    assert!(it.err().is_none());
}

#[test]
fn test_reopen_byte_identical() {
    let samples: Vec<(i64, u64)> = vec![
        (100, f64::to_bits(1.0)),
        (200, f64::to_bits(1.0)),
        (310, f64::to_bits(2.5)),
        (420, f64::to_bits(2.25)),
        (530, f64::to_bits(-7.0)),
    ];
    let whole = encode(&samples, None);
    // reopening before every sample, every second one, and every third one
    // must produce the very same bytes as one session
    for k in 1..=3 {
        let pieced = encode(&samples, Some(k));
        assert_eq!(pieced.bytes(), whole.bytes());
        assert_eq!(decode(&pieced), samples);
    }
}

#[test]
fn test_dod_boundary() {
    // ten delta-of-deltas of exactly 2^13: still the 14-bit field
    let mut t: i64 = 0;
    let mut delta: i64 = 1000;
    let mut pos: Vec<(i64, u64)> = vec![(0, 5)];
    for _ in 0..11 {
        t += delta;
        pos.push((t, 5));
        delta += 8192;
    }
    // first sample: 16+8+64 bits; second: 16+1; ten more: (2+14)+1 each
    let chunk = encode(&pos[..], None);
    assert_eq!(decode(&chunk), pos);
    assert_eq!(chunk.bytes().len(), (16 + 72 + 17 + 10 * 17 + 7) / 8);

    // ten delta-of-deltas of exactly -2^13: the first value the asymmetric
    // 14-bit rule does not cover, forced into the 17-bit field
    let mut t: i64 = 0;
    let mut delta: i64 = 1000;
    let mut neg: Vec<(i64, u64)> = vec![(0, 5)];
    for _ in 0..11 {
        t += delta;
        neg.push((t, 5));
        delta -= 8192;
    }
    let chunk = encode(&neg[..], None);
    assert_eq!(decode(&chunk), neg);
    assert_eq!(chunk.bytes().len(), (16 + 72 + 17 + 10 * 21 + 7) / 8);
}

#[test]
fn test_window_reuse() {
    // the second XOR fits inside the first one's zero-bit window, so it
    // must use the 2-bit reuse code, not re-emit the window fields
    let samples: Vec<(i64, u64)> = vec![(0, 0), (1, 0xff00), (2, 0xff00 ^ 0x0f00)];
    // bits: 16 header, 8+64 first, 8 + (1+1+5+6+25) second, 1 + (1+1+25) third
    let chunk = encode(&samples, None);
    assert_eq!(decode(&chunk), samples);
    assert_eq!(chunk.bytes().len(), (16 + 72 + 46 + 28 + 7) / 8);
}

#[test]
fn test_iterator_truncated() {
    // the header claims five samples but the body is missing
    let bytes: Vec<u8> = vec![0, 5];
    let mut it = XORIterator::new(&bytes);
    assert_eq!(it.next(), None);
    assert_eq!(it.err(), Some(Error::EndOfStream));
    // the error is terminal: later calls keep reporting exhaustion
    assert_eq!(it.next(), None);
    assert_eq!(it.err(), Some(Error::EndOfStream));
}

#[test]
fn test_iterator_corrupt_window() {
    // a second sample that asks to reuse a window before any was stored
    let mut bytes: Vec<u8> = vec![0, 2];
    bytes.push(0); // varint timestamp 0
    bytes.extend_from_slice(&[0u8; 8]); // 64 value bits
    bytes.push(1); // uvarint delta 1
    bytes.push(0b1000_0000); // value: changed, reuse a never-stored window
    let mut it = XORIterator::new(&bytes);
    assert_eq!(it.next(), Some((0, 0)));
    assert_eq!(it.next(), None);
    assert_eq!(it.err(), Some(Error::InvalidWindow));
    assert_eq!(it.next(), None);
}

#[test]
fn test_iterator_header_too_short() {
    let bytes: Vec<u8> = vec![7];
    let mut it = XORIterator::new(&bytes);
    assert_eq!(it.next(), None);
    assert_eq!(it.err(), Some(Error::EndOfStream));
}

#[test]
fn test_encoding_name() {
    assert_eq!(XORChunk::encoding(), "XOR");
}

#[test]
fn test_new_chunk_is_two_zero_bytes() {
    let chunk = XORChunk::new();
    assert_eq!(chunk.bytes(), &vec![0u8, 0u8]);
    let mut it = chunk.iterator();
    assert_eq!(it.next(), None);
    assert!(it.err().is_none());
}
