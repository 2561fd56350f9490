use fjallstream::compress::{gunzip, gzip};
use fjallstream::Error;

#[test]
fn round_trips_and_shrinks_zeros() {
    let zeros = vec![0u8; 64 * 1024 * 1024];
    let z = gzip(&zeros).unwrap();
    // ~64 MiB of zeros compresses to a few hundred KB at fast level: a 100x+ reduction.
    assert!(z.len() < 1_000_000, "64 MiB of zeros should compress small, got {}", z.len());
    assert_eq!(gunzip(&z).unwrap(), zeros);

    let data = b"the quick brown fox".repeat(100);
    assert_eq!(gunzip(&gzip(&data).unwrap()).unwrap(), data);
}

#[test]
fn a_compressed_stream_is_gzip() {
    let z = gzip(b"").unwrap();
    assert_eq!(z[..3], [0x1f, 0x8b, 8]);
    assert_eq!(gunzip(&z).unwrap(), b"");
}

#[test]
fn what_is_no_gzip_stream_is_refused() {
    let z = gzip(b"journal").unwrap();
    for bad in [&z[..z.len() - 1], b"journal".as_slice(), b"".as_slice()] {
        assert!(matches!(gunzip(bad), Err(Error::Io { path, .. }) if path == "<gunzip>"));
    }
}

#[test]
fn a_stream_cut_short_is_refused() {
    let z = gzip(&b"journal ".repeat(50)).unwrap();
    for n in 0..z.len() {
        assert!(matches!(gunzip(&z[..n]), Err(Error::Io { path, .. }) if path == "<gunzip>"), "{n}");
    }
    for i in 0..3 {
        let mut other = z.clone();
        other[i] ^= 1;
        assert!(gunzip(&other).is_err(), "byte {i} of the header");
    }
}
