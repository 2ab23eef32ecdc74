use file_dedup::fingerprint::{fingerprint_bytes, Fingerprinter, CHUNK_SIZE, FINGERPRINT_LEN};

const HELLO_SHA256: &str = "2CF24DBA5FB0A30E26E83B2AC5B9E29E1B161E5C1FA7425E73043362938B9824";
const EMPTY_SHA256: &str = "E3B0C44298FC1C149AFBF4C8996FB92427AE41E4649B934CA495991B7852B855";

#[test]
fn fingerprint_of_hello_is_uppercase_sha256() {
    assert_eq!(fingerprint_bytes(b"hello"), HELLO_SHA256);
}

#[test]
fn fingerprint_of_empty_content() {
    assert_eq!(fingerprint_bytes(b""), EMPTY_SHA256);
    assert_eq!(Fingerprinter::new().finish(), EMPTY_SHA256);
}

#[test]
fn fingerprint_has_fixed_length_and_uppercase_digits() {
    let f = fingerprint_bytes(b"world");
    assert_eq!(f.len(), FINGERPRINT_LEN);
    assert!(f.chars().all(|c| c.is_ascii_digit() || ('A'..='F').contains(&c)));
    assert_ne!(f, fingerprint_bytes(b"hello"));
}

#[test]
fn fingerprint_is_deterministic() {
    let content: Vec<u8> = (0..5000u32).map(|i| (i % 251) as u8).collect();
    assert_eq!(fingerprint_bytes(&content), fingerprint_bytes(&content));
}

#[test]
fn chunking_does_not_change_fingerprint() {
    let content: Vec<u8> = (0..(3 * CHUNK_SIZE + 17)).map(|i| (i % 7) as u8).collect();
    let mut f = Fingerprinter::new();
    for chunk in content.chunks(5) {
        f.absorb(chunk);
    }
    assert_eq!(f.finish(), fingerprint_bytes(&content));

    let mut g = Fingerprinter::new();
    g.absorb(b"hel");
    g.absorb(b"");
    g.absorb(b"lo");
    assert_eq!(g.finish(), HELLO_SHA256);
}

#[test]
fn absorb_read_feeds_only_the_bytes_read() {
    let mut f = Fingerprinter::new();
    let buffer = *b"hello, stale bytes";
    assert!(f.absorb_read(&buffer, 5));
    assert!(!f.absorb_read(&buffer, 0));
    assert_eq!(f.finish(), HELLO_SHA256);
}

#[test]
fn large_zero_files_differ_in_last_byte() {
    let zeros = vec![0u8; 1 << 20];
    let mut last_one = zeros.clone();
    *last_one.last_mut().unwrap() = 1;
    assert_eq!(fingerprint_bytes(&zeros), fingerprint_bytes(&zeros.clone()));
    assert_ne!(fingerprint_bytes(&zeros), fingerprint_bytes(&last_one));
}
