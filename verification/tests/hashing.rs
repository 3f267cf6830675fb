use embd::hash::{format_digest, hash_content, is_binary, normalize_crlf, ContentHasher, HASH_BUFFER_SIZE};
use sha2::{Digest, Sha256};

fn raw_sha(data: &[u8]) -> String {
    format!("sha256:{:x}", Sha256::digest(data))
}

/// Hash `data` as a file is streamed: probe the first buffer, then feed it
/// in `chunk` sized pieces.
fn streamed(data: &[u8], chunk: usize) -> String {
    let probe = &data[..data.len().min(HASH_BUFFER_SIZE)];
    let mut h = ContentHasher::new(probe);
    for piece in data.chunks(chunk) {
        h.update(piece);
    }
    h.finish()
}

#[test]
fn hashes_known_sha256() {
    assert_eq!(
        hash_content(b"hello world"),
        "sha256:b94d27b9934d3e08a52e52d7da7dabfac484efe37a5380ee9088f7ace2efcde9"
    );
}

#[test]
fn hashes_empty_content() {
    assert_eq!(
        hash_content(b""),
        "sha256:e3b0c44298fc1c149afbf4c8996fb92427ae41e4649b934ca495991b7852b855"
    );
}

#[test]
fn large_input_hash_has_digest_shape() {
    let data = vec![0u8; 1024 * 1024];
    let hash = streamed(&data, HASH_BUFFER_SIZE);
    assert!(hash.starts_with("sha256:"));
    assert_eq!(hash.len(), "sha256:".len() + 64);
    assert_eq!(hash, raw_sha(&data));
}

#[test]
fn crlf_is_normalized_to_lf() {
    assert_eq!(hash_content(b"alpha\r\nbeta\r\ngamma"), hash_content(b"alpha\nbeta\ngamma"));
    assert_eq!(hash_content(b"alpha\r\nbeta\r\ngamma"), raw_sha(b"alpha\nbeta\ngamma"));
}

#[test]
fn lone_cr_is_preserved() {
    assert_eq!(hash_content(b"alpha\rbeta"), raw_sha(b"alpha\rbeta"));
    assert_eq!(hash_content(b"trailing\r"), raw_sha(b"trailing\r"));
}

#[test]
fn binary_content_is_not_normalized() {
    let mut data = vec![0u8, 1, 2];
    data.extend_from_slice(b"\r\n");
    assert_eq!(hash_content(&data), raw_sha(&data));
}

#[test]
fn crlf_split_across_chunk_boundary() {
    let mut crlf_data = vec![b'a'; HASH_BUFFER_SIZE - 1];
    crlf_data.push(b'\r');
    crlf_data.push(b'\n');
    crlf_data.extend_from_slice(b"tail");
    let mut lf_data = vec![b'a'; HASH_BUFFER_SIZE - 1];
    lf_data.push(b'\n');
    lf_data.extend_from_slice(b"tail");
    assert_eq!(streamed(&crlf_data, HASH_BUFFER_SIZE), streamed(&lf_data, HASH_BUFFER_SIZE));
    assert_eq!(streamed(&crlf_data, HASH_BUFFER_SIZE), raw_sha(&lf_data));
}

#[test]
fn chunking_does_not_change_the_hash() {
    let data = b"one\r\ntwo\rthree\r\n\r\nfour\r".to_vec();
    let whole = hash_content(&data);
    for size in 1..data.len() + 1 {
        assert_eq!(streamed(&data, size), whole, "chunk size {size}");
    }
    assert_eq!(whole, raw_sha(b"one\ntwo\rthree\n\nfour\r"));
}

#[test]
fn raw_hasher_never_folds_line_endings() {
    let mut h = ContentHasher::new_raw();
    h.update(b"a\r\n");
    h.update(b"b");
    assert_eq!(h.finish(), raw_sha(b"a\r\nb"));
}

#[test]
fn nul_only_past_the_probe_keeps_text_mode() {
    let mut data = vec![b'x'; 8000];
    data.extend_from_slice(b"\0\r\n");
    assert!(!is_binary(&data));
    let mut expected = vec![b'x'; 8000];
    expected.extend_from_slice(b"\0\n");
    assert_eq!(hash_content(&data), raw_sha(&expected));
}

#[test]
fn binary_probe_looks_for_nul() {
    assert!(is_binary(b"ab\0c"));
    assert!(!is_binary(b"abc"));
    assert!(!is_binary(b""));
}

#[test]
fn normalize_crlf_folds_pairs_only() {
    assert_eq!(normalize_crlf(b"a\r\nb\rc\r"), b"a\nb\rc\r".to_vec());
    assert_eq!(normalize_crlf(b"\r\r\n\n"), b"\r\n\n".to_vec());
    assert_eq!(normalize_crlf(b"plain"), b"plain".to_vec());
    assert_eq!(normalize_crlf(b""), Vec::<u8>::new());
}

#[test]
fn digest_text_is_prefixed_lower_hex() {
    assert_eq!(format_digest(&[0x00, 0xab, 0x10, 0xff]), "sha256:00ab10ff");
    assert_eq!(format_digest(&[]), "sha256:");
}
