use layerstore::Buffer;
use layerstore::CaesarCipherLayer;

fn bytes_of(s: &str) -> Vec<u8> {
    s.as_bytes().to_vec()
}

#[test]
fn encrypt_hello_world_shift_3_exact() {
    let layer = CaesarCipherLayer::new(3);
    let encrypted = layer.encrypt_buffer(Buffer::from_vec(bytes_of("Hello, World!")));
    assert_eq!(
        encrypted.to_vec(),
        vec![75u8, 104, 111, 111, 114, 44, 32, 90, 114, 117, 111, 103, 33]
    );
}

#[test]
fn decrypt_hello_world_shift_3_exact() {
    let layer = CaesarCipherLayer::new(3);
    let decrypted = layer.decrypt_buffer(Buffer::from_vec(vec![
        75u8, 104, 111, 111, 114, 44, 32, 90, 114, 117, 111, 103, 33,
    ]));
    assert_eq!(decrypted.to_vec(), bytes_of("Hello, World!"));
}

#[test]
fn roundtrip_all_shifts_below_26() {
    let sample = bytes_of("The quick brown fox Jumps over 13 lazy dogs! {}[]");
    let mut shift: u8 = 0;
    while shift < 26 {
        let layer = CaesarCipherLayer::new(shift);
        let encrypted = layer.encrypt_buffer(Buffer::from_vec(sample.clone()));
        let decrypted = layer.decrypt_buffer(encrypted);
        assert_eq!(decrypted.to_vec(), sample);
        shift += 1;
    }
}

#[test]
fn roundtrip_large_shift_wraps() {
    // A shift of 29 acts like a shift of 3.
    let sample = bytes_of("abcXYZ");
    let big = CaesarCipherLayer::new(29);
    let small = CaesarCipherLayer::new(3);
    let enc_big = big.encrypt_buffer(Buffer::from_vec(sample.clone()));
    let enc_small = small.encrypt_buffer(Buffer::from_vec(sample.clone()));
    assert_eq!(enc_big.to_vec(), enc_small.to_vec());
    let decrypted = big.decrypt_buffer(enc_big);
    assert_eq!(decrypted.to_vec(), sample);
}

#[test]
fn non_alphabetic_bytes_unchanged() {
    let sample = vec![0u8, 9, 10, 32, 33, 48, 57, 64, 91, 96, 123, 200, 255];
    let layer = CaesarCipherLayer::new(7);
    let encrypted = layer.encrypt_buffer(Buffer::from_vec(sample.clone()));
    assert_eq!(encrypted.to_vec(), sample);
}

#[test]
fn alphabet_wraps_within_case() {
    let layer = CaesarCipherLayer::new(1);
    let encrypted = layer.encrypt_buffer(Buffer::from_vec(bytes_of("zZaA")));
    assert_eq!(encrypted.to_vec(), bytes_of("aAbB"));
    let layer3 = CaesarCipherLayer::new(3);
    let encrypted3 = layer3.encrypt_buffer(Buffer::from_vec(bytes_of("xyzXYZ")));
    assert_eq!(encrypted3.to_vec(), bytes_of("abcABC"));
}

#[test]
fn shift_zero_is_identity() {
    let sample = bytes_of("Hello, World!");
    let layer = CaesarCipherLayer::new(0);
    let encrypted = layer.encrypt_buffer(Buffer::from_vec(sample.clone()));
    assert_eq!(encrypted.to_vec(), sample);
    let decrypted = layer.decrypt_buffer(Buffer::from_vec(sample.clone()));
    assert_eq!(decrypted.to_vec(), sample);
}

#[test]
fn chunked_encoding_equals_whole_encoding() {
    // Chunk invariance on a concrete partition: encode the pieces of every
    // two-way split independently, concatenate, and compare with encoding the
    // whole sequence at once.
    let sample = bytes_of("Attack at dawn, bring 40 torches!");
    let layer = CaesarCipherLayer::new(11);
    let whole = layer.encrypt_buffer(Buffer::from_vec(sample.clone())).to_vec();
    let mut cut = 0;
    while cut <= sample.len() {
        let left = layer.encrypt_buffer(Buffer::from_vec(sample[..cut].to_vec()));
        let right = layer.encrypt_buffer(Buffer::from_vec(sample[cut..].to_vec()));
        let glued = left.concat(&right);
        assert_eq!(glued.to_vec(), whole);
        cut += 1;
    }
}

#[test]
fn chunked_encoding_many_pieces() {
    let sample = bytes_of("Hello, World!");
    let layer = CaesarCipherLayer::new(3);
    let whole = layer.encrypt_buffer(Buffer::from_vec(sample.clone())).to_vec();
    // One-byte chunks: the most extreme partition.
    let mut glued = Buffer::new();
    for b in &sample {
        let piece = layer.encrypt_buffer(Buffer::from_vec(vec![*b]));
        glued = glued.concat(&piece);
    }
    assert_eq!(glued.to_vec(), whole);
}

#[test]
fn encryption_is_injective_on_sample() {
    let layer = CaesarCipherLayer::new(5);
    let a = layer.encrypt_buffer(Buffer::from_vec(bytes_of("abc"))).to_vec();
    let b = layer.encrypt_buffer(Buffer::from_vec(bytes_of("abd"))).to_vec();
    assert_ne!(a, b);
}
