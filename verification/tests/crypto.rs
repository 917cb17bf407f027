use cbench::bencher::crypto_stress;
use cbench::load::{decrypt_buf, encrypt_buf, CryptoError, NONCE_LEN, TAG_LEN};

const KEY: [u8; 32] = [7u8; 32];

#[test]
fn encrypt_then_decrypt_gives_back_input() {
    let input: Vec<u8> = (0..100u8).collect();
    let mut frame = vec![0u8; NONCE_LEN + input.len() + TAG_LEN];
    let n = encrypt_buf(&input, &mut frame, &KEY).unwrap();
    assert_eq!(n, 128);
    assert_ne!(&frame[NONCE_LEN..NONCE_LEN + input.len()], &input[..]);
    let mut out = vec![0u8; input.len()];
    let m = decrypt_buf(&frame, &mut out, &KEY).unwrap();
    assert_eq!(m, 100);
    assert_eq!(out, input);
}

#[test]
fn encrypt_leaves_the_rest_of_output_alone() {
    let input = b"hello world";
    let mut frame = vec![0xAAu8; 60];
    let n = encrypt_buf(input, &mut frame, &KEY).unwrap();
    assert_eq!(n, 12 + 11 + 16);
    assert!(frame[n..].iter().all(|&b| b == 0xAA));
    let mut out = vec![0x55u8; 20];
    assert_eq!(decrypt_buf(&frame[..n], &mut out, &KEY), Ok(11));
    assert_eq!(&out[..11], input);
    assert!(out[11..].iter().all(|&b| b == 0x55));
}

#[test]
fn encrypt_empty_input() {
    let mut frame = [0u8; 28];
    assert_eq!(encrypt_buf(&[], &mut frame, &KEY), Ok(28));
    let mut out: [u8; 0] = [];
    assert_eq!(decrypt_buf(&frame, &mut out, &KEY), Ok(0));
}

#[test]
fn encrypt_output_too_small() {
    let mut frame = [9u8; 30];
    assert_eq!(
        encrypt_buf(&[1, 2, 3], &mut frame, &KEY),
        Err(CryptoError::OutputTooSmall { needed: 31 })
    );
    assert_eq!(frame, [9u8; 30]);
}

#[test]
fn decrypt_ciphertext_too_short() {
    let mut out = [0u8; 4];
    assert_eq!(decrypt_buf(&[0u8; 27], &mut out, &KEY), Err(CryptoError::CiphertextTooShort));
}

#[test]
fn decrypt_output_too_small() {
    let mut frame = [0u8; 38];
    encrypt_buf(&[5u8; 10], &mut frame, &KEY).unwrap();
    let mut out = [1u8; 9];
    assert_eq!(decrypt_buf(&frame, &mut out, &KEY), Err(CryptoError::OutputTooSmall { needed: 10 }));
    assert_eq!(out, [1u8; 9]);
}

#[test]
fn decrypt_rejects_tampered_or_wrong_key() {
    let mut frame = [0u8; 38];
    encrypt_buf(&[5u8; 10], &mut frame, &KEY).unwrap();
    let mut tampered = frame;
    tampered[15] ^= 1;
    let mut out = [0u8; 10];
    assert_eq!(decrypt_buf(&tampered, &mut out, &KEY), Err(CryptoError::Aead));
    assert_eq!(decrypt_buf(&frame, &mut out, &[8u8; 32]), Err(CryptoError::Aead));
}

#[test]
fn nonces_differ_between_encryptions() {
    let mut a = [0u8; 44];
    let mut b = [0u8; 44];
    encrypt_buf(&[3u8; 16], &mut a, &KEY).unwrap();
    encrypt_buf(&[3u8; 16], &mut b, &KEY).unwrap();
    assert_ne!(a[..NONCE_LEN], b[..NONCE_LEN]);
}

#[test]
fn crypto_stress_round_trips() {
    let mut plan = vec![0u8; 1000];
    for (i, b) in plan.iter_mut().enumerate() {
        *b = (i * 31 % 251) as u8;
    }
    let expected = plan.clone();
    let mut cipher = vec![0u8; 1028];
    let mut hash = vec![4u8; 64];
    assert_eq!(crypto_stress(&mut plan, &mut cipher, KEY, &mut hash), Ok(()));
    assert_eq!(plan, expected);
    assert_eq!(hash, vec![4u8; 64]);
    let mut out = vec![0u8; 1000];
    assert_eq!(decrypt_buf(&cipher, &mut out, &KEY), Ok(1000));
    assert_eq!(out, expected);
}

#[test]
fn crypto_stress_buffer_mismatch() {
    let mut plan = vec![1u8; 10];
    let mut hash = vec![0u8; 8];
    let mut short = vec![0u8; 37];
    assert_eq!(
        crypto_stress(&mut plan, &mut short, KEY, &mut hash),
        Err(CryptoError::OutputTooSmall { needed: 38 })
    );
    let mut long = vec![0u8; 40];
    assert_eq!(
        crypto_stress(&mut plan, &mut long, KEY, &mut hash),
        Err(CryptoError::OutputTooSmall { needed: 12 })
    );
    assert_eq!(plan, vec![1u8; 10]);
}
