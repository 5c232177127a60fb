use block_modes::blocks::{group, pad, string_to_u8_16, un_group, un_pad, vec_u8_to_u8_16};
use block_modes::cbc::{cbc_decrypt, cbc_encrypt, cbc_encrypt_with_iv};
use block_modes::ctr::{ctr_decrypt, ctr_decrypt_block, ctr_encrypt, ctr_encrypt_with_nonce};
use block_modes::ecb::{ecb_decrypt, ecb_encrypt};
use block_modes::CipherError;

#[test]
fn un_group_test() {
    let plaintext = "Hello, world!";
    let data = string_to_u8_16(plaintext);
    let padded = pad(data.to_vec());
    let group_data = group(padded).unwrap();
    assert_eq!(
        vec![
            72, 101, 108, 108, 111, 44, 32, 119, 111, 114, 108, 100, 33, 0, 0, 0, 16, 16, 16, 16,
            16, 16, 16, 16, 16, 16, 16, 16, 16, 16, 16, 16
        ],
        un_group(group_data)
    )
}

#[test]
fn un_pad_test() {
    let plaintext = "Hello, world!";
    let data = string_to_u8_16(plaintext);
    let padded = pad(data.to_vec());
    assert_eq!(
        vec![72, 101, 108, 108, 111, 44, 32, 119, 111, 114, 108, 100, 33, 0, 0, 0],
        un_pad(padded).unwrap()
    )
}

#[test]
fn ecb_encrypt_test() {
    let plaintext = "Hello, world!";
    let key = "PBA";
    let _key = string_to_u8_16(key);
    let data = string_to_u8_16(plaintext);
    let cipher_text = ecb_encrypt(data.to_vec(), _key);
    // The aligned message gains a whole padding block; the first block of
    // ciphertext enciphers the message block itself.
    assert_eq!(cipher_text.len(), 32);
    assert_eq!(
        vec![211, 31, 103, 243, 12, 56, 41, 155, 23, 60, 70, 227, 13, 165, 132, 46],
        cipher_text[..16].to_vec()
    )
}

#[test]
fn ecb_decrypt_test() {
    let plaintext = "Hello, world!";
    let key = "PBA";
    let _key = string_to_u8_16(key);
    let data = string_to_u8_16(plaintext);
    let cipher_text = ecb_encrypt(data.to_vec(), _key);
    assert_eq!(
        vec![72, 101, 108, 108, 111, 44, 32, 119, 111, 114, 108, 100, 33, 0, 0, 0],
        ecb_decrypt(cipher_text.to_vec(), _key).unwrap()
    )
}

#[test]
fn cbc_encrypt_test() {
    let plaintext = "Hello, world!";
    let key = "PBA";
    let _key = string_to_u8_16(key);
    let data = string_to_u8_16(plaintext);
    // With an all-zero IV the first ciphertext block after the IV enciphers
    // the first plaintext block unchanged.
    let cipher_text = cbc_encrypt_with_iv(data.to_vec(), _key, [0u8; 16]);
    assert_eq!(cipher_text.len(), 48);
    assert_eq!(vec![0u8; 16], cipher_text[..16].to_vec());
    assert_eq!(
        vec![211, 31, 103, 243, 12, 56, 41, 155, 23, 60, 70, 227, 13, 165, 132, 46],
        cipher_text[16..32].to_vec()
    )
}

#[test]
fn cbc_decrypt_test() {
    let plaintext = "Hello, world!";
    let key = "PBA";
    let _key = string_to_u8_16(key);
    let data = string_to_u8_16(plaintext);
    let cipher_text = cbc_encrypt(data.to_vec(), _key);
    assert_eq!(
        vec![72, 101, 108, 108, 111, 44, 32, 119, 111, 114, 108, 100, 33, 0, 0, 0],
        cbc_decrypt(cipher_text, _key).unwrap()
    )
}

fn sample_key() -> [u8; 16] {
    [0, 1, 2, 3, 4, 5, 6, 7, 8, 9, 10, 11, 12, 13, 14, 15]
}

#[test]
fn aes_known_answer_through_ecb() {
    let plain: Vec<u8> = vec![
        0x00, 0x11, 0x22, 0x33, 0x44, 0x55, 0x66, 0x77, 0x88, 0x99, 0xaa, 0xbb, 0xcc, 0xdd, 0xee,
        0xff,
    ];
    let c = ecb_encrypt(plain.clone(), sample_key());
    assert_eq!(
        c[..16].to_vec(),
        vec![
            0x69, 0xc4, 0xe0, 0xd8, 0x6a, 0x7b, 0x04, 0x30, 0xd8, 0xcd, 0xb7, 0x80, 0x70, 0xb4,
            0xc5, 0x5a
        ]
    );
    assert_eq!(ecb_decrypt(c, sample_key()).unwrap(), plain);
}

#[test]
fn pad_short_message_example() {
    let padded = pad(b"Hello, world!".to_vec());
    assert_eq!(
        padded,
        vec![72, 101, 108, 108, 111, 44, 32, 119, 111, 114, 108, 100, 33, 3, 3, 3]
    );
}

#[test]
fn pad_aligned_message_adds_full_block() {
    let data = vec![7u8; 16];
    let padded = pad(data.clone());
    assert_eq!(padded.len(), 32);
    assert_eq!(padded[16..].to_vec(), vec![16u8; 16]);
    assert_eq!(un_pad(padded).unwrap(), data);
}

#[test]
fn pad_empty_message_round_trip() {
    let padded = pad(Vec::new());
    assert_eq!(padded, vec![16u8; 16]);
    assert_eq!(un_pad(padded).unwrap(), Vec::<u8>::new());
}

#[test]
fn un_pad_rejects_zero_last_byte() {
    let mut block = vec![1u8; 16];
    block[15] = 0;
    assert_eq!(un_pad(block), Err(CipherError::InvalidPadding));
}

#[test]
fn un_pad_rejects_last_byte_above_block_size() {
    let mut block = vec![17u8; 32];
    block[31] = 17;
    assert_eq!(un_pad(block), Err(CipherError::InvalidPadding));
}

#[test]
fn un_pad_rejects_inconsistent_tail() {
    let block = vec![9, 9, 9, 9, 9, 9, 9, 9, 9, 9, 9, 9, 9, 4, 3, 3];
    assert_eq!(un_pad(block), Err(CipherError::InvalidPadding));
    assert_eq!(un_pad(Vec::new()), Err(CipherError::InvalidPadding));
}

#[test]
fn group_refuses_unaligned_input() {
    assert_eq!(group(vec![0u8; 15]), Err(CipherError::InvalidBlockLength));
    assert_eq!(group(Vec::new()), Ok(Vec::new()));
}

#[test]
fn group_then_un_group_round_trip() {
    let data: Vec<u8> = (0u8..48).collect();
    let blocks = group(data.clone()).unwrap();
    assert_eq!(blocks.len(), 3);
    assert_eq!(blocks[1][0], 16);
    assert_eq!(un_group(blocks), data);
}

#[test]
fn fixed_block_conversions() {
    assert_eq!(vec_u8_to_u8_16(vec![1, 2, 3]), [1, 2, 3, 0, 0, 0, 0, 0, 0, 0, 0, 0, 0, 0, 0, 0]);
    let long: Vec<u8> = (0u8..20).collect();
    assert_eq!(vec_u8_to_u8_16(long).to_vec(), (0u8..16).collect::<Vec<u8>>());
    assert_eq!(string_to_u8_16("PBA")[..4].to_vec(), vec![80, 66, 65, 0]);
}

#[test]
fn ecb_equal_blocks_give_equal_ciphertext() {
    let mut plain = vec![42u8; 16];
    plain.extend(vec![5u8; 16]);
    plain.extend(vec![42u8; 16]);
    let c = ecb_encrypt(plain, sample_key());
    assert_eq!(c.len(), 64);
    assert_eq!(c[0..16], c[32..48]);
    assert_ne!(c[0..16], c[16..32]);
}

#[test]
fn ecb_round_trip_various_lengths() {
    for n in [0usize, 1, 15, 16, 17, 33] {
        let plain: Vec<u8> = (0..n).map(|i| (i * 7) as u8).collect();
        let c = ecb_encrypt(plain.clone(), sample_key());
        assert_eq!(ecb_decrypt(c, sample_key()).unwrap(), plain);
    }
}

#[test]
fn ecb_decrypt_length_errors() {
    assert_eq!(ecb_decrypt(vec![0u8; 15], sample_key()), Err(CipherError::InvalidCiphertextLength));
    assert_eq!(ecb_decrypt(vec![0u8; 17], sample_key()), Err(CipherError::InvalidBlockLength));
}

#[test]
fn cbc_round_trip_various_lengths() {
    for n in [0usize, 1, 16, 31, 32, 50] {
        let plain: Vec<u8> = (0..n).map(|i| (i * 3 + 1) as u8).collect();
        let c = cbc_encrypt(plain.clone(), sample_key());
        assert_eq!(c.len(), 16 * (n / 16 + 2));
        assert_eq!(cbc_decrypt(c, sample_key()).unwrap(), plain);
    }
}

#[test]
fn cbc_change_in_one_block_propagates_forward() {
    let plain = vec![0u8; 48];
    let mut changed = plain.clone();
    changed[17] ^= 1;
    let iv = [9u8; 16];
    let a = cbc_encrypt_with_iv(plain, sample_key(), iv);
    let b = cbc_encrypt_with_iv(changed, sample_key(), iv);
    assert_eq!(a[..32], b[..32]);
    for blk in 2..5 {
        assert_ne!(a[16 * blk..16 * blk + 16], b[16 * blk..16 * blk + 16]);
    }
}

#[test]
fn cbc_different_ivs_give_different_ciphertexts() {
    let plain = b"same message".to_vec();
    let a = cbc_encrypt_with_iv(plain.clone(), sample_key(), [1u8; 16]);
    let b = cbc_encrypt_with_iv(plain, sample_key(), [2u8; 16]);
    assert_ne!(a, b);
    assert_eq!(a[..16].to_vec(), vec![1u8; 16]);
}

#[test]
fn cbc_decrypt_length_errors() {
    assert_eq!(cbc_decrypt(vec![0u8; 16], sample_key()), Err(CipherError::InvalidCiphertextLength));
    assert_eq!(cbc_decrypt(vec![0u8; 40], sample_key()), Err(CipherError::InvalidCiphertextLength));
}

#[test]
fn cbc_decrypt_reports_bad_padding() {
    let iv = [0u8; 16];
    let c = cbc_encrypt_with_iv(vec![1u8; 5], sample_key(), iv);
    let mut tampered = c.clone();
    tampered[20] ^= 0xff;
    // Flipping a byte of the first block scrambles the last plaintext block,
    // whose padding then fails.
    assert_eq!(cbc_decrypt(tampered, sample_key()), Err(CipherError::InvalidPadding));
}

#[test]
fn ctr_round_trip_various_lengths() {
    for n in [0usize, 1, 15, 16, 17, 40] {
        let plain: Vec<u8> = (0..n).map(|i| (i * 5 + 2) as u8).collect();
        let c = ctr_encrypt(plain.clone(), sample_key());
        assert_eq!(c.len(), n + 8);
        assert_eq!(ctr_decrypt(c, sample_key()).unwrap(), plain);
    }
}

#[test]
fn ctr_keystream_layout() {
    let nonce = [1u8, 2, 3, 4, 5, 6, 7, 8];
    let c = ctr_encrypt_with_nonce(vec![0u8; 20], sample_key(), nonce);
    assert_eq!(c[..8].to_vec(), nonce.to_vec());
    let mut v0 = nonce.to_vec();
    v0.extend([0u8; 8]);
    let mut v1 = nonce.to_vec();
    v1.extend([1u8, 0, 0, 0, 0, 0, 0, 0]);
    let k0 = ecb_encrypt(v0, sample_key());
    let k1 = ecb_encrypt(v1, sample_key());
    assert_eq!(c[8..24].to_vec(), k0[..16].to_vec());
    assert_eq!(c[24..28].to_vec(), k1[..4].to_vec());
}

#[test]
fn ctr_block_decrypts_alone() {
    let nonce = [8u8, 7, 6, 5, 4, 3, 2, 1];
    let plain: Vec<u8> = (0u8..40).collect();
    let c = ctr_encrypt_with_nonce(plain.clone(), sample_key(), nonce);
    let body = &c[8..];
    assert_eq!(ctr_decrypt_block(sample_key(), nonce, 1, body[16..32].to_vec()), plain[16..32].to_vec());
    assert_eq!(ctr_decrypt_block(sample_key(), nonce, 2, body[32..].to_vec()), plain[32..].to_vec());
}

#[test]
fn ctr_decrypt_length_error() {
    assert_eq!(ctr_decrypt(vec![0u8; 7], sample_key()), Err(CipherError::InvalidCiphertextLength));
    assert_eq!(ctr_decrypt(vec![0u8; 8], sample_key()), Ok(Vec::new()));
}
