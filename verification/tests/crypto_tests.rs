use nano_vault::crypto::{nv_crypto_finish_derive, nv_crypto_wipe};

#[test]
fn wipe_zeroes_the_key() {
    let mut key = [0xA5u8; 32];
    nv_crypto_wipe(&mut key);
    assert_eq!(key, [0u8; 32]);
}

#[test]
fn finished_derivation_keeps_first_half() {
    let mut derived = [0u8; 64];
    for (i, b) in derived.iter_mut().enumerate() {
        *b = i as u8 + 1;
    }
    let mut key = [0u8; 32];
    assert!(nv_crypto_finish_derive(&mut derived, true, &mut key));
    let expected: Vec<u8> = (1..=32u8).collect();
    assert_eq!(key.to_vec(), expected);
    assert_eq!(derived, [0u8; 64]);
}

#[test]
fn failed_derivation_leaves_key() {
    let mut derived = [9u8; 64];
    let mut key = [3u8; 32];
    assert!(!nv_crypto_finish_derive(&mut derived, false, &mut key));
    assert_eq!(key, [3u8; 32]);
    assert_eq!(derived, [0u8; 64]);
}
