use qpp_rng::ascon::{generate_key, generate_random_nonce, BaselineAsconAead128, AsconError};
use qpp_rng::candidates::QppRngXorshift;
use qpp_rng::generator::QppRng;
use qpp_rng::mock_clock::MockClock;
use qpp_rng::prng::Xorshift128Plus;
use qpp_rng::rng_core::QppRngSource;

const KEY: [u8; 16] = [
    0x00, 0x01, 0x02, 0x03, 0x04, 0x05, 0x06, 0x07, 0x08, 0x09, 0x0A, 0x0B, 0x0C, 0x0D, 0x0E, 0x0F,
];

const NONCE: [u8; 16] = [
    0x10, 0x11, 0x12, 0x13, 0x14, 0x15, 0x16, 0x17, 0x18, 0x19, 0x1A, 0x1B, 0x1C, 0x1D, 0x1E, 0x1F,
];

#[test]
fn nist_sp800_232_known_answer_test() {
    let cipher = BaselineAsconAead128::new(&KEY);
    let associated_data = [0x30];
    let mut message = [0x20];
    let tag = cipher
        .encrypt_in_place(&NONCE, &associated_data, &mut message)
        .expect("Ascon encryption failed");
    assert_eq!(message, [0x96], "ciphertext does not match the official KAT");
    assert_eq!(
        tag,
        [
            0x2B, 0x80, 0x16, 0x83, 0x6C, 0x75, 0xA7, 0xD8, 0x68, 0x66, 0x58, 0x8C, 0xA2, 0x45,
            0xD8, 0x86,
        ],
        "authentication tag does not match the official KAT"
    );
    cipher
        .decrypt_in_place(&NONCE, &associated_data, &mut message, &tag)
        .expect("Ascon decryption failed");
    assert_eq!(message, [0x20], "decrypted plaintext does not match the plaintext");
}

#[test]
fn modified_tag_is_rejected() {
    let cipher = BaselineAsconAead128::new(&KEY);
    let associated_data = b"QPP-RNG-IoT";
    let mut message = *b"ASCON test";
    let mut tag = cipher
        .encrypt_in_place(&NONCE, associated_data, &mut message)
        .expect("Ascon encryption failed");
    tag[0] ^= 0x01;
    let result = cipher.decrypt_in_place(&NONCE, associated_data, &mut message, &tag);
    assert!(result.is_err(), "Ascon accepted a modified authentication tag");
    assert_eq!(result, Err(AsconError));
    assert_eq!(message, [0u8; 10], "a rejected buffer is zeroed");
}

#[test]
fn qpp_rng_supplies_ascon_key_and_nonce() {
    const INITIAL_SEED: u128 = 0xC0FF_EE00_1234_5678_9ABC_DEF0_1122_3344;
    let mut qpp_rng = QppRngXorshift::from_seed(INITIAL_SEED);
    let key = generate_key(&mut qpp_rng);
    let nonce = generate_random_nonce(&mut qpp_rng);
    let cipher = BaselineAsconAead128::new(&key);
    let associated_data = b"QPP-RNG-IoT";
    let mut message = *b"QPP-RNG + ASCON";
    let plain_message = message;
    let tag = cipher
        .encrypt_in_place(&nonce, associated_data, &mut message)
        .expect("Ascon encryption failed");
    assert_ne!(message, plain_message);
    cipher
        .decrypt_in_place(&nonce, associated_data, &mut message, &tag)
        .expect("Ascon authentication/decryption failed");
    assert_eq!(message, plain_message, "decrypted message differs from the plaintext");
}

#[test]
fn key_and_nonce_are_the_generators_next_bytes() {
    let script = vec![101u64, 43, 999, 7];
    let mut a = QppRng::<Xorshift128Plus, MockClock, 5>::new(
        Xorshift128Plus::default(),
        MockClock::new(script.clone()),
        9,
    );
    let mut b = QppRng::<Xorshift128Plus, MockClock, 5>::new(
        Xorshift128Plus::default(),
        MockClock::new(script),
        9,
    );
    let key = generate_key(&mut a);
    let nonce = generate_random_nonce(&mut a);
    let mut expected = [0u8; 32];
    b.fill_bytes(&mut expected);
    assert_eq!(&expected[..16], &key[..]);
    assert_eq!(&expected[16..], &nonce[..]);
}

#[test]
fn empty_message_still_authenticates_the_associated_data() {
    let cipher = BaselineAsconAead128::new(&KEY);
    let mut empty: [u8; 0] = [];
    let tag = cipher.encrypt_in_place(&NONCE, b"header", &mut empty).unwrap();
    assert!(cipher.decrypt_in_place(&NONCE, b"header", &mut empty, &tag).is_ok());
    assert!(cipher.decrypt_in_place(&NONCE, b"heade!", &mut empty, &tag).is_err());
}
