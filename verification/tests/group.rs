use evoting::elgamal::{Ciphertext, DlogTable, ElGamalParams, ExtendedCiphertext, SecretKey};
use evoting::error::{CryptoError, DecryptionError, Error};
use evoting::group::{Point, Scalar};
use rand::rngs::StdRng;
use rand::SeedableRng;

/// The order of the group, least significant byte first.
const ORDER: [u8; 32] = [
    0xed, 0xd3, 0xf5, 0x5c, 0x1a, 0x63, 0x12, 0x58, 0xd6, 0x9c, 0xf7, 0xa2, 0xde, 0xf9, 0xde, 0x14,
    0, 0, 0, 0, 0, 0, 0, 0, 0, 0, 0, 0, 0, 0, 0, 0x10,
];

/// The encoding of the generator.
const GENERATOR: [u8; 32] = [
    0xe2, 0xf2, 0xae, 0x0a, 0x6a, 0xbc, 0x4e, 0x71, 0xa8, 0x84, 0xa9, 0x61, 0xc5, 0x00, 0x51, 0x5f,
    0x58, 0xe3, 0x0b, 0x6a, 0xa5, 0x82, 0xdd, 0x8d, 0xb6, 0xa6, 0x59, 0x45, 0xe0, 0x8d, 0x2d, 0x76,
];

#[test]
fn scalars_count_modulo_the_order() {
    assert!(Scalar::from_bytes(&ORDER).is_none());
    let mut largest = ORDER;
    largest[0] -= 1;
    let last = Scalar::from_bytes(&largest).unwrap();
    assert_eq!(last.to_bytes(), largest);
    assert_eq!(last.plus(&Scalar::from_u64(3)), Scalar::from_u64(2));
    assert_eq!(Scalar::from_u64(0).minus(&Scalar::from_u64(1)), last);
    assert_eq!(last.times(&last), Scalar::from_u64(1));
    let third = Scalar::from_u64(3).inverse();
    assert_eq!(third.times(&Scalar::from_u64(3)), Scalar::from_u64(1));
    assert_ne!(third, Scalar::from_u64(3));
    let mut bytes = [0u8; 32];
    bytes[0] = 0x34;
    bytes[1] = 0x12;
    assert_eq!(Scalar::from_u64(0x1234).to_bytes(), bytes);
}

#[test]
fn points_follow_their_logarithms() {
    let g = Point::generator();
    assert_eq!(g.to_bytes(), GENERATOR);
    assert_eq!(Point::from_bytes(&GENERATOR), Some(g));
    assert_eq!(Point::identity().to_bytes(), [0u8; 32]);
    assert!(Point::identity().is_identity() && !g.is_identity());
    let two = g.times(&Scalar::from_u64(2));
    assert_eq!(g.plus(&g), two);
    assert_eq!(two.minus(&g), g);
    assert_eq!(g.minus(&g), Point::identity());
    assert_eq!(two.times(&Scalar::from_u64(2).inverse()), g);
    assert!(Point::from_bytes(&[0xff; 32]).is_none());
    assert!(Point::from_bytes(&GENERATOR[..31]).is_none());
    let mut rng = StdRng::seed_from_u64(31);
    assert_ne!(Point::random(&mut rng), Point::random(&mut rng));
}

#[test]
fn tables_of_logarithms() {
    let table = DlogTable::new(vec![2, 5]);
    let multiple = |k: u64| Point::generator().times(&Scalar::from_u64(k));
    assert_eq!(table.get(&Point::identity()), Some(0));
    assert_eq!(table.get(&multiple(2)), Some(2));
    assert_eq!(table.get(&multiple(5)), Some(5));
    assert_eq!(table.get(&multiple(1)), None);
}

#[test]
fn ciphertexts_compute_on_plaintexts() {
    let mut rng = StdRng::seed_from_u64(32);
    let params = ElGamalParams::new(&mut rng);
    let sk = SecretKey::new(&mut rng);
    let pk = sk.to_public(&params);
    let m = Point::random(&mut rng);
    let n = Point::random(&mut rng);
    let k = Scalar::from_u64(7);
    let a = ExtendedCiphertext::new(&pk, &params, &m, &mut rng).inner;
    let b = ExtendedCiphertext::new(&pk, &params, &n, &mut rng).inner;
    assert_eq!(sk.decrypt(&a), m);
    assert_eq!(sk.decrypt(&a.plus(&b)), m.plus(&n));
    assert_eq!(sk.decrypt(&a.minus(&b)), m.minus(&n));
    assert_eq!(sk.decrypt(&a.times(&k)), m.times(&k));
    assert_eq!(sk.decrypt(&a.hom_sub(&n)), m.minus(&n));
    assert_eq!(sk.decrypt(&a.hom_add(&n)), m.plus(&n));
    let again = ExtendedCiphertext::re_encrypt(&a, &pk, &params, &mut rng);
    assert_ne!(again.inner, a);
    assert_eq!(sk.decrypt(&again.inner), m);
    assert_eq!(Ciphertext::from_bytes(&a.to_bytes()), Some(a));
    assert_eq!(Ciphertext::from_bytes(&a.to_bytes()[..95]), None);
    assert_eq!(sk.decrypt(&Ciphertext::sum(&vec![a, b, a])), m.plus(&n).plus(&m));
    assert!(sk.decrypt(&Ciphertext::zero()).is_identity());
}

#[test]
fn texts_of_errors() {
    let texts = [
        (
            Error::InvalidSize("three".to_string()),
            "Input has inconsistent size: three",
        ),
        (
            Error::IdOutOfRange(12),
            "The ID:12 given in input is outside the range of RegistrationTeller",
        ),
        (
            Error::IdMissmatch(0),
            "The ID:0 included in the Credential is different from the position inside the list!",
        ),
        (
            Error::DvKeysNotSet(3),
            "The Designated Verifier public key of ID:3 is not set!",
        ),
        (
            Error::from(CryptoError::ChallengeMismatch),
            "Verification Failed: challenge does not match the one derived from the transcript",
        ),
        (Error::from(DecryptionError::ElementNotFound), "Decryption Failed"),
        (
            Error::FailedCredentialControl(4),
            "The ID:4 failed the credential control check",
        ),
        (
            Error::FailedVerifiableDecryption(105),
            "The ID:105 failed the veryfiable decryption check",
        ),
        (Error::CiphertextMismatch("x".to_string()), "Ciphertext mismatch: x"),
        (Error::DlogMismatch("y".to_string()), "Dlog mismatch: y"),
        (Error::Mismatch("z".to_string()), "Mismatch: z"),
    ];
    for (error, text) in texts {
        assert_eq!(error.to_string(), text);
    }
    assert_eq!(
        CryptoError::CommitmentMismatch.to_string(),
        "commitment does not match the one provided in the proof"
    );
    assert_eq!(CryptoError::LengthMismatch.to_string(), "length does not match");
    assert_eq!(
        CryptoError::InvalidInputShape.to_string(),
        "invalid input shape/order for verification"
    );
    assert_eq!(
        CryptoError::RandomPointMismatch.to_string(),
        "random point reconstructed from randomness does not match"
    );
    assert_eq!(
        CryptoError::ElementNotFound.to_string(),
        "element not found (e.g., lookup table may be too small)"
    );
}
