use harsh::{Harsh, HarshBuilder};

const TEST_ALPHABET: &[u8] = b"abcdefghijklmnopqrstuvwxyzABCDEFGHIJKLMNOPQRSTUVWXYZ1234567890";
const TEST_SEPARATORS: &[u8] = b"cfhistuCFHISTU";

#[test]
fn harsh_default_does_not_panic() {
    Harsh::default();
}

#[test]
fn can_encode() {
    let harsh = HarshBuilder::new()
        .salt("this is my salt")
        .init()
        .expect("failed to initialize harsh");

    assert_eq!(
        "4o6Z7KqxE",
        harsh.encode(&[1226198605112]).expect("failed to encode"),
        "error encoding [1226198605112]"
    );
    assert_eq!(
        "laHquq",
        harsh.encode(&[1, 2, 3]).expect("failed to encode")
    );
}

#[test]
fn can_encode_with_guards() {
    let harsh = HarshBuilder::new()
        .salt("this is my salt")
        .length(8)
        .init()
        .expect("failed to initialize harsh");

    assert_eq!(
        "GlaHquq0",
        harsh.encode(&[1, 2, 3]).expect("failed to encode")
    );
}

#[test]
fn can_encode_with_padding() {
    let harsh = HarshBuilder::new()
        .salt("this is my salt")
        .length(12)
        .init()
        .expect("failed to initialize harsh");

    assert_eq!(
        "9LGlaHquq06D",
        harsh.encode(&[1, 2, 3]).expect("failed to encode")
    );
}

#[test]
fn can_decode() {
    let harsh = HarshBuilder::new()
        .salt("this is my salt")
        .init()
        .expect("failed to initialize harsh");

    assert_eq!(
        &[1226198605112],
        &harsh.decode("4o6Z7KqxE").expect("failed to decode")[..],
        "error decoding \"4o6Z7KqxE\""
    );
    assert_eq!(
        &[1u64, 2, 3],
        &harsh.decode("laHquq").expect("failed to decode")[..]
    );
}

#[test]
fn can_decode_with_guards() {
    let harsh = HarshBuilder::new()
        .salt("this is my salt")
        .length(8)
        .init()
        .expect("failed to initialize harsh");

    assert_eq!(
        &[1u64, 2, 3],
        &harsh.decode("GlaHquq0").expect("failed to decode")[..]
    );
}

#[test]
fn can_decode_with_padding() {
    let harsh = HarshBuilder::new()
        .salt("this is my salt")
        .length(12)
        .init()
        .expect("failed to initialize harsh");

    assert_eq!(
        &[1u64, 2, 3],
        &harsh.decode("9LGlaHquq06D").expect("failed to decode")[..]
    );
}

#[test]
fn can_encode_hex() {
    let harsh = HarshBuilder::new()
        .salt("this is my salt")
        .init()
        .expect("failed to initialize harsh");

    assert_eq!(
        "lzY",
        &harsh.encode_hex("FA").expect("failed to encode"),
        "error encoding `FA`"
    );
    assert_eq!(
        "MemE",
        &harsh.encode_hex("26dd").expect("failed to encode"),
        "error encoding `26dd`"
    );
    assert_eq!(
        "eBMrb",
        &harsh.encode_hex("FF1A").expect("failed to encode"),
        "error encoding `FF1A`"
    );
    assert_eq!(
        "D9NPE",
        &harsh.encode_hex("12abC").expect("failed to encode"),
        "error encoding `12abC`"
    );
    assert_eq!(
        "9OyNW",
        &harsh.encode_hex("185b0").expect("failed to encode"),
        "error encoding `185b0`"
    );
    assert_eq!(
        "MRWNE",
        &harsh.encode_hex("17b8d").expect("failed to encode"),
        "error encoding `17b8d`"
    );
    assert_eq!(
        "4o6Z7KqxE",
        &harsh.encode_hex("1d7f21dd38").expect("failed to encode"),
        "error encoding `1d7f21dd38`"
    );
    assert_eq!(
        "ooweQVNB",
        &harsh.encode_hex("20015111d").expect("failed to encode"),
        "error encoding `20015111d`"
    );
    assert_eq!(
        "kRNrpKlJ",
        &harsh.encode_hex("deadbeef").expect("failed to encode"),
        "error encoding `deadbeef`"
    );

    let harsh = HarshBuilder::new().init().unwrap();
    assert_eq!(
        "y42LW46J9luq3Xq9XMly",
        &harsh
            .encode_hex("507f1f77bcf86cd799439011")
            .expect("failed to encode"),
        "error encoding `507f1f77bcf86cd799439011`"
    );
}

#[test]
fn can_encode_hex_with_guards() {
    let harsh = HarshBuilder::new()
        .salt("this is my salt")
        .length(10)
        .init()
        .expect("failed to initialize harsh");

    assert_eq!(
        "GkRNrpKlJd",
        &harsh.encode_hex("deadbeef").expect("failed to encode")
    );
}

#[test]
fn can_encode_hex_with_padding() {
    let harsh = HarshBuilder::new()
        .salt("this is my salt")
        .length(12)
        .init()
        .expect("failed to initialize harsh");

    assert_eq!(
        "RGkRNrpKlJde",
        &harsh.encode_hex("deadbeef").expect("failed to encode")
    );
}

#[test]
fn can_decode_hex() {
    let harsh = HarshBuilder::new()
        .salt("this is my salt")
        .init()
        .expect("failed to initialize harsh");

    assert_eq!(
        "fa",
        harsh.decode_hex("lzY").expect("failed to decode"),
        "error decoding `FA`"
    );
    assert_eq!(
        "26dd",
        harsh.decode_hex("MemE").expect("failed to decode"),
        "error decoding `26dd`"
    );
    assert_eq!(
        "ff1a",
        harsh.decode_hex("eBMrb").expect("failed to decode"),
        "error decoding `FF1A`"
    );
    assert_eq!(
        "12abc",
        harsh.decode_hex("D9NPE").expect("failed to decode"),
        "error decoding `12abC`"
    );
    assert_eq!(
        "185b0",
        harsh.decode_hex("9OyNW").expect("failed to decode"),
        "error decoding `185b0`"
    );
    assert_eq!(
        "17b8d",
        harsh.decode_hex("MRWNE").expect("failed to decode"),
        "error decoding `17b8d`"
    );
    assert_eq!(
        "1d7f21dd38",
        harsh.decode_hex("4o6Z7KqxE").expect("failed to decode"),
        "error decoding `1d7f21dd38`"
    );
    assert_eq!(
        "20015111d",
        harsh.decode_hex("ooweQVNB").expect("failed to decode"),
        "error decoding `20015111d`"
    );
    assert_eq!(
        "deadbeef",
        harsh.decode_hex("kRNrpKlJ").expect("failed to decode"),
        "error decoding `deadbeef`"
    );

    let harsh = HarshBuilder::new().init().unwrap();
    assert_eq!(
        "507f1f77bcf86cd799439011",
        harsh
            .decode_hex("y42LW46J9luq3Xq9XMly")
            .expect("failed to decode"),
        "error decoding `y42LW46J9luq3Xq9XMly`"
    );
}

#[test]
fn can_decode_hex_with_guards() {
    let harsh = HarshBuilder::new()
        .salt("this is my salt")
        .length(10)
        .init()
        .expect("failed to initialize harsh");

    assert_eq!(
        "deadbeef",
        harsh.decode_hex("GkRNrpKlJd").expect("failed to decode"),
        "failed to decode GkRNrpKlJd"
    );
}

#[test]
fn can_decode_hex_with_padding() {
    let harsh = HarshBuilder::new()
        .salt("this is my salt")
        .length(12)
        .init()
        .expect("failed to initialize harsh");

    assert_eq!(
        "deadbeef",
        harsh.decode_hex("RGkRNrpKlJde").expect("failed to decode"),
        "failed to decode RGkRNrpKlJde"
    );
}

#[test]
fn can_encode_with_custom_alphabet() {
    let harsh = HarshBuilder::new()
        .alphabet("abcdefghijklmnopqrstuvwxyz")
        .init()
        .expect("failed to initialize harsh");

    assert_eq!(
        "mdfphx",
        harsh.encode(&[1, 2, 3]).expect("failed to encode"),
        "failed to encode [1, 2, 3]"
    );
}

#[test]
fn can_decode_with_invalid_alphabet() {
    let harsh = Harsh::default();
    assert_eq!(None, harsh.decode("this$ain't|a\number"));
}

#[test]
fn can_decode_with_custom_alphabet() {
    let harsh = HarshBuilder::new()
        .alphabet("abcdefghijklmnopqrstuvwxyz")
        .init()
        .expect("failed to initialize harsh");

    assert_eq!(
        &[1, 2, 3],
        &harsh.decode("mdfphx").expect("failed to decode")[..],
        "failed to decode mdfphx"
    );
}

#[test]
fn create_nhash() {
    let values = &[1, 2, 3];
    let nhash = harsh::create_nhash(values);
    assert_eq!(6, nhash);
}

#[test]
fn hash() {
    let result = harsh::hash(22, b"abcdefghijklmnopqrstuvwxyz");
    assert_eq!("w", result);
}

#[test]
fn alphabet_and_separator_generation() {
    let (alphabet, separators) = harsh::alphabet_and_separators(
        &Some(TEST_SEPARATORS.to_vec()),
        TEST_ALPHABET,
        b"this is my salt",
    );

    assert_eq!(
        "AdG05N6y2rljDQak4xgzn8ZR1oKYLmJpEbVq3OBv9WwXPMe7",
        alphabet.iter().map(|&u| u as char).collect::<String>()
    );
    assert_eq!(
        "UHuhtcITCsFifS",
        separators.iter().map(|&u| u as char).collect::<String>()
    );
}

#[test]
fn alphabet_and_separator_generation_with_few_separators() {
    let separators = b"fu";
    let (alphabet, separators) = harsh::alphabet_and_separators(
        &Some(separators.to_vec()),
        TEST_ALPHABET,
        b"this is my salt",
    );

    assert_eq!(
        "4RVQrYM87wKPNSyTBGU1E6FIC9ALtH0ZD2Wxz3vs5OXJ",
        alphabet.iter().map(|&u| u as char).collect::<String>()
    );
    assert_eq!(
        "ufabcdeghijklmnopq",
        separators.iter().map(|&u| u as char).collect::<String>()
    );
}

#[test]
fn shuffle() {
    let salt = b"1234";
    let mut values = "asdfzxcvqwer".bytes().collect::<Vec<_>>();
    harsh::shuffle(&mut values, salt);

    assert_eq!("vdwqfrzcsxae", String::from_utf8_lossy(&values));
}

#[test]
fn guard_characters_should_be_added_to_left_first() {
    let harsh = HarshBuilder::new().length(3).init().unwrap();
    let hashed_value = harsh.encode(&[1]).unwrap();

    assert_eq!(&hashed_value, "ejR");
    assert_eq!(
        Some(vec![1]),
        harsh.decode("ejR"),
        "should return None when decoding a valid id with a garbage ending",
    );
}

#[test]
fn round_trip_recovers_the_values() {
    let harsh = HarshBuilder::new()
        .salt("salted caramel")
        .length(20)
        .init()
        .expect("failed to initialize harsh");

    let values = [0u64, 7, 7, 123456789, u64::MAX];
    let encoded = harsh.encode(&values).expect("failed to encode");
    assert_eq!(Some(values.to_vec()), harsh.decode(&encoded));
}

#[test]
fn hex_round_trip_lowercases() {
    let harsh = HarshBuilder::new()
        .salt("salted caramel")
        .init()
        .expect("failed to initialize harsh");

    let encoded = harsh.encode_hex("AbCdEf0123").expect("failed to encode");
    assert_eq!(Some("abcdef0123".to_owned()), harsh.decode_hex(&encoded));
}

#[test]
fn encoding_is_deterministic() {
    let first = HarshBuilder::new()
        .salt("this is my salt")
        .init()
        .expect("failed to initialize harsh");
    let second = HarshBuilder::new()
        .salt("this is my salt")
        .init()
        .expect("failed to initialize harsh");

    assert_eq!(first.encode(&[42, 4711]), second.encode(&[42, 4711]));
    assert_eq!(first.encode(&[42, 4711]), first.encode(&[42, 4711]));
}

#[test]
fn encoding_meets_the_minimum_length() {
    for length in [0usize, 1, 8, 30] {
        let harsh = HarshBuilder::new()
            .salt("this is my salt")
            .length(length)
            .init()
            .expect("failed to initialize harsh");
        assert!(harsh.encode(&[1]).expect("failed to encode").len() >= length);
    }
}

#[test]
fn resolved_sets_are_disjoint_and_duplicate_free() {
    let harsh = HarshBuilder::new()
        .salt("this is my salt")
        .init()
        .expect("failed to initialize harsh");

    let sets = [&harsh.alphabet, &harsh.separators, &harsh.guards];
    for (i, set) in sets.iter().enumerate() {
        for (k, byte) in set.iter().enumerate() {
            assert!(!set[k + 1..].contains(byte), "duplicate in set {i}");
        }
        for (j, other) in sets.iter().enumerate() {
            if i != j {
                for byte in other.iter() {
                    assert!(!set.contains(byte), "sets {i} and {j} overlap");
                }
            }
        }
    }
}

#[test]
fn encoding_nothing_yields_nothing() {
    let harsh = Harsh::default();
    assert_eq!(None, harsh.encode(&[]));
}

#[test]
fn decoding_foreign_bytes_fails() {
    let harsh = Harsh::default();
    assert_eq!(None, harsh.decode("a##"));
    assert_eq!(None, harsh.decode(""));
    assert_eq!(None, harsh.decode("a"));
}

#[test]
fn space_in_alphabet_is_rejected() {
    let result = HarshBuilder::new().alphabet("why would anyone do this?").init();
    assert_eq!(Some(harsh::Error::IllegalCharacter(' ')), result.err());
}

#[test]
fn short_alphabet_is_rejected() {
    let result = HarshBuilder::new().alphabet("abcdefgabcdefg").init();
    assert_eq!(Some(harsh::Error::AlphabetLength), result.err());
}

#[test]
fn alphabet_consumed_by_separators_is_rejected() {
    let result = HarshBuilder::new()
        .alphabet("cfhistuCFHISTUabcdefg")
        .init();
    assert_eq!(Some(harsh::Error::AlphabetLength), result.err());
}

#[test]
fn unhash_inverts_hash() {
    assert_eq!(Some(22), harsh::unhash(b"w", b"abcdefghijklmnopqrstuvwxyz"));
    assert_eq!(
        Some(742),
        harsh::unhash(b"bco", b"abcdefghijklmnopqrstuvwxyz")
    );
    assert_eq!(None, harsh::unhash(b"", b"abcdefghijklmnopqrstuvwxyz"));
    assert_eq!(None, harsh::unhash(b"A", b"abcdefghijklmnopqrstuvwxyz"));
}

#[test]
fn encode_hex_rejects_non_hex() {
    let harsh = Harsh::default();
    assert_eq!(None, harsh.encode_hex("xyz"));
    assert_eq!(None, harsh.encode_hex(""));
}
