use alba_core::alba_types::AlbaTypes;
use alba_core::bucket::{float_index, GetIndex};
use std::hash::{BuildHasher, BuildHasherDefault, DefaultHasher, Hash, Hasher};

fn float_key(f: f64) -> u64 {
    if f.is_nan() {
        return 0;
    }
    (f.abs() as u64) / 4096
}

#[test]
fn integers_go_by_their_magnitude() {
    assert_eq!(0i32.get_index(), 0);
    assert_eq!(4095i32.get_index(), 0);
    assert_eq!(4096i32.get_index(), 1);
    assert_eq!((-4096i32).get_index(), 1);
    assert_eq!((-1i32).get_index(), 0);
    assert_eq!(i32::MIN.get_index(), 524288);
    assert_eq!(i32::MAX.get_index(), 524287);
    assert_eq!(i16::MIN.get_index(), 8);
    assert_eq!((-8192i16).get_index(), 2);
    assert_eq!(i64::MIN.get_index(), 1u64 << 51);
    assert_eq!((-40960i64).get_index(), 10);
    assert_eq!(u8::MAX.get_index(), 0);
    assert_eq!(u16::MAX.get_index(), 15);
    assert_eq!(u32::MAX.get_index(), 1048575);
    assert_eq!(u64::MAX.get_index(), (1u64 << 52) - 1);
    assert_eq!(8192u64.get_index(), 2);
}

#[test]
fn wide_integers_keep_their_low_64_bits() {
    assert_eq!(8192u128.get_index(), 2);
    assert_eq!(((1u128 << 64) + 8192).get_index(), 2);
    assert_eq!(u128::MAX.get_index(), (1u64 << 52) - 1);
    assert_eq!((-8192i128).get_index(), 2);
    assert_eq!(i128::MIN.get_index(), 0);
    assert_eq!(i128::MAX.get_index(), (1u64 << 52) - 1);
    assert_eq!((-((1i128 << 64) + 4096)).get_index(), 1);
}

#[test]
fn booleans_map_to_zero_and_one() {
    assert_eq!(true.get_index(), 1);
    assert_eq!(false.get_index(), 0);
    assert_eq!(AlbaTypes::Bool(true).get_index(), 1);
    assert_eq!(AlbaTypes::Bool(false).get_index(), 0);
}

#[test]
fn floats_go_by_their_whole_magnitude() {
    let samples = [
        0.0f64,
        -0.0,
        0.5,
        1.0,
        4095.999,
        4096.0,
        -4096.0,
        -123456.789,
        1e15,
        9007199254740992.0,
        9007199254740993.0,
        1.8e19,
        1.8446744073709552e19,
        1e30,
        -1e300,
        f64::MAX,
        f64::MIN_POSITIVE,
        5e-324,
        f64::INFINITY,
        f64::NEG_INFINITY,
        f64::NAN,
        4503599627370496.5,
        8192.75,
        1152921504606846976.0,
    ];
    for f in samples {
        assert_eq!(float_index(f.to_bits()), float_key(f), "for {}", f);
        assert_eq!(AlbaTypes::Float(f.to_bits()).get_index(), float_key(f));
    }
    assert_eq!(float_index(f64::NAN.to_bits()), 0);
    assert_eq!(float_index((-f64::NAN).to_bits()), 0);
    assert_eq!(float_index(8192.0f64.to_bits()), 2);
    assert_eq!(float_index(f64::INFINITY.to_bits()), u64::MAX / 4096);
}

#[test]
fn texts_go_by_the_default_hash() {
    let text = "hello world".to_string();
    let mut hasher = DefaultHasher::new();
    text.hash(&mut hasher);
    let expected = hasher.finish() / 4096;
    assert_eq!(text.get_index(), expected);
    assert_eq!(text.get_index(), text.clone().get_index());
    assert_eq!(
        text.get_index(),
        BuildHasherDefault::<DefaultHasher>::default().hash_one(&text) / 4096
    );
    for value in [
        AlbaTypes::Text(text.clone()),
        AlbaTypes::NanoString(text.clone()),
        AlbaTypes::SmallString(text.clone()),
        AlbaTypes::MediumString(text.clone()),
        AlbaTypes::BigString(text.clone()),
        AlbaTypes::LargeString(text.clone()),
    ] {
        assert_eq!(value.get_index(), expected);
    }
    assert_ne!("a".to_string().get_index(), "b".to_string().get_index());
    assert!(String::new().get_index() <= u64::MAX / 4096);
}

#[test]
fn byte_strings_go_by_the_default_hash() {
    let bytes: Vec<u8> = vec![1, 2, 3, 250];
    let mut hasher = DefaultHasher::new();
    bytes.hash(&mut hasher);
    let expected = hasher.finish() / 4096;
    for value in [
        AlbaTypes::NanoBytes(bytes.clone()),
        AlbaTypes::SmallBytes(bytes.clone()),
        AlbaTypes::MediumBytes(bytes.clone()),
        AlbaTypes::BigSBytes(bytes.clone()),
        AlbaTypes::LargeBytes(bytes.clone()),
    ] {
        assert_eq!(value.get_index(), expected);
    }
    assert_ne!(
        AlbaTypes::NanoBytes(vec![1]).get_index(),
        AlbaTypes::NanoBytes(vec![2]).get_index()
    );
}

#[test]
fn other_values_have_their_keys() {
    assert_eq!(AlbaTypes::NONE.get_index(), 0);
    assert_eq!(AlbaTypes::Int(-8192).get_index(), 2);
    assert_eq!(AlbaTypes::Bigint(i64::MIN).get_index(), 1u64 << 51);
    assert_eq!(AlbaTypes::Char('a').get_index(), 0);
    assert_eq!(AlbaTypes::Char('\u{2000}').get_index(), 2);
    assert_eq!(AlbaTypes::Char(char::MAX).get_index(), 0x10ffff / 4096);
}
