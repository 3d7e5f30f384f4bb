use std::collections::hash_map::DefaultHasher;
use std::hash::{Hash, Hasher};

use brids::{Cnpj, ParseCnpjError};

#[test]
fn cnpj_from_slice() {
    let a = Cnpj::from_slice(&[1, 2, 3, 4, 5, 6, 7, 8, 0, 0, 0, 1, 9, 5]).unwrap();
    let b = Cnpj::from_slice(&[1, 2, 3, 4, 5, 6, 7, 8, 0, 0, 2, 7, 2, 4]).unwrap();
    let c: [u8; 14] = [1, 2, 3, 4, 5, 6, 7, 8, 0, 0, 0, 1, 9, 5];
    let d: [u8; 12] = [1, 2, 3, 4, 5, 6, 7, 8, 0, 0, 0, 1];
    let e: [u8; 8] = [1, 2, 3, 4, 5, 6, 7, 8];
    let f: [u8; 12] = [1, 2, 3, 4, 5, 6, 7, 8, 0, 0, 2, 7];

    assert_eq!(a, Cnpj::from_slice(&c).unwrap());
    assert_eq!(a, Cnpj::from_slice(&d).unwrap());
    assert_eq!(a, Cnpj::from_slice(&e).unwrap());
    assert_eq!(b, Cnpj::from_slice(&f).unwrap());
}

#[test]
fn cnpj_as_bytes() {
    let a: [u8; 14] = [1, 2, 3, 4, 5, 6, 7, 8, 0, 0, 0, 1, 9, 5];
    let b = Cnpj::from_slice(&a).unwrap();

    assert_eq!(&a, b.as_bytes());
}

#[test]
fn branch() {
    let cnpj = Cnpj::from_slice(&[1, 2, 3, 4, 5, 6, 7, 8, 0, 0, 2, 7, 2, 4]).unwrap();
    assert_eq!(27, cnpj.branch());
}

#[test]
fn cnpj_generate() {
    let a = Cnpj::generate();
    let b = Cnpj::parse(&a.to_canonical_string()).unwrap();

    assert_eq!(a, b);
}

#[test]
fn cnpj_generate_branch_is_headquarters() {
    let a = Cnpj::generate();
    assert_eq!(1, a.branch());
}

#[test]
fn cnpj_cmp() {
    let a = Cnpj::from_slice(&[1, 2, 3, 4, 5, 6, 7, 8, 0, 0, 0, 1, 9, 5]).unwrap();
    let b = Cnpj::from_slice(&[1, 2, 3, 4, 5, 6, 7, 8, 0, 0, 2, 7, 2, 4]).unwrap();

    assert!(a < b);
}

#[test]
fn cnpj_display() {
    let a = "12.345.678/0001-95";
    let b = Cnpj::from_slice(&[1, 2, 3, 4, 5, 6, 7, 8, 0, 0, 0, 1, 9, 5]).unwrap();

    assert_eq!(a, b.to_canonical_string());
}

#[test]
fn cnpj_from_str() {
    let a = "12.345.678/0001-95".parse::<Cnpj>().unwrap();
    let b = "12345678/0001-95".parse::<Cnpj>().unwrap();
    let c = "12345678000195".parse::<Cnpj>().unwrap();

    assert_eq!(a, b);
    assert_eq!(a, c);
    assert_eq!("".parse::<Cnpj>(), Err(ParseCnpjError::Empty));
    assert_eq!(
        "12-345-678/0001-95".parse::<Cnpj>(),
        Err(ParseCnpjError::InvalidCharacter('-', 2))
    );
    assert_eq!(
        "12.345.678/0001-96".parse::<Cnpj>(),
        Err(ParseCnpjError::InvalidNumber)
    );
    assert_eq!(
        "12.345.678/0001-995".parse::<Cnpj>(),
        Err(ParseCnpjError::InvalidNumber)
    );
}

#[test]
fn cnpj_check_digit_mutation() {
    // Changing only the final digit of a valid canonical text always fails.
    for d in 0..=9u8 {
        if d != 5 {
            let text = format!("12.345.678/0001-9{d}");
            assert_eq!(text.parse::<Cnpj>(), Err(ParseCnpjError::InvalidNumber));
        }
    }
}

#[test]
fn cnpj_repeated_digits_rejected() {
    assert_eq!(
        "11111111111111".parse::<Cnpj>(),
        Err(ParseCnpjError::InvalidNumber)
    );
    assert_eq!(
        Cnpj::from_slice(&[3, 3, 3, 3, 3, 3, 3, 3, 3, 3, 3, 3, 3, 3]),
        Err(ParseCnpjError::InvalidNumber)
    );
}

#[test]
fn cnpj_from_slice_errors() {
    assert_eq!(Cnpj::from_slice(&[]), Err(ParseCnpjError::Empty));
    assert_eq!(
        Cnpj::from_slice(&[1, 2, 3]),
        Err(ParseCnpjError::InvalidNumber)
    );
    assert_eq!(
        Cnpj::from_slice(&[12, 2, 3, 4, 5, 6, 7, 8]),
        Err(ParseCnpjError::InvalidNumber)
    );
    assert_eq!(
        Cnpj::from_slice(&[1, 2, 3, 4, 5, 6, 7, 8, 0, 0, 0, 1, 9, 6]),
        Err(ParseCnpjError::InvalidNumber)
    );
}

#[test]
fn cnpj_fewer_digits_rejected() {
    assert_eq!(
        "12.345.678/0001".parse::<Cnpj>(),
        Err(ParseCnpjError::InvalidNumber)
    );
    assert_eq!("1234567800019".parse::<Cnpj>(), Err(ParseCnpjError::InvalidNumber));
}

#[test]
fn cnpj_misplaced_separator_rejected() {
    assert_eq!(
        "12.345.678-0001/95".parse::<Cnpj>(),
        Err(ParseCnpjError::InvalidCharacter('-', 10))
    );
    assert_eq!(
        "123.45.678/0001-95".parse::<Cnpj>(),
        Err(ParseCnpjError::InvalidCharacter('.', 3))
    );
}

#[test]
fn cnpj_hash_equal_values() {
    let a = Cnpj::from_slice(&[1, 2, 3, 4, 5, 6, 7, 8, 0, 0, 0, 1, 9, 5]).unwrap();
    let b = Cnpj::from_slice(&[1, 2, 3, 4, 5, 6, 7, 8]).unwrap();
    assert_eq!(a, b);

    let mut ha = DefaultHasher::new();
    a.hash(&mut ha);
    let mut hb = DefaultHasher::new();
    b.hash(&mut hb);
    assert_eq!(ha.finish(), hb.finish());
}

#[test]
fn cnpj_format_positions() {
    // Separators sit at the same offsets whatever the digits are.
    for _ in 0..8 {
        let text = Cnpj::generate().to_canonical_string();
        let chars: Vec<char> = text.chars().collect();
        assert_eq!(18, chars.len());
        for (k, c) in chars.iter().enumerate() {
            match k {
                2 | 6 => assert_eq!('.', *c),
                10 => assert_eq!('/', *c),
                15 => assert_eq!('-', *c),
                _ => assert!(c.is_ascii_digit()),
            }
        }
    }
}
