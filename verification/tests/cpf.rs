use std::collections::hash_map::DefaultHasher;
use std::hash::{Hash, Hasher};

use brids::{Cpf, ParseCpfError};

#[test]
fn cpf_from_slice() {
    let a = Cpf::from_slice(&[1, 2, 3, 4, 5, 6, 7, 8, 9, 0, 9]).unwrap();
    let b: [u8; 11] = [1, 2, 3, 4, 5, 6, 7, 8, 9, 0, 9];
    let c: [u8; 9] = [1, 2, 3, 4, 5, 6, 7, 8, 9];

    assert_eq!(a, Cpf::from_slice(&b).unwrap());
    assert_eq!(a, Cpf::from_slice(&c).unwrap());
}

#[test]
fn cpf_as_bytes() {
    let a: [u8; 11] = [1, 2, 3, 4, 5, 6, 7, 8, 9, 0, 9];
    let b = Cpf::from_slice(&a).unwrap();

    assert_eq!(&a, b.as_bytes());
}

#[test]
fn cpf_generate() {
    let a = Cpf::generate();
    let b = Cpf::parse(&a.to_canonical_string()).unwrap();

    assert_eq!(a, b);
}

#[test]
fn cpf_cmp() {
    let a = Cpf::from_slice(&[1, 2, 3, 4, 5, 6, 7, 8, 9, 0, 9]).unwrap();
    let b = Cpf::from_slice(&[1, 2, 3, 4, 5, 6, 7, 9, 0, 3, 4]).unwrap();

    assert!(a < b);
}

#[test]
fn cpf_display() {
    let a = "123.456.789-09";
    let b = Cpf::from_slice(&[1, 2, 3, 4, 5, 6, 7, 8, 9, 0, 9]).unwrap();

    assert_eq!(a, b.to_canonical_string());
}

#[test]
fn cpf_from_str() {
    let a = "123.456.789-09".parse::<Cpf>().unwrap();
    let b = "123456789/09".parse::<Cpf>().unwrap();
    let c = "12345678909".parse::<Cpf>().unwrap();

    assert_eq!(a, b);
    assert_eq!(a, c);
    assert_eq!("".parse::<Cpf>(), Err(ParseCpfError::Empty));
    assert_eq!(
        "123-456-789-09".parse::<Cpf>(),
        Err(ParseCpfError::InvalidCharacter('-', 3))
    );
    assert_eq!(
        "123.456.789-10".parse::<Cpf>(),
        Err(ParseCpfError::InvalidNumber)
    );
    assert_eq!(
        "123.456.789-009".parse::<Cpf>(),
        Err(ParseCpfError::InvalidNumber)
    );
}

#[test]
fn cpf_check_digit_mutation() {
    // Changing only the final digit of a valid canonical text always fails.
    for d in 0..=9u8 {
        if d != 9 {
            let text = format!("123.456.789-0{d}");
            assert_eq!(text.parse::<Cpf>(), Err(ParseCpfError::InvalidNumber));
        }
    }
}

#[test]
fn cpf_repeated_digits_rejected() {
    assert_eq!("11111111111".parse::<Cpf>(), Err(ParseCpfError::InvalidNumber));
    assert_eq!(
        Cpf::from_slice(&[1, 1, 1, 1, 1, 1, 1, 1, 1, 1, 1]),
        Err(ParseCpfError::InvalidNumber)
    );
}

#[test]
fn cpf_from_slice_repeated_base_completes() {
    // A repeated 9-digit base is caller-vouched data: the check digits are
    // computed, not verified, and the result happens to repeat throughout.
    let a = Cpf::from_slice(&[1, 1, 1, 1, 1, 1, 1, 1, 1]).unwrap();
    assert_eq!(a.as_bytes(), &[1, 1, 1, 1, 1, 1, 1, 1, 1, 1, 1]);
    assert_eq!(a.to_canonical_string(), "111.111.111-11");
}

#[test]
fn cpf_from_slice_errors() {
    assert_eq!(Cpf::from_slice(&[]), Err(ParseCpfError::Empty));
    assert_eq!(Cpf::from_slice(&[1, 2, 3]), Err(ParseCpfError::InvalidNumber));
    assert_eq!(
        Cpf::from_slice(&[10, 2, 3, 4, 5, 6, 7, 8, 9]),
        Err(ParseCpfError::InvalidNumber)
    );
    assert_eq!(
        Cpf::from_slice(&[1, 2, 3, 4, 5, 6, 7, 8, 9, 1, 9]),
        Err(ParseCpfError::InvalidNumber)
    );
}

#[test]
fn cpf_overflowing_digits_rejected() {
    assert_eq!(
        "123456789091".parse::<Cpf>(),
        Err(ParseCpfError::InvalidNumber)
    );
    assert_eq!("1234567890".parse::<Cpf>(), Err(ParseCpfError::InvalidNumber));
}

#[test]
fn cpf_misplaced_dot_rejected() {
    assert_eq!(
        "1.23456789-09".parse::<Cpf>(),
        Err(ParseCpfError::InvalidCharacter('.', 1))
    );
    assert_eq!(
        "123.456.78909 ".parse::<Cpf>(),
        Err(ParseCpfError::InvalidCharacter(' ', 13))
    );
}

#[test]
fn cpf_hash_equal_values() {
    let a = Cpf::from_slice(&[1, 2, 3, 4, 5, 6, 7, 8, 9, 0, 9]).unwrap();
    let b = Cpf::from_slice(&[1, 2, 3, 4, 5, 6, 7, 8, 9]).unwrap();
    assert_eq!(a, b);

    let mut ha = DefaultHasher::new();
    a.hash(&mut ha);
    let mut hb = DefaultHasher::new();
    b.hash(&mut hb);
    assert_eq!(ha.finish(), hb.finish());
}

#[test]
fn cpf_format_positions() {
    // Separators sit at the same offsets whatever the digits are.
    for _ in 0..8 {
        let text = Cpf::generate().to_canonical_string();
        let chars: Vec<char> = text.chars().collect();
        assert_eq!(14, chars.len());
        for (k, c) in chars.iter().enumerate() {
            match k {
                3 | 7 => assert_eq!('.', *c),
                11 => assert_eq!('-', *c),
                _ => assert!(c.is_ascii_digit()),
            }
        }
    }
}

#[test]
fn cpf_non_ascii_rejected_at_char_offset() {
    assert_eq!(
        "12\u{00df}45678909".parse::<Cpf>(),
        Err(ParseCpfError::InvalidCharacter('\u{00df}', 2))
    );
}
