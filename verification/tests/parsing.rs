use volctl::error::VolumeError;
use volctl::volume::parse_volume;

#[test]
fn test_parse_volume_valid() {
    assert_eq!(parse_volume("0").unwrap().scaled() as f32 / 1e9, 0.0);
    assert_eq!(parse_volume("50").unwrap().scaled() as f32 / 1e9, 0.5);
    assert_eq!(parse_volume("100").unwrap().scaled() as f32 / 1e9, 1.0);
}

#[test]
fn test_parse_volume_invalid_input() {
    assert!(matches!(
        parse_volume("abc"),
        Err(VolumeError::InvalidInput(_))
    ));
}

#[test]
fn test_parse_volume_out_of_range() {
    assert!(matches!(
        parse_volume("-10"),
        Err(VolumeError::InvalidInput(_))
    ));
    assert!(matches!(
        parse_volume("200"),
        Err(VolumeError::InvalidInput(_))
    ));
}

#[test]
fn test_parse_every_integer_percentage() {
    for p in 0..=100u8 {
        let v = parse_volume(&format!("{}", p)).unwrap();
        assert_eq!(v.scaled(), p as u64 * 10_000_000);
    }
}

#[test]
fn test_parse_exact_boundaries() {
    assert_eq!(parse_volume("0").unwrap().scaled(), 0);
    assert_eq!(parse_volume("100").unwrap().scaled(), 1_000_000_000);
    assert!(parse_volume("0").unwrap().is_zero());
    assert!(!parse_volume("1").unwrap().is_zero());
}

#[test]
fn test_parse_sign_handling() {
    assert_eq!(parse_volume("+50").unwrap().scaled(), 500_000_000);
    assert_eq!(parse_volume("-0").unwrap().scaled(), 0);
    assert_eq!(
        parse_volume("-1"),
        Err(VolumeError::InvalidInput("Volume must be 0-100"))
    );
    assert_eq!(
        parse_volume("101"),
        Err(VolumeError::InvalidInput("Volume must be 0-100"))
    );
}

#[test]
fn test_parse_leading_zeros() {
    assert_eq!(parse_volume("007").unwrap().scaled(), 70_000_000);
    assert_eq!(parse_volume("000").unwrap().scaled(), 0);
}

#[test]
fn test_parse_huge_value_rejected() {
    assert_eq!(
        parse_volume("99999999999999999999999"),
        Err(VolumeError::InvalidInput("Volume must be 0-100"))
    );
}

#[test]
fn test_parse_garbage_rejected() {
    assert_eq!(
        parse_volume(""),
        Err(VolumeError::InvalidInput("Invalid number"))
    );
    assert_eq!(
        parse_volume("-"),
        Err(VolumeError::InvalidInput("Invalid number"))
    );
    assert_eq!(
        parse_volume("+"),
        Err(VolumeError::InvalidInput("Invalid number"))
    );
    assert_eq!(
        parse_volume("12a"),
        Err(VolumeError::InvalidInput("Invalid number"))
    );
    assert_eq!(
        parse_volume(" 50"),
        Err(VolumeError::InvalidInput("Invalid number"))
    );
    assert_eq!(
        parse_volume("5ü"),
        Err(VolumeError::InvalidInput("Invalid number"))
    );
}

#[test]
fn test_error_messages() {
    assert_eq!(
        VolumeError::InvalidInput("Volume must be 0-100").message(),
        "Volume must be 0-100"
    );
    assert_eq!(
        VolumeError::DeviceError(-1).message(),
        "Failed to get audio device: -1"
    );
    assert_eq!(
        VolumeError::SetError(-50).message(),
        "Failed to set volume: -50"
    );
    assert_eq!(VolumeError::SetError(0).message(), "Failed to set volume: 0");
    assert_eq!(
        VolumeError::SetError(i32::MIN).message(),
        "Failed to set volume: -2147483648"
    );
    assert_eq!(
        VolumeError::DeviceError(i32::MAX).message(),
        "Failed to get audio device: 2147483647"
    );
}

#[test]
fn test_parse_fractional_percentages() {
    assert_eq!(parse_volume("2.5").unwrap().scaled(), 25_000_000);
    assert_eq!(parse_volume("50.5").unwrap().scaled(), 505_000_000);
    assert_eq!(parse_volume(".5").unwrap().scaled(), 5_000_000);
    assert_eq!(parse_volume("1.").unwrap().scaled(), 10_000_000);
    assert_eq!(parse_volume("100.0").unwrap().scaled(), 1_000_000_000);
    assert_eq!(parse_volume("-0.0").unwrap().scaled(), 0);
    assert!(parse_volume("-0.0").unwrap().is_zero());
}

#[test]
fn test_parse_exponent_forms() {
    assert_eq!(parse_volume("5e1").unwrap().scaled(), 500_000_000);
    assert_eq!(parse_volume("5E1").unwrap().scaled(), 500_000_000);
    assert_eq!(parse_volume("1e2").unwrap().scaled(), 1_000_000_000);
    assert_eq!(parse_volume("2500e-2").unwrap().scaled(), 250_000_000);
    assert_eq!(parse_volume("0.00001e+6").unwrap().scaled(), 100_000_000);
    assert_eq!(
        parse_volume("1e3"),
        Err(VolumeError::InvalidInput("Volume must be 0-100"))
    );
    assert_eq!(
        parse_volume("101e-1").unwrap().scaled(),
        101_000_000
    );
    assert_eq!(
        parse_volume("1e"),
        Err(VolumeError::InvalidInput("Invalid number"))
    );
    assert_eq!(
        parse_volume("1e+"),
        Err(VolumeError::InvalidInput("Invalid number"))
    );
}

#[test]
fn test_parse_tiny_value_is_not_silence() {
    let v = parse_volume("1e-30").unwrap();
    assert_eq!(v.scaled(), 0);
    assert!(!v.is_zero());
    let w = parse_volume("0e-30").unwrap();
    assert_eq!(w.scaled(), 0);
    assert!(w.is_zero());
}

#[test]
fn test_parse_special_tokens_out_of_range() {
    for bad in ["inf", "INF", "-inf", "+inf", "infinity", "Infinity", "nan", "NaN", "-NaN"] {
        assert_eq!(
            parse_volume(bad),
            Err(VolumeError::InvalidInput("Volume must be 0-100")),
            "input {:?}",
            bad
        );
    }
}

#[test]
fn test_parse_just_over_one_hundred() {
    assert_eq!(
        parse_volume("100.0000001"),
        Err(VolumeError::InvalidInput("Volume must be 0-100"))
    );
    assert_eq!(
        parse_volume("100.0000000"),
        Ok(parse_volume("100").unwrap())
    );
}
