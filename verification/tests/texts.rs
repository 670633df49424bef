use rustuna_sampler::attr::AttrKey;
use rustuna_sampler::attr::Attrs;
use rustuna_sampler::error::ErrorKind;
use rustuna_sampler::error::Failure;
use rustuna_sampler::number::Number;
use rustuna_sampler::params::Params;
use rustuna_sampler::text::parse_number;
use rustuna_sampler::text::to_decimal;

#[test]
fn numbers_are_written_in_decimal_digits() {
    assert_eq!(to_decimal(0), "0");
    assert_eq!(to_decimal(10), "10");
    assert_eq!(to_decimal(4_294_967_295), "4294967295");
}

#[test]
fn numbers_are_read_as_the_standard_library_reads_them() {
    let samples = [
        "", "+", "-", "0", "-0", "+7", "++7", "007", "4294967295", "4294967296", "99999999999",
        " 1", "1 ", "1.0", "1e3", "٣", "a",
    ];
    for text in samples {
        assert_eq!(parse_number(text), text.parse::<u32>().ok(), "{text:?}");
    }
    for n in [0, 9, 10, 123_456, u32::MAX] {
        assert_eq!(parse_number(&to_decimal(n)), Some(n));
    }
}

#[test]
fn attributes_have_one_text_for_each_key() {
    let mut attrs = Attrs::new();
    assert!(attrs.is_empty());
    let system = AttrKey::System("k".to_string());
    let user = AttrKey::User("k".to_string());
    attrs.insert(system.clone(), "1".to_string());
    attrs.insert(user.clone(), "2".to_string());
    attrs.insert(system.clone(), "3".to_string());
    assert_eq!(attrs.get(&system), Some(&"3".to_string()));
    assert_eq!(attrs.get(&user), Some(&"2".to_string()));
    assert_eq!(attrs.get(&AttrKey::User("j".to_string())), None);
    assert_eq!(attrs.entries().len(), 2);
    assert!(!attrs.is_empty());
}

#[test]
fn parameters_have_one_value_for_each_name() {
    let mut params = Params::new();
    assert!(params.is_empty());
    params.insert("x".to_string(), Number::from_bits(1));
    params.insert("x".to_string(), Number::from_bits(2));
    assert_eq!(params.get(&"x".to_string()).map(|n| n.bits), Some(2));
    assert!(params.get(&"y".to_string()).is_none());
    assert_eq!(params.entries().len(), 1);
}

#[test]
fn errors_say_what_they_are_made_of() {
    let plain = Failure::new(ErrorKind::TrialNotFound);
    assert_eq!((plain.kind, &plain.reason), (ErrorKind::TrialNotFound, &None));
    let reasoned = Failure::with_reason(ErrorKind::Unexpected, "why".to_string()).duplicate();
    assert_eq!(reasoned.kind, ErrorKind::Unexpected);
    assert_eq!(reasoned.reason, Some("why".to_string()));
}
