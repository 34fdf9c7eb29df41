use std::str::FromStr;

use phone::{parse_e164, Error, Phone};

#[test]
fn constructor_works() {
    let phone_result = Phone::build("111-111-1111");
    assert!(phone_result.is_ok(), "Invalid generic phone");

    let phone_result = Phone::build_with_country_code("+52 111 111 1111");
    assert!(phone_result.is_ok(), "Invalid phone with country code");

    let phone_result = Phone::from_str("111 111 1111");
    assert!(phone_result.is_ok());
}

#[test]
fn test_from_e_164() {
    let phone = Phone::from_e_164("+1234567890").unwrap();
    assert_eq!(phone.country_code(), Some("1"));
    assert_eq!(phone.number(), "234567890");

    let phone = Phone::from_e_164("+521234567890").unwrap();
    assert_eq!(phone.country_code(), Some("52"));
    assert_eq!(phone.number(), "1234567890");
}

#[test]
fn test_new_with_country_code() {
    let phone =
        Phone::build_with_country_code("+52 (55) 1234-5678").expect("Failed to create phone");
    assert_eq!(phone.country_code(), Some("52"));
    assert_eq!(phone.number(), "5512345678");
}

#[test]
fn test_new_without_country_code() {
    let phone = Phone::build_without_country_code("(55) 1234-5678").unwrap();
    assert_eq!(phone.country_code(), None);
    assert_eq!(phone.number(), "5512345678");

    let phone = Phone::build_without_country_code("555 123 4567").unwrap();
    assert_eq!(phone.country_code(), None);
    assert_eq!(phone.number(), "5551234567");
}

#[test]
fn test_with_separator() {
    let phone = Phone::from_e_164("+15551234567").unwrap();
    let formatted = phone.number_with_separator('-');
    assert!(formatted.contains("-"));

    let phone = Phone::build_without_country_code("1234567890").unwrap();
    let formatted = phone.number_with_separator(' ');
    assert!(formatted.contains(" "));
}

#[test]
fn test_error_cases() {
    assert!(Phone::from_e_164("invalid").is_err());
    assert!(Phone::from_e_164("+").is_err());
    assert!(Phone::from_e_164("123456").is_err());
    assert!(Phone::from_e_164("+123ABCDEF").is_err());

    assert!(Phone::build_with_country_code("invalid").is_err());
    assert!(Phone::build_without_country_code("12").is_err());
}

#[test]
fn test_various_formats() {
    // Different E.164 formats
    let phone1 = Phone::from_e_164("+1234567890").unwrap();
    let phone2 = Phone::from_e_164("+521234567890").unwrap();
    let phone3 = Phone::from_e_164("+49123456789").unwrap();

    assert_eq!(phone1.country_code(), Some("1"));
    assert_eq!(phone2.country_code(), Some("52"));
    assert_eq!(phone3.country_code(), Some("49"));

    // Different input formats with country code
    let phone4 = Phone::build_with_country_code("+1 555 123 4567").unwrap();
    let phone5 = Phone::build_with_country_code("52-555-123-4567").unwrap();

    assert_eq!(phone4.country_code(), Some("1"));
    assert_eq!(phone5.country_code(), Some("52"));
}

#[test]
fn test_country_info() {
    // Test that country information is correctly retrieved
    let phone = Phone::from_e_164("+1234567890").unwrap();
    let info = phone.country_info();
    assert!(info.is_some());
    let info = info.unwrap();
    assert_eq!(info.name, "Canada"); // First occurrence for code "1"
    assert_eq!(info.iso_code, "CA");

    // Test another country
    let phone_mx = Phone::from_e_164("+521234567890").unwrap();
    let info_mx = phone_mx.country_info();
    assert!(info_mx.is_some());
    let info_mx = info_mx.unwrap();
    assert_eq!(info_mx.name, "Mexico");
    assert_eq!(info_mx.iso_code, "MX");
}

#[test]
fn test_compile_time_country_codes() {
    let result = parse_e164("+1234567890");
    assert!(result.is_some());
    let (code, number) = result.unwrap();
    assert_eq!(code, "1");
    assert_eq!(number, "234567890");

    // Test invalid format
    let invalid = parse_e164("invalid");
    assert!(invalid.is_none());

    // Test short number
    let short = parse_e164("+123");
    assert!(short.is_none());
}

#[test]
fn format_round_trips_ten_digits() {
    let phone = Phone::build_without_country_code("1234567890").unwrap();
    let formatted = phone.number_with_separator('-');
    assert_eq!(formatted, "123-456-7890");
    let stripped: String = formatted.chars().filter(|c| *c != '-').collect();
    assert_eq!(stripped, "1234567890");
}

#[test]
fn format_round_trips_eleven_digits() {
    let phone = Phone::from_e_164("+12345678901").unwrap();
    assert_eq!(phone.number(), "2345678901");
    let phone = Phone::build_with_country_code("1 2345 6789 012").unwrap();
    assert_eq!(phone.number(), "23456789012");
    let formatted = phone.number_with_separator('.');
    assert_eq!(formatted, "2.345.678.9012");
    let stripped: String = formatted.chars().filter(|c| *c != '.').collect();
    assert_eq!(stripped, "23456789012");
}

#[test]
fn format_other_lengths_groups_of_three() {
    let phone = Phone::build_without_country_code("123456").unwrap();
    assert_eq!(phone.number_with_separator('.'), "123.456");

    let phone = Phone::build_without_country_code("12345").unwrap();
    assert_eq!(phone.number_with_separator(' '), "123 45");
}

#[test]
fn format_exact_scenario() {
    let phone = Phone::build_without_country_code("(234) 555-1234").unwrap();
    assert_eq!(phone.number(), "2345551234");
    assert_eq!(phone.number_with_separator('-'), "234-555-1234");
}

#[test]
fn longest_dial_code_wins() {
    // "1242" (Bahamas) and "1" (Canada) are both prefixes; the longer wins.
    let phone = Phone::from_e_164("+12423456789").unwrap();
    assert_eq!(phone.country_code(), Some("1242"));
    assert_eq!(phone.number(), "3456789");
    let info = phone.country_info().unwrap();
    assert_eq!(info.name, "Bahamas");
    assert_eq!(info.iso_code, "BS");
}

#[test]
fn e164_error_kinds() {
    // wrong shape: the E.164 format error
    assert_eq!(
        Phone::from_e_164("1234567890").unwrap_err(),
        Error::NotE164Format
    );
    assert_eq!(
        Phone::from_e_164("+123a567890").unwrap_err(),
        Error::NotE164Format
    );
    // sixteen digits: beyond the E.164 limit of fifteen
    assert_eq!(
        Phone::from_e_164("+1234567890123456").unwrap_err(),
        Error::NotE164Format
    );
    // right shape, but no dial code leaves a four-digit remainder
    assert_eq!(
        Phone::from_e_164("+123").unwrap_err(),
        Error::InvalidPhoneNumber
    );
}

#[test]
fn e164_largest_size() {
    // fifteen digits, the E.164 maximum
    let phone = Phone::from_e_164("+123456789012345").unwrap();
    assert_eq!(phone.country_code(), Some("1"));
    assert_eq!(phone.number(), "23456789012345");
}

#[test]
fn letters_and_odd_punctuation_rejected() {
    assert_eq!(
        Phone::build("abc-def-ghij").unwrap_err(),
        Error::InvalidPhoneNumber
    );
    assert_eq!(
        Phone::build_with_country_code("12/345/6789").unwrap_err(),
        Error::InvalidPhoneNumber
    );
    assert_eq!(
        Phone::build_without_country_code("555_123_4567").unwrap_err(),
        Error::InvalidPhoneNumber
    );
    assert_eq!(Phone::build("").unwrap_err(), Error::InvalidPhoneNumber);
}

#[test]
fn display_string_resolves_to_same_phone() {
    // with a country code: +52-1234567890 resolves back to the same value
    let phone = Phone::from_e_164("+521234567890").unwrap();
    let display = phone.to_display_string();
    assert_eq!(display, "+52-1234567890");
    let again = Phone::build(&display).unwrap();
    assert_eq!(again.country_code(), phone.country_code());
    assert_eq!(again.number(), phone.number());

    // bare: the display string is the number itself
    let bare = Phone::build_without_country_code("(55) 1234-5678").unwrap();
    let display = bare.to_display_string();
    assert_eq!(display, "5512345678");
    let again = Phone::build_without_country_code(&display).unwrap();
    assert_eq!(again.country_code(), None);
    assert_eq!(again.number(), bare.number());
}

#[test]
fn error_messages() {
    assert_eq!(
        Error::InvalidPhoneNumberWithCountryCode.message(),
        "Invalid phone with country code"
    );
    assert_eq!(Error::InvalidPhoneNumber.message(), "Invalid phone number");
    assert_eq!(Error::NotE164Format.message(), "Not E.164 format");
}
