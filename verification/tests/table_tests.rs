use phone::table::{CountryCodeTable, CountryEntry, CountryInfo};

fn entry(name: &str, dial: &str, iso: &str) -> CountryEntry {
    CountryEntry {
        dial_code: dial.to_string(),
        info: CountryInfo {
            name: name.to_string(),
            iso_code: iso.to_string(),
        },
    }
}

#[test]
fn build_strips_plus_and_keeps_first_duplicate() {
    let table = CountryCodeTable::build(vec![
        entry("First", "+99", "AA"),
        entry("Second", "99", "BB"),
        entry("Third", "+7", "CC"),
    ]);
    assert_eq!(table.len(), 2);
    let found = table.lookup("99").unwrap();
    assert_eq!(found.info.name, "First");
    assert_eq!(found.info.iso_code, "AA");
    assert!(table.lookup("+99").is_none());
    assert!(table.lookup("98").is_none());
}

#[test]
fn longest_prefix_needs_four_digit_remainder() {
    let table = CountryCodeTable::build(vec![entry("One", "+1", "AA"), entry("OneTwoThree", "+123", "BB")]);
    // both "1" and "123" are prefixes; the longer code wins when the
    // remainder stays long enough
    assert_eq!(table.longest_matching_prefix("1234567").as_deref(), Some("123"));
    // the longer code would leave only three digits, so the shorter wins
    assert_eq!(table.longest_matching_prefix("123456").as_deref(), Some("1"));
    // nothing leaves four digits
    assert_eq!(table.longest_matching_prefix("1234"), None);
    // no code is a prefix at all
    assert_eq!(table.longest_matching_prefix("99999999"), None);
}

#[test]
fn standard_table_is_populated() {
    let table = CountryCodeTable::standard();
    assert!(table.len() > 200);
    let germany = table.lookup("49").unwrap();
    assert_eq!(germany.info.name, "Germany");
    assert_eq!(germany.info.iso_code, "DE");
    let uk = table.lookup("44").unwrap();
    assert_eq!(uk.info.name, "Guernsey"); // first of the entries sharing 44
}
