use paintshop::parser::parse;
use paintshop::types::{CustomerPreferences, Finish, Specification};

#[test]
fn it_parses_input() {
    let input = "3\n1 M\n2 G 1 G\n3 M".as_bytes();
    let spec = parse(input).unwrap();

    let mut essentials = CustomerPreferences::new();
    essentials.insert(1, Finish::Matte);
    essentials.insert(3, Finish::Matte);

    let mut pref1 = CustomerPreferences::new();
    pref1.insert(1, Finish::Matte);

    let mut pref2 = CustomerPreferences::new();
    pref2.insert(2, Finish::Gloss);
    pref2.insert(1, Finish::Gloss);

    let mut pref3 = CustomerPreferences::new();
    pref3.insert(3, Finish::Matte);

    let preferences = vec![pref1, pref2, pref3];

    assert_eq!(
        spec,
        Specification {
            num_colors: 3,
            essentials,
            preferences
        }
    )
}

#[test]
fn it_handles_extra_whitespace() {
    let input = "  5\n1   M\n2G\t1 G\n3 M  ".as_bytes();
    let spec = parse(input).unwrap();

    let mut essentials = CustomerPreferences::new();
    essentials.insert(1, Finish::Matte);
    essentials.insert(3, Finish::Matte);

    let mut pref1 = CustomerPreferences::new();
    pref1.insert(1, Finish::Matte);

    let mut pref2 = CustomerPreferences::new();
    pref2.insert(2, Finish::Gloss);
    pref2.insert(1, Finish::Gloss);

    let mut pref3 = CustomerPreferences::new();
    pref3.insert(3, Finish::Matte);

    let preferences = vec![pref1, pref2, pref3];

    assert_eq!(
        spec,
        Specification {
            num_colors: 5,
            essentials,
            preferences
        }
    )
}

#[test]
fn it_handles_numbers_over_10() {
    let input = "15\n1 M\n2 G 1 G\n3 M 12M 9G".as_bytes();
    let spec = parse(input).unwrap();

    let mut essentials = CustomerPreferences::new();
    essentials.insert(1, Finish::Matte);

    let mut pref1 = CustomerPreferences::new();
    pref1.insert(1, Finish::Matte);

    let mut pref2 = CustomerPreferences::new();
    pref2.insert(2, Finish::Gloss);
    pref2.insert(1, Finish::Gloss);

    let mut pref3 = CustomerPreferences::new();
    pref3.insert(3, Finish::Matte);
    pref3.insert(12, Finish::Matte);
    pref3.insert(9, Finish::Gloss);

    let preferences = vec![pref1, pref2, pref3];

    assert_eq!(
        spec,
        Specification {
            num_colors: 15,
            essentials,
            preferences
        }
    )
}

#[test]
fn multi_entry_set_is_never_promoted() {
    // A customer with more than one entry contributes nothing to the
    // mandatory constraints, even when its entries agree with a solution.
    let spec = parse("3\n1 M 2 G".as_bytes()).unwrap();

    let mut pref1 = CustomerPreferences::new();
    pref1.insert(1, Finish::Matte);
    pref1.insert(2, Finish::Gloss);

    assert_eq!(
        spec,
        Specification {
            num_colors: 3,
            essentials: CustomerPreferences::new(),
            preferences: vec![pref1],
        }
    )
}

#[test]
fn repeated_item_in_one_line_keeps_the_last_finish() {
    // "1 M 1 G" collapses to a single entry, which makes the customer a
    // singleton and so promotes the surviving entry.
    let spec = parse("3\n1 M 1 G".as_bytes()).unwrap();

    let mut pref1 = CustomerPreferences::new();
    pref1.insert(1, Finish::Matte);
    pref1.insert(1, Finish::Gloss);

    let mut essentials = CustomerPreferences::new();
    essentials.insert(1, Finish::Gloss);

    assert_eq!(
        spec,
        Specification {
            num_colors: 3,
            essentials,
            preferences: vec![pref1],
        }
    )
}

#[test]
fn later_singleton_overrides_earlier_one() {
    let spec = parse("2\n1 M\n1 G\n2 M".as_bytes()).unwrap();

    let mut essentials = CustomerPreferences::new();
    essentials.insert(1, Finish::Matte);
    essentials.insert(1, Finish::Gloss);
    essentials.insert(2, Finish::Matte);

    let mut pref1 = CustomerPreferences::new();
    pref1.insert(1, Finish::Matte);
    let mut pref2 = CustomerPreferences::new();
    pref2.insert(1, Finish::Gloss);
    let mut pref3 = CustomerPreferences::new();
    pref3.insert(2, Finish::Matte);

    assert_eq!(
        spec,
        Specification {
            num_colors: 2,
            essentials,
            preferences: vec![pref1, pref2, pref3],
        }
    )
}

#[test]
fn rejects_invalid_input() {
    // No item count at all.
    assert!(parse("".as_bytes()).is_none());
    // A count that is not a number.
    assert!(parse("x\n1 M".as_bytes()).is_none());
    // A finish letter with no preceding item number.
    assert!(parse("3\nM".as_bytes()).is_none());
    // An unknown finish letter.
    assert!(parse("3\n1 X".as_bytes()).is_none());
    // An item number larger than the machine can hold.
    assert!(parse("99999999999999999999999999\n1 M".as_bytes()).is_none());
    assert!(parse("3\n99999999999999999999999999M".as_bytes()).is_none());
    // Item identifiers outside [1, item_count].
    assert!(parse("3\n5 M".as_bytes()).is_none());
    assert!(parse("2\n0 M".as_bytes()).is_none());
}

#[test]
fn accepts_a_count_with_sign_and_padding() {
    let spec = parse(" +2 \n1 G".as_bytes()).unwrap();
    assert_eq!(spec.num_colors, 2);
}
