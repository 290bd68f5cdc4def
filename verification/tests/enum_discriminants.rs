use soroban_forge::enum_discriminants::{analyze, fits, Collision};

const COLLIDING: &str = "//! The same enum after a bad merge: two codes share a discriminant.

#[derive(Debug, Copy, Clone, PartialEq, Eq)]
#[repr(u32)]
pub enum EscrowError {
    InvestorBatchEmpty = 70,
    InvestorBatchTooLarge = 71,
    InvestorNotAllowlisted = 104,
    ComputePayoutArithmeticOverflow = 129,
    ProtocolFeeBpsOutOfRange = 215,
    YieldTierTableInvalid = 236,
    FeesLimitOutOfRange = 236,
}
";

const DISTINCT: &str = "//! The same enum with every code distinct.

#[derive(Debug, Copy, Clone, PartialEq, Eq)]
#[repr(u32)]
pub enum EscrowError {
    InvestorBatchEmpty = 70,
    InvestorBatchTooLarge = 71,
    InvestorNotAllowlisted = 104,
    ComputePayoutArithmeticOverflow = 129,
    ProtocolFeeBpsOutOfRange = 215,
    YieldTierTableInvalid = 236,
    FeesLimitOutOfRange = 237,
}
";

#[test]
fn variants_sharing_a_value_are_reported() {
    let found = analyze("enum Code {\n    A = 1,\n    B = 1,\n}\n");

    assert_eq!(found.len(), 1);
    assert_eq!(found[0].value, 1);
}

#[test]
fn distinct_values_are_not_reported() {
    let found = analyze("enum Code {\n    A = 1,\n    B = 2,\n}\n");

    assert!(found.is_empty());
}

#[test]
fn the_collision_carries_every_variant_and_line() {
    let found = analyze("enum Code {\n    A = 5,\n    B = 6,\n    C = 5,\n}\n");
    let names = vec!["A".to_string(), "C".to_string()];
    let lines = vec![2, 4];

    assert_eq!(found[0].enum_name, "Code");
    assert_eq!(found[0].variants, names);
    assert_eq!(found[0].lines, lines);
}

#[test]
fn a_value_reused_across_two_enums_is_not_a_collision() {
    let source = "enum One {\n    A = 1,\n}\n\nenum Two {\n    B = 1,\n}\n";
    let found = analyze(source);

    assert!(found.is_empty());
}

#[test]
fn an_undecorated_variant_takes_the_next_value() {
    let found = analyze("enum Code {\n    A = 3,\n    B,\n    C = 4,\n}\n");
    let names = vec!["B".to_string(), "C".to_string()];

    assert_eq!(found.len(), 1);
    assert_eq!(found[0].value, 4);
    assert_eq!(found[0].variants, names);
}

#[test]
fn two_spellings_of_one_value_collide() {
    let found = analyze("enum Code {\n    A = 0x10,\n    B = 16,\n}\n");

    assert_eq!(found.len(), 1);
    assert_eq!(found[0].value, 16);
}

#[test]
fn an_underscore_separated_literal_is_understood() {
    let found = analyze("enum Code {\n    A = 1_000,\n    B = 1000,\n}\n");

    assert_eq!(found[0].value, 1000);
}

#[test]
fn a_suffixed_literal_is_understood() {
    let found = analyze("enum Code {\n    A = 7i64,\n    B = 7,\n}\n");

    assert_eq!(found[0].value, 7);
}

#[test]
fn a_computed_discriminant_is_left_alone() {
    let found = analyze("enum Code {\n    A = 1 << 3,\n    B = 8,\n}\n");

    assert!(found.is_empty());
}

#[test]
fn an_attribute_does_not_hide_a_variant() {
    let source = "enum Code {\n    #[cfg(test)]\n    A = 1,\n    B = 1,\n}\n";
    let found = analyze(source);
    let names = vec!["A".to_string(), "B".to_string()];

    assert_eq!(found[0].variants, names);
}

#[test]
fn a_doc_comment_is_not_mistaken_for_a_variant() {
    let source = "enum Code {\n    /// Alpha value\n    A = 1,\n    B = 1,\n}\n";
    let found = analyze(source);
    let names = vec!["A".to_string(), "B".to_string()];

    assert_eq!(found[0].variants, names);
}

#[test]
fn payload_variants_do_not_disturb_scanning() {
    let source = "enum Code {\n    P { code: u8 },\n    Q(u8, u8),\n    R = 1,\n}\n";
    let found = analyze(source);
    let names = vec!["Q".to_string(), "R".to_string()];

    assert_eq!(found.len(), 1);
    assert_eq!(found[0].variants, names);
}

#[test]
fn an_enum_inside_a_string_is_ignored() {
    let found = analyze("let s = \"enum Fake { A = 1, B = 1 }\";\n");

    assert!(found.is_empty());
}

#[test]
fn the_colliding_fixture_reports_its_shared_code() {
    let found = analyze(COLLIDING);
    let names = vec![
        "YieldTierTableInvalid".to_string(),
        "FeesLimitOutOfRange".to_string(),
    ];

    assert_eq!(found.len(), 1);
    assert_eq!(found[0].value, 236);
    assert_eq!(found[0].variants, names);
}

#[test]
fn the_distinct_fixture_reports_nothing() {
    let found = analyze(DISTINCT);

    assert!(found.is_empty());
}

#[test]
fn negative_binary_and_octal_literals_are_understood() {
    let found = analyze("enum Code {\n    A = -2,\n    B = -0b10,\n    C = 0o7,\n    D = 7u8,\n}\n");

    assert_eq!(found.len(), 2);
    assert_eq!(found[0].value, -2);
    assert_eq!(found[0].variants, vec!["A".to_string(), "B".to_string()]);
    assert_eq!(found[1].value, 7);
}

#[test]
fn implicit_values_start_at_zero() {
    let found = analyze("enum Code {\n    A,\n    B,\n    C = 1,\n}\n");
    let expected = vec![Collision {
        enum_name: "Code".to_string(),
        value: 1,
        variants: vec!["B".to_string(), "C".to_string()],
        lines: vec![3, 4],
    }];

    assert_eq!(found, expected);
}

#[test]
fn tracking_stops_after_an_unknown_value() {
    let found = analyze("enum Code {\n    A = 1 << 3,\n    B,\n    C = 8,\n    D = 9,\n}\n");

    assert!(found.is_empty());
}

#[test]
fn a_bad_suffix_makes_the_value_unknown() {
    let found = analyze("enum Code {\n    A = 7q,\n    B = 7,\n}\n");

    assert!(found.is_empty());
}

#[test]
fn a_literal_too_large_for_i64_is_unknown() {
    let found = analyze("enum Code {\n    A = 9223372036854775808,\n    B = 9223372036854775808,\n}\n");

    assert!(found.is_empty());
}

#[test]
fn several_collisions_are_listed_in_order_of_first_value() {
    let found = analyze("enum Code {\n    A = 2,\n    B = 1,\n    C = 1,\n    D = 2,\n    E = 2,\n}\n");

    assert_eq!(found.len(), 2);
    assert_eq!(found[0].value, 2);
    assert_eq!(found[0].variants, vec!["A".to_string(), "D".to_string(), "E".to_string()]);
    assert_eq!(found[0].lines, vec![2, 5, 6]);
    assert_eq!(found[1].value, 1);
}

#[test]
fn an_enum_declaration_without_a_body_is_skipped() {
    let found = analyze("enum;\nenum Code {\n    A = 1,\n    B = 1,\n}\n");

    assert_eq!(found.len(), 1);
    assert_eq!(found[0].enum_name, "Code");
}

#[test]
fn whitespace_around_a_value_is_ignored() {
    let found = analyze("enum Code {\n    A =   5  ,\n    B=5,\n}\n");

    assert_eq!(found.len(), 1);
    assert_eq!(found[0].value, 5);
}

#[test]
fn a_negative_value_with_space_after_the_sign_is_understood() {
    let found = analyze("enum Code {\n    A = - 3,\n    B = -3,\n}\n");

    assert_eq!(found.len(), 1);
    assert_eq!(found[0].value, -3);
}

#[test]
fn an_enum_with_generics_and_a_block_comment_is_read() {
    let source = "enum Code<T> /* note */ where T: Copy {\n    A = 1, /* B = 1, */\n    C = 1,\n}\n";
    let found = analyze(source);

    assert_eq!(found.len(), 1);
    assert_eq!(found[0].variants, vec!["A".to_string(), "C".to_string()]);
    assert_eq!(found[0].lines, vec![2, 3]);
}

#[test]
fn a_nested_block_comment_hides_everything_inside_it() {
    let source = "enum Code {\n    /* /* */ A = 2, */\n    A = 1,\n    B = 1,\n}\n";
    let found = analyze(source);

    assert_eq!(found.len(), 1);
    assert_eq!(found[0].value, 1);
    assert_eq!(found[0].variants, vec!["A".to_string(), "B".to_string()]);
    assert_eq!(found[0].lines, vec![3, 4]);
}

#[test]
fn an_escaped_apostrophe_char_literal_ends_at_its_own_quote() {
    let source = "enum One {\n    A = '\\''}'\nenum Two {\n    B = 1,\n    C = 1,\n}\n";
    let found = analyze(source);

    assert_eq!(found.len(), 1);
    assert_eq!(found[0].enum_name, "Two");
    assert_eq!(found[0].lines, vec![4, 5]);
}

#[test]
fn a_header_without_a_body_does_not_shift_later_lines() {
    let source = "enum\n;\nenum Code {\n    A = 1,\n    B = 1,\n}\n";
    let found = analyze(source);

    assert_eq!(found.len(), 1);
    assert_eq!(found[0].lines, vec![4, 5]);
}

#[test]
fn variant_lines_after_an_escaped_line_break_are_true_lines() {
    let source = "const S: &str = \"\\\n\";\nenum Code {\n    A = 1,\n    B = 1,\n}\n";
    let found = analyze(source);

    assert_eq!(found[0].lines, vec![4, 5]);
}

#[test]
fn fits_accepts_ordinary_sources() {
    assert!(fits(COLLIDING));
    assert!(fits(DISTINCT));
    assert!(fits(""));
    assert!(fits("enum E { A = -9223372036854775808, B }"));
    assert!(fits("enum E { A = 9223372036854775806 }"));
}

#[test]
fn fits_refuses_a_discriminant_without_a_successor() {
    assert!(!fits("enum E { A = 9223372036854775807 }"));
    assert!(!fits("enum E { A = 9223372036854775806, B, C }"));
    assert!(!fits("enum F { X }\nenum E { A = 0x7fff_ffff_ffff_ffff, B }"));
}
