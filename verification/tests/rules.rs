use ironcat::rules::{RuleError, Rulestring};

fn flags(counts: &[usize]) -> [bool; 9] {
    let mut table = [false; 9];
    for &k in counts {
        table[k] = true;
    }
    table
}

#[test]
fn new_rule_is_all_false() {
    let rules = Rulestring::new();
    assert_eq!(rules.b, [false; 9]);
    assert_eq!(rules.s, [false; 9]);
}

#[test]
fn life_rule_is_read() {
    let rules = Rulestring::from_str("B3/S23").unwrap();
    assert_eq!(rules.b, flags(&[3]));
    assert_eq!(rules.s, flags(&[2, 3]));
}

#[test]
fn bare_letters_stand_for_zero_neighbours() {
    let rules = Rulestring::from_str("B/S").unwrap();
    assert_eq!(rules.b, flags(&[0]));
    assert_eq!(rules.s, flags(&[0]));
}

#[test]
fn three_parts_are_a_bad_string() {
    assert_eq!(Rulestring::from_str("B3/S23/S1"), Err(RuleError::BadString));
}

#[test]
fn nine_is_an_invalid_digit() {
    assert_eq!(Rulestring::from_str("B9/S2"), Err(RuleError::InvalidInt('9')));
}

#[test]
fn zero_is_an_invalid_digit() {
    assert_eq!(Rulestring::from_str("B0/S1"), Err(RuleError::InvalidInt('0')));
    assert_eq!(Rulestring::from_str("B1/S20"), Err(RuleError::InvalidInt('0')));
}

#[test]
fn a_letter_among_the_digits_is_invalid() {
    assert_eq!(Rulestring::from_str("B3a/S2"), Err(RuleError::InvalidInt('a')));
    assert_eq!(Rulestring::from_str("B3/S2S"), Err(RuleError::InvalidInt('S')));
}

#[test]
fn the_first_invalid_character_is_the_one_named() {
    assert_eq!(Rulestring::from_str("B3x9/S2"), Err(RuleError::InvalidInt('x')));
    assert_eq!(Rulestring::from_str("B39x/S2"), Err(RuleError::InvalidInt('9')));
}

#[test]
fn all_digits_from_one_to_eight_are_read() {
    let rules = Rulestring::from_str("B12345678/S87654321").unwrap();
    assert_eq!(rules.b, flags(&[1, 2, 3, 4, 5, 6, 7, 8]));
    assert_eq!(rules.s, flags(&[1, 2, 3, 4, 5, 6, 7, 8]));
}

#[test]
fn digits_may_repeat_and_come_in_any_order() {
    let rules = Rulestring::from_str("B633/S32").unwrap();
    assert_eq!(rules.b, flags(&[3, 6]));
    assert_eq!(rules.s, flags(&[2, 3]));
}

#[test]
fn surrounding_white_space_is_trimmed() {
    let rules = Rulestring::from_str("  \tB36/S23\r\n").unwrap();
    assert_eq!(rules.b, flags(&[3, 6]));
    assert_eq!(rules.s, flags(&[2, 3]));
}

#[test]
fn unicode_white_space_is_trimmed() {
    let rules = Rulestring::from_str("\u{3000}\u{a0}B3/S23\u{85}\u{2028}\u{200a}\u{b}").unwrap();
    assert_eq!(rules.b, flags(&[3]));
    assert_eq!(rules.s, flags(&[2, 3]));
}

#[test]
fn trimming_agrees_with_the_standard_library() {
    for code in 0u32..0x11000 {
        if let Some(c) = char::from_u32(code) {
            let text = format!("{}B3/S23{}", c, c);
            let trimmed = text.trim() == "B3/S23";
            assert_eq!(c.is_whitespace(), trimmed);
            assert_eq!(Rulestring::from_str(&text).is_ok(), trimmed);
        }
    }
}

#[test]
fn white_space_inside_is_not_trimmed() {
    assert_eq!(Rulestring::from_str("B3 /S23"), Err(RuleError::InvalidInt(' ')));
    assert_eq!(Rulestring::from_str("B3/ S23"), Err(RuleError::InvalidInt('S')));
    assert_eq!(Rulestring::from_str("B3/S23 x"), Err(RuleError::InvalidInt(' ')));
}

#[test]
fn a_text_without_a_slash_is_a_bad_string() {
    assert_eq!(Rulestring::from_str("B3S23"), Err(RuleError::BadString));
    assert_eq!(Rulestring::from_str(""), Err(RuleError::BadString));
    assert_eq!(Rulestring::from_str("   "), Err(RuleError::BadString));
}

#[test]
fn a_wrong_single_letter_is_a_bad_string() {
    assert_eq!(Rulestring::from_str("X/S"), Err(RuleError::BadString));
    assert_eq!(Rulestring::from_str("B/T"), Err(RuleError::BadString));
    assert_eq!(Rulestring::from_str("S/B"), Err(RuleError::BadString));
    assert_eq!(Rulestring::from_str("b/s"), Err(RuleError::BadString));
    assert_eq!(Rulestring::from_str("3/S"), Err(RuleError::BadString));
}

#[test]
fn the_birth_part_is_judged_first() {
    assert_eq!(Rulestring::from_str("B9/X"), Err(RuleError::InvalidInt('9')));
    assert_eq!(Rulestring::from_str("X/S9"), Err(RuleError::BadString));
    assert_eq!(Rulestring::from_str("B3/X"), Err(RuleError::BadString));
}

#[test]
fn the_leading_letter_of_a_longer_part_is_not_read() {
    let rules = Rulestring::from_str("X3/Y23").unwrap();
    assert_eq!(rules.b, flags(&[3]));
    assert_eq!(rules.s, flags(&[2, 3]));
    let rules = Rulestring::from_str("93/023").unwrap();
    assert_eq!(rules.b, flags(&[3]));
    assert_eq!(rules.s, flags(&[2, 3]));
}

#[test]
fn an_empty_part_sets_nothing() {
    let rules = Rulestring::from_str("/").unwrap();
    assert_eq!(rules.b, [false; 9]);
    assert_eq!(rules.s, [false; 9]);
    let rules = Rulestring::from_str("B3/").unwrap();
    assert_eq!(rules.b, flags(&[3]));
    assert_eq!(rules.s, [false; 9]);
    let rules = Rulestring::from_str("/S").unwrap();
    assert_eq!(rules.b, [false; 9]);
    assert_eq!(rules.s, flags(&[0]));
}

#[test]
fn a_single_character_of_several_bytes_sets_nothing() {
    let rules = Rulestring::from_str("\u{e9}/S").unwrap();
    assert_eq!(rules.b, [false; 9]);
    assert_eq!(rules.s, flags(&[0]));
    let rules = Rulestring::from_str("B/\u{2593}").unwrap();
    assert_eq!(rules.b, flags(&[0]));
    assert_eq!(rules.s, [false; 9]);
}

#[test]
fn digits_of_other_scripts_are_invalid() {
    assert_eq!(Rulestring::from_str("B\u{663}/S2"), Err(RuleError::InvalidInt('\u{663}')));
}

#[test]
fn a_rule_is_written_in_ascending_digits() {
    assert_eq!(Rulestring::from_str("B3/S23").unwrap().to_string(), "B3/S23");
    assert_eq!(Rulestring::from_str("B63/S32").unwrap().to_string(), "B36/S23");
    assert_eq!(Rulestring::from_str("B87654321/S1").unwrap().to_string(), "B12345678/S1");
}

#[test]
fn zero_and_empty_sets_are_written_too() {
    assert_eq!(Rulestring::new().to_string(), "B/S");
    assert_eq!(Rulestring::from_str("B/S").unwrap().to_string(), "B0/S0");
    let rules = Rulestring { b: [true; 9], s: [false; 9] };
    assert_eq!(rules.to_string(), "B012345678/S");
}

#[test]
fn the_written_rule_reads_back() {
    for text in ["B3/S23", "B36/S23", "B2/S1", "X8765/Y4321", " B1357/S2468 ", "B12345678/S12345678"] {
        let rules = Rulestring::from_str(text).unwrap();
        let again = Rulestring::from_str(&rules.to_string()).unwrap();
        assert_eq!(again, rules);
    }
}

#[test]
fn every_readable_rule_reads_back() {
    for birth in 1u32..256 {
        for survive in [1u32, 2, 6, 77, 128, 255] {
            let mut rules = Rulestring::new();
            for k in 0..8 {
                rules.b[k + 1] = birth >> k & 1 == 1;
                rules.s[k + 1] = survive >> k & 1 == 1;
            }
            assert_eq!(Rulestring::from_str(&rules.to_string()), Ok(rules));
        }
    }
}

#[test]
fn a_rule_with_zero_does_not_read_back() {
    let rules = Rulestring::from_str("B/S").unwrap();
    assert_eq!(Rulestring::from_str(&rules.to_string()), Err(RuleError::InvalidInt('0')));
    let empty = Rulestring::new();
    assert_eq!(Rulestring::from_str(&empty.to_string()), Ok(rules));
}

#[test]
fn errors_say_what_is_wrong() {
    assert_eq!(RuleError::BadString.to_string(), "Invalid Rulestring");
    assert_eq!(RuleError::InvalidInt('9').to_string(), "Invalid value 9 in Rulestring");
    assert_eq!(RuleError::InvalidInt('\u{e9}').to_string(), "Invalid value \u{e9} in Rulestring");
}
