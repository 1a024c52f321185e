use addrsync::nickname::{generate_nickname, last_name_part, split_string_and_number};

#[test]
fn split_finds_text_and_number() {
    assert_eq!(split_string_and_number("Doe01"), ("Doe".to_string(), 1));
    assert_eq!(split_string_and_number("Doe99"), ("Doe".to_string(), 99));
}

#[test]
fn split_without_digits_yields_zero() {
    assert_eq!(split_string_and_number("abc"), ("abc".to_string(), 0));
    assert_eq!(split_string_and_number(""), ("".to_string(), 0));
}

#[test]
fn split_with_trailing_garbage_yields_zero() {
    assert_eq!(split_string_and_number("ab1c"), ("ab".to_string(), 0));
}

#[test]
fn split_with_overflowing_number_yields_zero() {
    assert_eq!(split_string_and_number("x99999999999"), ("x".to_string(), 0));
}

#[test]
fn single_email_gets_the_bare_last_name() {
    let mut pool: Vec<String> = Vec::new();
    let nickname = generate_nickname("Jane Doe", 1, &mut pool);
    assert_eq!(nickname, "Doe");
    assert_eq!(pool, vec!["Doe".to_string()]);
}

#[test]
fn name_without_tokens_falls_back_to_unknown() {
    let mut pool: Vec<String> = Vec::new();
    assert_eq!(generate_nickname("", 1, &mut pool), "Unknown");
    let mut pool2: Vec<String> = Vec::new();
    assert_eq!(generate_nickname("   ", 1, &mut pool2), "Unknown");
}

#[test]
fn batch_of_three_yields_distinct_numbered_nicknames() {
    let mut pool: Vec<String> = Vec::new();
    let n1 = generate_nickname("Jane Doe", 3, &mut pool);
    let n2 = generate_nickname("Jane Doe", 3, &mut pool);
    let n3 = generate_nickname("Jane Doe", 3, &mut pool);
    assert_eq!(n1, "Doe01");
    assert_eq!(n2, "Doe02");
    assert_eq!(n3, "Doe03");
    assert!(n1 != n2 && n2 != n3 && n1 != n3);
    assert_eq!(pool.len(), 3);
}

#[test]
fn collision_with_existing_pool_entry_is_avoided() {
    let mut pool = vec!["Doe01".to_string()];
    let nickname = generate_nickname("Jane Doe", 2, &mut pool);
    assert_eq!(nickname, "Doe02");
}

#[test]
fn counter_continues_from_the_first_pool_entry() {
    let mut pool = vec!["Doe07".to_string()];
    let nickname = generate_nickname("Jane Doe", 2, &mut pool);
    assert_eq!(nickname, "Doe08");
}

#[test]
fn single_email_ignores_numbered_variants_in_the_pool() {
    let mut pool = vec!["Doe03".to_string()];
    let nickname = generate_nickname("Jane Doe", 1, &mut pool);
    assert_eq!(nickname, "Doe");
}

#[test]
fn last_name_part_takes_the_final_token() {
    assert_eq!(last_name_part("Jane Q Doe"), "Doe");
    assert_eq!(last_name_part("Cher"), "Cher");
    assert_eq!(last_name_part("  spaced out  "), "out");
    assert_eq!(last_name_part(""), "Unknown");
}
