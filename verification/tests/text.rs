use qrun::text::{chars_of, string_of};

#[test]
fn chars_of_lists_characters_in_order() {
    assert_eq!(chars_of("aé b"), vec!['a', 'é', ' ', 'b']);
    assert!(chars_of("").is_empty());
}

#[test]
fn string_of_takes_the_range() {
    let chars = vec!['a', 'é', ' ', 'b'];
    assert_eq!(string_of(&chars, 0, 4), "aé b");
    assert_eq!(string_of(&chars, 1, 3), "é ");
    assert_eq!(string_of(&chars, 2, 2), "");
}
