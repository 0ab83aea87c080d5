use teardown::words::first_word;

#[test]
fn first_word_stops_at_the_first_space() {
    let s: Vec<u8> = b"hello world".to_vec();
    assert_eq!(first_word(&s), b"hello".to_vec());
}

#[test]
fn first_word_of_spaceless_input_is_the_whole_input() {
    let s: Vec<u8> = b"hello".to_vec();
    assert_eq!(first_word(&s), b"hello".to_vec());
}

#[test]
fn first_word_of_empty_input_is_empty() {
    let s: Vec<u8> = Vec::new();
    assert_eq!(first_word(&s), Vec::<u8>::new());
}

#[test]
fn first_word_of_input_starting_with_a_space_is_empty() {
    let s: Vec<u8> = b" hello".to_vec();
    assert_eq!(first_word(&s), Vec::<u8>::new());
}

#[test]
fn first_word_stops_at_the_first_of_many_spaces() {
    let s: Vec<u8> = b"a b c".to_vec();
    assert_eq!(first_word(&s), b"a".to_vec());
}

#[test]
fn test_does_nothing() {
    teardown::words::test();
}
