use pass_gen::pool::{ascii_pool, number_pool, word_pool, PoolError, TokenData};
use pass_gen::sample::generate;

fn pool_contents(p: &TokenData) -> Vec<String> {
    let mut v = Vec::new();
    for i in 0..p.len() {
        v.push(p.get(i).to_string());
    }
    v
}

#[test]
fn preset_sizes() {
    assert_eq!(word_pool().len(), 64);
    assert_eq!(ascii_pool().len(), 94);
    assert_eq!(number_pool().len(), 10);
}

#[test]
fn number_pool_is_digits() {
    let p = number_pool();
    for i in 0..10 {
        assert_eq!(p.get(i), i.to_string());
    }
}

#[test]
fn range_covers_pool() {
    let p = word_pool();
    let r = p.range();
    assert_eq!(r.start, 0);
    assert_eq!(r.end, 64);
}

#[test]
fn sampled_tokens_come_from_the_pool() {
    let p = word_pool();
    let contents = pool_contents(&p);
    let mut rng = rand::thread_rng();
    for _ in 0..200 {
        let t = p.sample(&mut rng);
        assert!(contents.iter().any(|w| w == t));
    }
}

#[test]
fn sampling_a_single_token_pool_returns_it() {
    let data = b"only\n".to_vec();
    let p = TokenData::from_bytes(&data).unwrap();
    let mut rng = rand::thread_rng();
    for _ in 0..10 {
        assert_eq!(p.sample(&mut rng), "only");
    }
}

#[test]
fn generate_word_count_and_separators() {
    let p = word_pool();
    let contents = pool_contents(&p);
    let mut rng = rand::thread_rng();
    let s = generate(&p, 4, "-", &mut rng);
    let parts: Vec<&str> = s.split('-').collect();
    assert_eq!(parts.len(), 4);
    for part in parts {
        assert!(contents.iter().any(|w| w == part));
    }
    assert!(!s.ends_with('-'));
    assert!(!s.starts_with('-'));
}

#[test]
fn generate_with_empty_separator() {
    let p = ascii_pool();
    let mut rng = rand::thread_rng();
    let s = generate(&p, 16, "", &mut rng);
    assert_eq!(s.chars().count(), 16);
}

#[test]
fn generate_single_token_has_no_separator() {
    let data = b"alpha\n".to_vec();
    let p = TokenData::from_bytes(&data).unwrap();
    let mut rng = rand::thread_rng();
    let s = generate(&p, 3, "/", &mut rng);
    assert_eq!(s, "alpha/alpha/alpha");
}

#[test]
fn five_lines_give_a_pool_of_five() {
    let data = b"alpha\nbeta\ngamma\ndelta\nepsilon\n".to_vec();
    let p = TokenData::from_bytes(&data).unwrap();
    assert_eq!(p.len(), 5);
    assert_eq!(p.get(0), "alpha");
    assert_eq!(p.get(4), "epsilon");
}

#[test]
fn lines_are_trimmed_and_empties_dropped() {
    let data = b"  one  \n\n\ttwo\r\n   \nthree".to_vec();
    let p = TokenData::from_bytes(&data).unwrap();
    assert_eq!(p.len(), 3);
    assert_eq!(p.get(0), "one");
    assert_eq!(p.get(1), "two");
    assert_eq!(p.get(2), "three");
}

#[test]
fn missing_final_newline_keeps_last_token() {
    let data = b"a\nb".to_vec();
    let p = TokenData::from_bytes(&data).unwrap();
    assert_eq!(p.len(), 2);
    assert_eq!(p.get(1), "b");
}

#[test]
fn invalid_bytes_are_a_read_failure() {
    let data = vec![b'o', b'k', b'\n', 0xff, 0xfe, b'\n'];
    let r = TokenData::from_bytes(&data);
    assert_eq!(r.unwrap_err(), PoolError::InvalidLine);
}

#[test]
fn empty_input_gives_no_pool() {
    let r = TokenData::from_bytes(&Vec::new());
    assert_eq!(r.unwrap_err(), PoolError::Empty);
}

#[test]
fn whitespace_only_input_gives_no_pool() {
    let data = b"  \n\t\n   \n".to_vec();
    let r = TokenData::from_bytes(&data);
    assert_eq!(r.unwrap_err(), PoolError::Empty);
}

#[test]
fn non_ascii_text_is_kept() {
    let data = "caf\u{e9}\nna\u{ef}ve\n".as_bytes().to_vec();
    let p = TokenData::from_bytes(&data).unwrap();
    assert_eq!(p.len(), 2);
    assert_eq!(p.get(0), "caf\u{e9}");
}

#[test]
fn number_passphrase_is_all_digits() {
    let p = number_pool();
    let mut rng = rand::thread_rng();
    let s = generate(&p, 8, "", &mut rng);
    assert_eq!(s.len(), 8);
    assert!(s.chars().all(|c| c.is_ascii_digit()));
}

#[test]
fn word_tokens_are_separator_free() {
    let p = word_pool();
    for w in pool_contents(&p) {
        assert!(!w.contains('-'));
        assert!(!w.contains(char::is_whitespace));
    }
}

#[test]
fn ascii_tokens_are_the_printable_characters_in_order() {
    let p = ascii_pool();
    for i in 0..94usize {
        let expected = char::from(33 + i as u8).to_string();
        assert_eq!(p.get(i), expected);
    }
}

#[test]
fn word_tokens_are_non_empty() {
    let p = word_pool();
    for w in pool_contents(&p) {
        assert!(!w.is_empty());
    }
}
