use covfuzz::mutator;
use covfuzz::mutator::Mutator;
use covfuzz::random;
use rand::rngs::StdRng;
use rand::SeedableRng;

fn is_printable(c: char) -> bool {
    (32..=126).contains(&(c as u32))
}

/// Whether `r` is `s` with one printable character inserted.
fn is_insertion(s: &str, r: &str) -> bool {
    let s: Vec<char> = s.chars().collect();
    let r: Vec<char> = r.chars().collect();
    r.len() == s.len() + 1
        && (0..r.len()).any(|pos| {
            let mut without = r.clone();
            let c = without.remove(pos);
            without == s && is_printable(c)
        })
}

/// Whether `r` is `s` with one character removed.
fn is_deletion(s: &str, r: &str) -> bool {
    let s: Vec<char> = s.chars().collect();
    let r: Vec<char> = r.chars().collect();
    r.len() + 1 == s.len()
        && (0..s.len()).any(|pos| {
            let mut without = s.clone();
            without.remove(pos);
            without == r
        })
}

/// Whether `r` is `s` with two of its characters exchanged.
fn is_flip(s: &str, r: &str) -> bool {
    let s: Vec<char> = s.chars().collect();
    let r: Vec<char> = r.chars().collect();
    (0..s.len()).any(|first| {
        (0..s.len()).any(|second| {
            let mut swapped = s.clone();
            swapped.swap(first, second);
            swapped == r
        })
    })
}

#[test]
fn test() {
    let mut or_str = "string".to_owned();
    or_str.replace_range(1..2, "b");
    assert_eq!(or_str, "sbring".to_owned());
    assert_eq!(mutator::replace_char("string", 1, 'b'), "sbring".to_owned());
}

#[test]
fn insert_char() {
    let mut rng = StdRng::seed_from_u64(1);
    let unchanged: String = "string".to_owned();
    let s = Mutator::new().insert_random_char(unchanged.clone(), &mut rng);
    assert_eq!(s.len(), 7);
    assert_ne!(s, unchanged);
}

#[test]
fn insert_char_into_empty_str() {
    let mut rng = StdRng::seed_from_u64(1);
    let unchanged: String = "".to_owned();
    let s = Mutator::new().insert_random_char(unchanged.clone(), &mut rng);
    assert_eq!(s.len(), 1);
}

#[test]
fn delete_char() {
    let mut rng = StdRng::seed_from_u64(1);
    let unchanged: String = "string".to_owned();
    let s = Mutator::new().delete_random_char(unchanged.clone(), &mut rng);
    assert_eq!(s.len(), 5);
}

#[test]
fn flip_chars() {
    let mut rng = StdRng::seed_from_u64(1);
    let unchanged: String = "string".to_owned();
    let s = Mutator::new().flip_random_char(unchanged.clone(), &mut rng);
    assert_eq!(s.len(), 6);
    assert_ne!(s, unchanged);
}

#[test]
fn insert_char_at_each_position() {
    assert_eq!(mutator::insert_char("abc", 0, 'x'), "xabc");
    assert_eq!(mutator::insert_char("abc", 1, 'x'), "axbc");
    assert_eq!(mutator::insert_char("abc", 3, 'x'), "abcx");
    assert_eq!(mutator::insert_char("", 0, '~'), "~");
}

#[test]
fn insert_char_changes_only_the_chosen_position() {
    let unchanged = "string";
    for position in 0..=unchanged.len() {
        let mut changed: Vec<char> = mutator::insert_char(unchanged, position, '!').chars().collect();
        assert_eq!(changed.len(), unchanged.len() + 1);
        assert_eq!(changed.remove(position), '!');
        assert_eq!(changed.into_iter().collect::<String>(), unchanged);
    }
}

#[test]
fn delete_char_at_each_position() {
    assert_eq!(mutator::delete_char("abc", 0), "bc");
    assert_eq!(mutator::delete_char("abc", 1), "ac");
    assert_eq!(mutator::delete_char("abc", 2), "ab");
    assert_eq!(mutator::delete_char("a", 0), "");
}

#[test]
fn replace_char_at_each_position() {
    assert_eq!(mutator::replace_char("abc", 0, 'x'), "xbc");
    assert_eq!(mutator::replace_char("abc", 2, 'x'), "abx");
}

#[test]
fn flip_chars_exchanges_two_positions() {
    assert_eq!(mutator::flip_chars("string", 0, 5), "gtrins");
    assert_eq!(mutator::flip_chars("string", 5, 0), "gtrins");
    assert_eq!(mutator::flip_chars("string", 1, 2), "srting");
}

#[test]
fn flip_chars_at_one_position_changes_nothing() {
    for position in 0..6 {
        assert_eq!(mutator::flip_chars("string", position, position), "string");
    }
}

#[test]
fn flip_chars_of_equal_characters_changes_nothing() {
    assert_eq!(mutator::flip_chars("abca", 0, 3), "abca");
}

#[test]
fn positions_count_characters_not_bytes() {
    assert_eq!(mutator::insert_char("héllo", 2, 'x'), "héxllo");
    assert_eq!(mutator::delete_char("héllo", 1), "hllo");
    assert_eq!(mutator::flip_chars("héllo", 1, 4), "hollé");
}

#[test]
fn delete_and_flip_fall_back_to_insert_on_empty_input() {
    for seed in 0..50 {
        let mut rng = StdRng::seed_from_u64(seed);
        let deleted = Mutator::new().delete_random_char(String::new(), &mut rng);
        assert_eq!(deleted.chars().count(), 1);
        assert!(deleted.chars().all(is_printable));
        let flipped = Mutator::new().flip_random_char(String::new(), &mut rng);
        assert_eq!(flipped.chars().count(), 1);
        assert!(flipped.chars().all(is_printable));
        let mutated = Mutator::new().mutate(String::new(), &mut rng);
        assert_eq!(mutated.chars().count(), 1);
        assert!(mutated.chars().all(is_printable));
    }
}

#[test]
fn random_edits_are_what_they_say() {
    let mutator = Mutator::new();
    for seed in 0..200 {
        let mut rng = StdRng::seed_from_u64(seed);
        let inserted = mutator.insert_random_char("string".to_owned(), &mut rng);
        assert!(is_insertion("string", &inserted));
        let deleted = mutator.delete_random_char("string".to_owned(), &mut rng);
        assert!(is_deletion("string", &deleted));
        let flipped = mutator.flip_random_char("string".to_owned(), &mut rng);
        assert_eq!(flipped.len(), 6);
        assert!(is_flip("string", &flipped));
    }
}

#[test]
fn flip_random_char_may_leave_the_string_unchanged() {
    let mutator = Mutator::new();
    let mut unchanged = 0;
    let mut changed = 0;
    for seed in 0..200 {
        let mut rng = StdRng::seed_from_u64(seed);
        if mutator.flip_random_char("string".to_owned(), &mut rng) == "string" {
            unchanged += 1;
        } else {
            changed += 1;
        }
    }
    assert!(unchanged > 0);
    assert!(changed > 0);
}

#[test]
fn mutate_makes_one_edit_of_some_kind() {
    let mutator = Mutator::new();
    let mut insertions = 0;
    let mut deletions = 0;
    let mut same_length = 0;
    for seed in 0..300 {
        let mut rng = StdRng::seed_from_u64(seed);
        let mutant = mutator.mutate("string".to_owned(), &mut rng);
        if is_insertion("string", &mutant) {
            insertions += 1;
        } else if is_deletion("string", &mutant) {
            deletions += 1;
        } else {
            assert!(is_flip("string", &mutant));
            same_length += 1;
        }
    }
    assert!(insertions > 0);
    assert!(deletions > 0);
    assert!(same_length > 0);
}

#[test]
fn printable_draws_stay_in_range_and_vary() {
    let mut rng = StdRng::seed_from_u64(7);
    let mut seen: Vec<char> = Vec::new();
    for _ in 0..500 {
        let c = random::printable(&mut rng);
        assert!(is_printable(c));
        if !seen.contains(&c) {
            seen.push(c);
        }
    }
    assert!(seen.len() > 10);
}

#[test]
fn random_string_has_the_length_and_characters_asked_for() {
    let mut rng = StdRng::seed_from_u64(11);
    for len in 0..40 {
        let any = mutator::random_string(true, len, &mut rng);
        assert_eq!(any.chars().count(), len);
        assert!(any.chars().all(is_printable));
        let plain = mutator::random_string(false, len, &mut rng);
        assert_eq!(plain.chars().count(), len);
        assert!(plain.chars().all(|c| c.is_ascii_alphanumeric()));
    }
}

#[test]
fn gen_random_strings_makes_one_short_printable_string() {
    let mut lengths: Vec<usize> = Vec::new();
    for seed in 0..200 {
        let mut rng = StdRng::seed_from_u64(seed);
        let strings = mutator::gen_random_strings(&mut rng);
        assert_eq!(strings.len(), 1);
        let len = strings[0].chars().count();
        assert!((1..=5).contains(&len));
        assert!(strings[0].chars().all(is_printable));
        if !lengths.contains(&len) {
            lengths.push(len);
        }
    }
    lengths.sort();
    assert_eq!(lengths, vec![1, 2, 3, 4, 5]);
}

#[test]
fn a_fixed_seed_repeats_the_run() {
    let mutator = Mutator::new();
    let mut first = StdRng::seed_from_u64(42);
    let mut second = StdRng::seed_from_u64(42);
    for _ in 0..20 {
        let a = mutator.mutate("https://web.site".to_owned(), &mut first);
        let b = mutator.mutate("https://web.site".to_owned(), &mut second);
        assert_eq!(a, b);
    }
}
