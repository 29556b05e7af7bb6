use brute::Brute;
use std::collections::HashSet;

fn drain(mut brute: Brute) -> Vec<String> {
    let mut out = Vec::new();
    while let Some(s) = brute.next() {
        out.push(s);
    }
    out
}

fn count(brute: Brute) -> usize {
    drain(brute).len()
}

fn number(charset: &[char], text: &str) -> usize {
    let mut n = 0;
    for ch in text.chars() {
        let digit = charset.iter().position(|c| *c == ch).unwrap();
        n = n * charset.len() + digit;
    }
    n
}

#[test]
fn basic() {
    let chars: Vec<char> = "0123456789".chars().collect();

    let brute = Brute::new(1, 1, chars.clone()).unwrap();
    assert_eq!(count(brute), 10);

    let brute = Brute::new(1, 2, chars.clone()).unwrap();
    assert_eq!(count(brute), 110);

    let brute = Brute::new(1, 3, chars.clone()).unwrap();
    assert_eq!(count(brute), 1110);

    let brute = Brute::new(3, 3, chars.clone()).unwrap();
    assert_eq!(count(brute), 1000);
}

#[test]
fn two_symbols_up_to_length_two() {
    let mut brute = Brute::new(1, 2, vec!['a', 'b']).unwrap();
    assert_eq!(brute.next(), Some(String::from("a")));
    assert_eq!(brute.next(), Some(String::from("b")));
    assert_eq!(brute.next(), Some(String::from("aa")));
    assert_eq!(brute.next(), Some(String::from("ab")));
    assert_eq!(brute.next(), Some(String::from("ba")));
    assert_eq!(brute.next(), Some(String::from("bb")));
    assert_eq!(brute.next(), None);
    assert_eq!(brute.next(), None);
    assert_eq!(brute.next(), None);
}

#[test]
fn count_is_the_sum_of_powers() {
    let brute = Brute::new(2, 4, vec!['x', 'y', 'z']).unwrap();
    assert_eq!(count(brute), 9 + 27 + 81);
    let brute = Brute::new(4, 4, vec!['0', '1']).unwrap();
    assert_eq!(count(brute), 16);
    let brute = Brute::new(1, 5, vec!['0', '1']).unwrap();
    assert_eq!(count(brute), 2 + 4 + 8 + 16 + 32);
}

#[test]
fn strings_are_distinct() {
    let all = drain(Brute::new(1, 4, vec!['a', 'b', 'c']).unwrap());
    let set: HashSet<&String> = all.iter().collect();
    assert_eq!(all.len(), 3 + 9 + 27 + 81);
    assert_eq!(set.len(), all.len());
}

#[test]
fn lengths_stay_in_bounds_and_never_shrink() {
    let all = drain(Brute::new(2, 4, vec!['a', 'b', 'c']).unwrap());
    let mut last = 2;
    for s in &all {
        let len = s.chars().count();
        assert!(2 <= len && len <= 4);
        assert!(last <= len);
        last = len;
    }
    assert_eq!(all.first().map(|s| s.chars().count()), Some(2));
    assert_eq!(all.last().map(|s| s.chars().count()), Some(4));
}

#[test]
fn neighbours_of_one_length_differ_by_one() {
    let charset = vec!['x', 'y', 'z'];
    let all = drain(Brute::new(1, 3, charset.clone()).unwrap());
    for pair in all.windows(2) {
        let (a, b) = (&pair[0], &pair[1]);
        if a.len() == b.len() {
            assert_eq!(number(&charset, b), number(&charset, a) + 1);
        } else {
            assert_eq!(b.len(), a.len() + 1);
            assert_eq!(number(&charset, a), 3usize.pow(a.len() as u32) - 1);
            assert_eq!(number(&charset, b), 0);
        }
    }
}

#[test]
fn each_length_runs_from_zero_to_the_top() {
    let all = drain(Brute::new(2, 2, vec!['0', '1', '2']).unwrap());
    assert_eq!(all, vec!["00", "01", "02", "10", "11", "12", "20", "21", "22"]);
}

#[test]
fn exhausted_enumerator_stays_exhausted() {
    let mut brute = Brute::new(1, 1, vec!['a']).unwrap();
    assert_eq!(brute.next(), Some(String::from("a")));
    for _ in 0..100 {
        assert_eq!(brute.next(), None);
    }
}

#[test]
fn single_symbol_gives_one_string_per_length() {
    let all = drain(Brute::new(1, 4, vec!['a']).unwrap());
    assert_eq!(all, vec!["a", "aa", "aaa", "aaaa"]);
}

#[test]
fn repeated_symbols_are_kept() {
    let all = drain(Brute::new(1, 1, vec!['a', 'a']).unwrap());
    assert_eq!(all, vec!["a", "a"]);
    let all = drain(Brute::new(1, 2, vec!['a', 'b', 'a']).unwrap());
    assert_eq!(all.len(), 3 + 9);
    assert_eq!(all[2], "a");
    assert_eq!(all[3], "aa");
    assert_eq!(all[11], "aa");
}

#[test]
fn carry_runs_through_several_positions() {
    let mut brute = Brute::new(3, 4, vec!['0', '1']).unwrap();
    let mut all = Vec::new();
    for _ in 0..9 {
        all.push(brute.next().unwrap());
    }
    assert_eq!(all, vec!["000", "001", "010", "011", "100", "101", "110", "111", "0000"]);
}

#[test]
fn symbols_outside_ascii_are_spelled_whole() {
    let all = drain(Brute::new(1, 2, vec!['é', '√']).unwrap());
    assert_eq!(all, vec!["é", "√", "éé", "é√", "√é", "√√"]);
}

#[test]
fn minimum_above_one_skips_shorter_strings() {
    let mut brute = Brute::new(2, 3, vec!['a', 'b']).unwrap();
    assert_eq!(brute.next(), Some(String::from("aa")));
    let rest = drain(brute);
    assert_eq!(rest.len(), 4 + 8 - 1);
    assert_eq!(rest.last(), Some(&String::from("bbb")));
}
