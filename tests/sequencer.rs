use bruteforce::{BruteForce, BruteForceError};
use std::collections::HashSet;

fn take(b: &mut BruteForce, n: usize) -> Vec<String> {
    let mut out = Vec::new();
    for _ in 0..n {
        out.push(b.raw_next().unwrap().to_string());
    }
    out
}

/// The n-th string by counting: find the length, then write the offset in
/// base k with the given number of digits.
fn nth_by_formula(chars: &[char], n: u64) -> String {
    let k = chars.len() as u64;
    let mut len: u32 = 0;
    let mut below: u64 = 0;
    while below + k.pow(len) <= n {
        below += k.pow(len);
        len += 1;
    }
    let mut offset = n - below;
    let mut digits = vec![0u64; len as usize];
    for d in digits.iter_mut() {
        *d = offset % k;
        offset /= k;
    }
    digits.iter().rev().map(|&d| chars[d as usize]).collect()
}

#[test]
fn from_scratch_first_five() {
    // The last character varies fastest: "AA" is followed by "AB".
    let mut b = BruteForce::new(vec!['A', 'B']);
    assert_eq!(take(&mut b, 5), vec!["", "A", "B", "AA", "AB"]);
}

#[test]
fn resume_carries_and_grows() {
    let mut b = BruteForce::new_by_start_string(vec!['A', 'B', 'C'], "CCB".to_string()).unwrap();
    assert_eq!(take(&mut b, 3), vec!["CCB", "CCC", "AAAA"]);
}

#[test]
fn resume_rejects_unknown_character() {
    let r = BruteForce::new_by_start_string(vec!['X', 'Y'], "XZ".to_string());
    assert_eq!(
        r.unwrap_err(),
        BruteForceError::InvalidResumeCharacter { character: 'Z', position: 1 }
    );
}

#[test]
fn resume_names_last_unknown_character() {
    let r = BruteForce::new_by_start_string(vec!['X', 'Y'], "QXZY".to_string());
    assert_eq!(
        r.unwrap_err(),
        BruteForceError::InvalidResumeCharacter { character: 'Z', position: 2 }
    );
}

#[test]
fn empty_alphabet_fails_to_advance() {
    let mut b = BruteForce::new(vec![]);
    assert_eq!(b.raw_next(), Err(BruteForceError::EmptyAlphabet));
    assert_eq!(b.raw_next(), Err(BruteForceError::EmptyAlphabet));
    assert_eq!(b.next(), None);
    let mut s = BruteForce::new_at(vec![], 3);
    assert_eq!(s.raw_next(), Err(BruteForceError::EmptyAlphabet));
}

#[test]
fn empty_alphabet_resume_from_empty_string() {
    let mut b = BruteForce::new_by_start_string(vec![], String::new()).unwrap();
    assert_eq!(b.raw_next(), Err(BruteForceError::EmptyAlphabet));
    let r = BruteForce::new_by_start_string(vec![], "A".to_string());
    assert_eq!(
        r.unwrap_err(),
        BruteForceError::InvalidResumeCharacter { character: 'A', position: 0 }
    );
}

#[test]
fn skip_starts_at_first_character_repeated() {
    let mut b = BruteForce::new_at(vec!['A', 'B', 'C', 'P', 'S'], 4);
    assert_eq!(take(&mut b, 3), vec!["AAAA", "AAAB", "AAAC"]);
    let mut z = BruteForce::new_at(vec!['q', 'r'], 0);
    assert_eq!(z.raw_next().unwrap(), "");
}

#[test]
fn resume_yields_start_first() {
    let chars = vec!['A', 'B', 'C', 'P', 'S'];
    for s in ["", "A", "PASS", "SSSS", "CAB"] {
        let mut b = BruteForce::new_by_start_string(chars.clone(), s.to_string()).unwrap();
        assert_eq!(b.raw_next().unwrap(), s);
    }
}

#[test]
fn resume_matches_counting_from_scratch() {
    let chars = vec!['a', 'b', 'c'];
    let mut scratch = BruteForce::new(chars.clone());
    let all = take(&mut scratch, 60);
    for (i, s) in all.iter().enumerate() {
        let mut b = BruteForce::new_by_start_string(chars.clone(), s.clone()).unwrap();
        assert_eq!(take(&mut b, 60 - i), all[i..].to_vec());
    }
}

#[test]
fn nth_string_follows_counting_formula() {
    for chars in [vec!['x'], vec!['0', '1'], vec!['a', 'b', 'c'], vec!['A', 'B', 'C', 'D', 'E']] {
        let mut b = BruteForce::new(chars.clone());
        for n in 0..300u64 {
            assert_eq!(b.raw_next().unwrap(), nth_by_formula(&chars, n));
        }
    }
}

#[test]
fn strings_never_repeat() {
    let mut b = BruteForce::new(vec!['A', 'B', 'C']);
    let mut seen = HashSet::new();
    for _ in 0..1000 {
        assert!(seen.insert(b.raw_next().unwrap().to_string()));
    }
}

#[test]
fn single_character_alphabet_grows_each_step() {
    let mut b = BruteForce::new(vec!['z']);
    assert_eq!(take(&mut b, 4), vec!["", "z", "zz", "zzz"]);
}

#[test]
fn duplicate_characters_resume_at_first_occurrence() {
    let mut b = BruteForce::new_by_start_string(vec!['A', 'A', 'B'], "A".to_string()).unwrap();
    assert_eq!(take(&mut b, 3), vec!["A", "A", "B"]);
}

#[test]
fn current_holds_last_string() {
    let mut b = BruteForce::new(vec!['A', 'B']);
    assert_eq!(b.current, "");
    b.raw_next().unwrap();
    b.raw_next().unwrap();
    assert_eq!(b.current, "A");
    assert_eq!(b.chars, vec!['A', 'B']);
}

#[test]
fn next_returns_owned_strings() {
    let mut b = BruteForce::new(vec!['0', '1']);
    let got: Vec<String> = (0..7).map(|_| b.next().unwrap()).collect();
    assert_eq!(got, vec!["", "0", "1", "00", "01", "10", "11"]);
}

#[test]
fn finds_password_by_exhaustion() {
    let mut b = BruteForce::new_at(vec!['A', 'B', 'C', 'P', 'S'], 4);
    let mut steps = 0;
    while b.raw_next().unwrap() != "PASS" {
        steps += 1;
    }
    // "PASS" read least significant first is S, S, A, P: 4 + 4*5 + 0*25 + 3*125.
    assert_eq!(steps, 399);
}
