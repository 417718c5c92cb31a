use exercises::alphametics::{evaluate_column, parse_words, solve, Alphametics};

fn digit(sol: &[(char, u8)], c: char) -> u64 {
    sol.iter().find(|p| p.0 == c).map(|p| p.1 as u64).expect("letter without a digit")
}

fn value(sol: &[(char, u8)], word: &str) -> u64 {
    word.chars().fold(0, |acc, c| acc * 10 + digit(sol, c))
}

/// Substitutes the digits back and checks the sum, injectivity and leading
/// letters.
fn assert_solves(addends: &[&str], result: &str, sol: &[(char, u8)]) {
    let total: u64 = addends.iter().map(|w| value(sol, w)).sum();
    assert_eq!(total, value(sol, result));
    for (i, a) in sol.iter().enumerate() {
        assert!(a.1 < 10);
        for b in sol.iter().skip(i + 1) {
            assert_ne!(a.0, b.0);
            assert_ne!(a.1, b.1);
        }
    }
    for w in addends.iter().chain(std::iter::once(&result)) {
        assert_ne!(digit(sol, w.chars().next().unwrap()), 0);
    }
}

#[test]
fn solves_three_letter_puzzle() {
    let sol = solve("I + BB == ILL").expect("solvable");
    assert_solves(&["I", "BB"], "ILL", &sol);
    assert_eq!(sol.len(), 3);
}

#[test]
fn solves_send_more_money() {
    let sol = solve("SEND + MORE == MONEY").expect("solvable");
    assert_solves(&["SEND", "MORE"], "MONEY", &sol);
    assert_eq!(sol.len(), 8);
}

#[test]
fn solves_as_plus_a() {
    let sol = solve("AS + A == MOM").expect("solvable");
    assert_solves(&["AS", "A"], "MOM", &sol);
}

#[test]
fn solves_single_column_sum() {
    let sol = solve("A + B == C").expect("solvable");
    assert_solves(&["A", "B"], "C", &sol);
}

#[test]
fn leading_zero_makes_puzzle_unsolvable() {
    assert_eq!(solve("ACA + DD == BD"), None);
}

#[test]
fn eleven_letters_have_no_solution() {
    assert_eq!(solve("ABCDEFGHIJ + K == ABCDEFGHIJK"), None);
}

#[test]
fn single_word_has_no_solution() {
    assert_eq!(solve("A"), None);
    assert_eq!(solve("ABC"), None);
}

#[test]
fn shorter_result_has_no_solution() {
    assert_eq!(solve("AB + C == D"), None);
    assert_eq!(solve("ABC + DEF == GH"), None);
}

#[test]
fn carry_past_the_top_is_refused() {
    let sol = solve("AB + CD == EF").expect("solvable");
    assert_solves(&["AB", "CD"], "EF", &sol);
}

#[test]
fn puzzle_from_words() {
    let words: Vec<Vec<char>> = vec!["SEND".chars().collect(), "MORE".chars().collect(), "MONEY".chars().collect()];
    let mut p = Alphametics::from_words(words);
    let sol = p.solve().expect("solvable");
    assert_solves(&["SEND", "MORE"], "MONEY", &sol);
    let mut q = Alphametics::from_words(vec![vec!['A'], vec!['B'], vec!['A']]);
    assert_eq!(q.solve(), None);
}

#[test]
fn solving_twice_gives_the_same_outcome() {
    let mut p = Alphametics::new("SEND + MORE == MONEY");
    let first = p.solve();
    let second = p.solve();
    assert!(first.is_some());
    assert_eq!(first, second);
    let mut q = Alphametics::new("A");
    assert_eq!(q.solve(), None);
    assert_eq!(q.solve(), None);
}

#[test]
fn parse_keeps_uppercase_words_only() {
    let words = parse_words("SEND + MORE == MONEY");
    let expected: Vec<Vec<char>> = vec!["SEND".chars().collect(), "MORE".chars().collect(), "MONEY".chars().collect()];
    assert_eq!(words, expected);
    let words = parse_words("ab + Cd + EF  =  GH1 + IJ");
    let expected: Vec<Vec<char>> = vec!["EF".chars().collect(), "IJ".chars().collect()];
    assert_eq!(words, expected);
    assert!(parse_words("").is_empty());
}

#[test]
fn evaluate_column_gives_carry() {
    let sol = vec![('A', 3), ('B', 9), ('C', 2)];
    assert_eq!(evaluate_column(&sol, &vec!['A', 'B', 'C'], 0), Some(1));
    assert_eq!(evaluate_column(&sol, &vec!['A', 'B', 'C'], 1), None);
    assert_eq!(evaluate_column(&sol, &vec!['A', 'B', 'D'], 0), None);
    assert_eq!(evaluate_column(&sol, &vec!['C'], 12), Some(1));
    assert_eq!(evaluate_column(&sol, &vec![], 0), None);
}

