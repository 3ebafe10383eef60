use lu_solve::answer::check_answer;
use lu_solve::generate::generate_random_solvable_system;
use lu_solve::text::{deserialize_system, serialize_system, split_words, FormatError, SystemText};

fn tokens(values: &[&str]) -> Vec<Vec<u8>> {
    values.iter().map(|s| s.as_bytes().to_vec()).collect()
}

fn diagonal_example() -> SystemText {
    SystemText {
        n: 3,
        a: tokens(&["2", "0", "0", "0", "3", "0", "0", "0", "4"]),
        b: tokens(&["4", "9", "8"]),
        x: vec![2, 3, 2],
    }
}

#[test]
fn diagonal_text() {
    let bytes = serialize_system(&diagonal_example());
    assert_eq!(bytes, b"3\n2 0 0 0 3 0 0 0 4\n4 9 8\n2 3 2\n".to_vec());
}

#[test]
fn diagonal_read_back() {
    let t = deserialize_system(b"3\n2 0 0 0 3 0 0 0 4\n4 9 8\n2 3 2\n").unwrap();
    let e = diagonal_example();
    assert_eq!(t.n, 3);
    assert_eq!(t.a, e.a);
    assert_eq!(t.b, e.b);
    assert!(check_answer(&vec![2, 3, 2], &t.x.iter().map(|v| *v as i32).collect()));
}

#[test]
fn last_line_break_optional() {
    let t = deserialize_system(b"1\n5\n-10\n-2").unwrap();
    assert_eq!(t.n, 1);
    assert_eq!(t.a, tokens(&["5"]));
    assert_eq!(t.b, tokens(&["-10"]));
    assert_eq!(t.x, vec![-2]);
}

#[test]
fn float_tokens_kept() {
    let t = deserialize_system(b"1\n-3.25e-7\n0.1\n0\n").unwrap();
    assert_eq!(t.a, tokens(&["-3.25e-7"]));
    assert_eq!(t.b, tokens(&["0.1"]));
}

#[test]
fn negative_solution_round_trip() {
    let s = SystemText { n: 2, a: tokens(&["1", "-1.5", "2", "0"]), b: tokens(&["7", "-3"]), x: vec![-30, 29] };
    let bytes = serialize_system(&s);
    assert_eq!(bytes, b"2\n1 -1.5 2 0\n7 -3\n-30 29\n".to_vec());
    let t = deserialize_system(&bytes).unwrap();
    assert_eq!(t.n, s.n);
    assert_eq!(t.a, s.a);
    assert_eq!(t.b, s.b);
    assert_eq!(t.x, s.x);
}

#[test]
fn line_count_errors() {
    assert_eq!(deserialize_system(b"").err(), Some(FormatError::LineCount));
    assert_eq!(deserialize_system(b"1\n2\n3\n").err(), Some(FormatError::LineCount));
    assert_eq!(deserialize_system(b"1\n2\n3\n4\n\n").err(), Some(FormatError::LineCount));
    assert_eq!(deserialize_system(b"1\n2\n3\n4\n5").err(), Some(FormatError::LineCount));
}

#[test]
fn dimension_errors() {
    assert_eq!(deserialize_system(b"0\n\n\n\n").err(), Some(FormatError::Dimension));
    assert_eq!(deserialize_system(b"x\n1\n1\n1\n").err(), Some(FormatError::Dimension));
    assert_eq!(deserialize_system(b" 1\n1\n1\n1\n").err(), Some(FormatError::Dimension));
    assert_eq!(
        deserialize_system(b"99999999999999999999999\n1\n1\n1\n").err(),
        Some(FormatError::Dimension)
    );
}

#[test]
fn entry_count_errors() {
    assert_eq!(deserialize_system(b"2\n1 2 3\n1 2\n1 2\n").err(), Some(FormatError::EntryCount));
    assert_eq!(deserialize_system(b"2\n1 2 3 4\n1\n1 2\n").err(), Some(FormatError::EntryCount));
    assert_eq!(deserialize_system(b"2\n1 2 3 4\n1 2\n1 2 3\n").err(), Some(FormatError::EntryCount));
    assert_eq!(
        deserialize_system(b"4294967296\n1\n1\n1\n").err(),
        Some(FormatError::EntryCount)
    );
}

#[test]
fn entry_errors() {
    assert_eq!(deserialize_system(b"2\n1  2 3\n1 2\n1 2\n").err(), Some(FormatError::EntryCount));
    assert_eq!(deserialize_system(b"1\n\n1\n1\n").err(), Some(FormatError::EntryCount));
    assert_eq!(deserialize_system(b"1\n1\n\n1\n").err(), Some(FormatError::EntryCount));
    assert_eq!(deserialize_system(b"1\n1\n1\n1.5\n").err(), Some(FormatError::Entry));
    assert_eq!(deserialize_system(b"1\n1\n1\n\n").err(), Some(FormatError::EntryCount));
    assert_eq!(deserialize_system(b"1\n1\n1\nseven\n").err(), Some(FormatError::Entry));
}

#[test]
fn runs_of_whitespace_separate_entries() {
    let t = deserialize_system(b"2\n1 2 3 4\n5  6\n7 8\n").unwrap();
    assert_eq!(t.b, tokens(&["5", "6"]));
    let t = deserialize_system(b"2\n 1\t2  3 4 \n5\t\t6\r\n\t7 8\t\n").unwrap();
    assert_eq!(t.n, 2);
    assert_eq!(t.a, tokens(&["1", "2", "3", "4"]));
    assert_eq!(t.b, tokens(&["5", "6"]));
    assert_eq!(t.x, vec![7, 8]);
}

#[test]
fn words_of_a_line() {
    assert_eq!(split_words(b"  a bc\t\td \r"), tokens(&["a", "bc", "d"]));
    assert_eq!(split_words(b""), tokens(&[]));
    assert_eq!(split_words(b" \t "), tokens(&[]));
    assert_eq!(split_words(b"x"), tokens(&["x"]));
}

fn float_text(n: usize) -> (SystemText, Vec<f64>, Vec<f64>) {
    let g = generate_random_solvable_system(n);
    let mut a = Vec::new();
    for i in 0..n {
        for j in 0..n {
            let mut v = g.a[i][j] as f64;
            if let Some(c) = g.corrections[i] {
                if c.column == j {
                    v += c.delta as f64 / g.x[j] as f64;
                }
            }
            a.push(v);
        }
    }
    let b: Vec<f64> = g.b.iter().map(|v| *v as f64).collect();
    let t = SystemText {
        n,
        a: a.iter().map(|v| v.to_string().into_bytes()).collect(),
        b: b.iter().map(|v| v.to_string().into_bytes()).collect(),
        x: g.x.clone(),
    };
    (t, a, b)
}

#[test]
fn generated_text_round_trip_is_bit_exact() {
    for n in [1usize, 2, 5, 10, 50] {
        let (t, a, b) = float_text(n);
        let back = deserialize_system(&serialize_system(&t)).unwrap();
        assert_eq!(back.n, n);
        assert_eq!(back.x, t.x);
        for (tok, v) in back.a.iter().zip(a.iter()) {
            let parsed: f64 = std::str::from_utf8(tok).unwrap().parse().unwrap();
            assert_eq!(parsed.to_bits(), v.to_bits());
        }
        for (tok, v) in back.b.iter().zip(b.iter()) {
            let parsed: f64 = std::str::from_utf8(tok).unwrap().parse().unwrap();
            assert_eq!(parsed.to_bits(), v.to_bits());
        }
    }
}
