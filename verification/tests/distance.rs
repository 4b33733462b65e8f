use word_distance::NotFoundError;
use word_distance::Solution;

fn words(items: &[&str]) -> Vec<String> {
    items.iter().map(|s| String::from(*s)).collect()
}

/// Minimum |i - j| over the full cross product of the two words' occurrence
/// positions, by exhaustive comparison.
fn brute_force(seq: &[&str], w1: &str, w2: &str) -> Option<usize> {
    if !seq.contains(&w1) || !seq.contains(&w2) {
        return None;
    }
    let mut best: Option<usize> = None;
    for (i, a) in seq.iter().enumerate() {
        if *a != w1 {
            continue;
        }
        for (j, b) in seq.iter().enumerate() {
            if *b != w2 {
                continue;
            }
            let d = if i >= j { i - j } else { j - i };
            best = match best {
                Some(m) if m <= d => Some(m),
                _ => Some(d),
            };
        }
    }
    best
}

#[test]
fn test_1() {
    let sn = Solution::from(&Solution::test_fixrure());
    let dist = sn
        .shortest(&String::from("practice"), &String::from("coding"))
        .unwrap();
    assert_eq!(dist, 3);
}

#[test]
fn test_2() {
    let sn = Solution::from(&Solution::test_fixrure());
    let dist = sn
        .shortest(&String::from("coding"), &String::from("makes"))
        .unwrap();
    assert_eq!(dist, 1);
}

#[test]
fn fixture_holds_the_example_sequence() {
    let fixture = Solution::test_fixrure();
    let expected = words(&["practice", "makes", "perfect", "coding", "makes"]);
    assert_eq!(fixture, expected);
}

#[test]
fn alternating_words_lie_one_apart() {
    let sn = Solution::from(&words(&["a", "b", "a", "b", "a"]));
    assert_eq!(sn.shortest(&String::from("a"), &String::from("b")), Ok(1));
    assert_eq!(sn.shortest(&String::from("b"), &String::from("a")), Ok(1));
}

#[test]
fn absent_word_is_not_found() {
    let sn = Solution::from(&words(&["x"]));
    assert_eq!(
        sn.shortest(&String::from("x"), &String::from("y")),
        Err(NotFoundError)
    );
    assert_eq!(
        sn.shortest(&String::from("y"), &String::from("x")),
        Err(NotFoundError)
    );
    assert_eq!(
        sn.shortest(&String::from("y"), &String::from("z")),
        Err(NotFoundError)
    );
}

#[test]
fn empty_sequence_finds_nothing() {
    let sn = Solution::from(&words(&[]));
    assert_eq!(
        sn.shortest(&String::from("practice"), &String::from("coding")),
        Err(NotFoundError)
    );
    assert_eq!(
        sn.shortest(&String::from("a"), &String::from("a")),
        Err(NotFoundError)
    );
}

#[test]
fn queries_are_symmetric() {
    let seq = ["practice", "makes", "perfect", "coding", "makes"];
    let sn = Solution::from(&words(&seq));
    for w1 in seq.iter() {
        for w2 in seq.iter() {
            assert_eq!(
                sn.shortest(&String::from(*w1), &String::from(*w2)),
                sn.shortest(&String::from(*w2), &String::from(*w1))
            );
        }
    }
}

#[test]
fn present_word_against_itself_is_zero() {
    let sn = Solution::from(&Solution::test_fixrure());
    assert_eq!(
        sn.shortest(&String::from("makes"), &String::from("makes")),
        Ok(0)
    );
    assert_eq!(
        sn.shortest(&String::from("practice"), &String::from("practice")),
        Ok(0)
    );
    let single = Solution::from(&words(&["x"]));
    assert_eq!(single.shortest(&String::from("x"), &String::from("x")), Ok(0));
}

#[test]
fn distance_never_exceeds_length_minus_one() {
    let seq = ["edge", "b", "c", "d", "e", "f", "edge2"];
    let sn = Solution::from(&words(&seq));
    let d = sn
        .shortest(&String::from("edge"), &String::from("edge2"))
        .unwrap();
    assert_eq!(d, seq.len() - 1);
    for w1 in seq.iter() {
        for w2 in seq.iter() {
            let d = sn
                .shortest(&String::from(*w1), &String::from(*w2))
                .unwrap();
            assert!(d <= seq.len() - 1);
        }
    }
}

#[test]
fn merge_matches_brute_force() {
    let sequences: [&[&str]; 6] = [
        &["practice", "makes", "perfect", "coding", "makes"],
        &["a", "b", "a", "b", "a"],
        &["x"],
        &[],
        &["q", "q", "r", "q", "s", "r", "r", "q"],
        &["one", "two", "three", "two", "one", "four", "one"],
    ];
    let queries = [
        "practice", "makes", "coding", "a", "b", "x", "q", "r", "s", "one", "two", "three",
        "four", "missing",
    ];
    for seq in sequences.iter() {
        let sn = Solution::from(&words(seq));
        for w1 in queries.iter() {
            for w2 in queries.iter() {
                let got = sn.shortest(&String::from(*w1), &String::from(*w2)).ok();
                let expected = brute_force(seq, w1, w2);
                assert_eq!(got, expected, "sequence {:?}, words {} and {}", seq, w1, w2);
            }
        }
    }
}
