use viterbi_seg::{viterbi, Arena, Morpheme, Node, SegError};

fn entry(yomi: &str, text: &str, cost: usize) -> Morpheme {
    Morpheme { yomi: yomi.chars().collect(), text: text.to_string(), cost }
}

fn chars(s: &str) -> Vec<char> {
    s.chars().collect()
}

/// Minimum total cost over all coverings of `input`, by plain enumeration.
fn brute_force_min(dict: &[(&str, usize)], input: &str) -> Option<usize> {
    if input.is_empty() {
        return Some(0);
    }
    let mut best: Option<usize> = None;
    for (key, cost) in dict {
        if let Some(rest) = input.strip_prefix(key) {
            if let Some(tail) = brute_force_min(dict, rest) {
                let total = cost + tail;
                if best.map_or(true, |b| total < b) {
                    best = Some(total);
                }
            }
        }
    }
    best
}

#[test]
fn empty_input_yields_empty_segmentation() {
    let dict = vec![entry("ab", "X", 1), entry("a", "Y", 1)];
    let r = viterbi(&dict, &chars("")).unwrap();
    assert_eq!(r.texts, Vec::<String>::new());
    assert_eq!(r.total_cost, 0);
}

#[test]
fn empty_input_with_empty_dictionary() {
    let dict: Vec<Morpheme> = Vec::new();
    let r = viterbi(&dict, &chars("")).unwrap();
    assert_eq!(r.texts, Vec::<String>::new());
    assert_eq!(r.total_cost, 0);
}

#[test]
fn unmatched_first_symbol_fails() {
    let dict = vec![entry("a", "A", 1)];
    let r = viterbi(&dict, &chars("ba"));
    assert_eq!(r, Err(SegError::NoSegmentation));
}

#[test]
fn unmatched_middle_symbol_fails() {
    let dict = vec![entry("a", "A", 1), entry("c", "C", 1)];
    let r = viterbi(&dict, &chars("abc"));
    assert_eq!(r, Err(SegError::NoSegmentation));
}

#[test]
fn min_cost_path_beats_longer_decomposition() {
    let dict = vec![entry("ab", "X", 1), entry("a", "Y", 1), entry("b", "Z", 1)];
    let r = viterbi(&dict, &chars("ab")).unwrap();
    assert_eq!(r.texts, vec!["X".to_string()]);
    assert_eq!(r.total_cost, 1);
}

#[test]
fn tie_is_resolved_deterministically() {
    let dict = vec![entry("a", "P", 5), entry("a", "Q", 5)];
    let first = viterbi(&dict, &chars("a")).unwrap();
    let second = viterbi(&dict, &chars("a")).unwrap();
    assert_eq!(first, second);
    assert_eq!(first.total_cost, 5);
    assert_eq!(first.texts.len(), 1);
    assert!(first.texts[0] == "P" || first.texts[0] == "Q");
}

#[test]
fn no_match_at_all_fails() {
    let dict = vec![entry("x", "X", 1)];
    let r = viterbi(&dict, &chars("y"));
    assert_eq!(r, Err(SegError::NoSegmentation));
}

#[test]
fn empty_pronunciation_key_is_rejected() {
    let dict = vec![entry("a", "A", 1), entry("", "void", 0)];
    let r = viterbi(&dict, &chars("a"));
    assert_eq!(r, Err(SegError::InvalidDictionaryEntry));
}

#[test]
fn repeated_calls_agree() {
    let dict = vec![
        entry("a", "A", 2),
        entry("aa", "B", 3),
        entry("aaa", "C", 4),
        entry("aa", "D", 3),
    ];
    let input = chars("aaaaaa");
    let first = viterbi(&dict, &input);
    let second = viterbi(&dict, &input);
    assert_eq!(first, second);
}

#[test]
fn matches_brute_force_on_small_inputs() {
    let pairs = vec![("a", 2usize), ("aa", 3), ("aaa", 7), ("b", 1), ("ab", 2)];
    let dict: Vec<Morpheme> = pairs
        .iter()
        .enumerate()
        .map(|(n, (key, cost))| entry(key, &format!("t{}", n), *cost))
        .collect();
    for input in ["", "a", "b", "ab", "aab", "aaab", "aaaaa", "abab", "ba", "bbbb"] {
        let expected = brute_force_min(&pairs, input);
        match viterbi(&dict, &chars(input)) {
            Ok(seg) => assert_eq!(Some(seg.total_cost as usize), expected, "input {}", input),
            Err(e) => {
                assert_eq!(e, SegError::NoSegmentation);
                assert_eq!(expected, None, "input {}", input);
            }
        }
    }
}

#[test]
fn consumed_keys_cover_the_input_exactly() {
    let dict = vec![
        entry("ab", "0", 4),
        entry("abc", "1", 9),
        entry("c", "2", 2),
        entry("bc", "3", 1),
        entry("a", "4", 2),
    ];
    let input = "abcabc";
    let r = viterbi(&dict, &chars(input)).unwrap();
    let keys = ["ab", "abc", "c", "bc", "a"];
    let mut covered = String::new();
    let mut total = 0usize;
    for t in &r.texts {
        let n: usize = t.parse().unwrap();
        covered.push_str(keys[n]);
        total += dict[n].cost;
    }
    assert_eq!(covered, input);
    assert_eq!(total as u128, r.total_cost);
}

#[test]
fn greedy_longest_match_is_not_followed_blindly() {
    let dict = vec![entry("aa", "L", 1), entry("a", "S", 3), entry("ab", "T", 1)];
    let r = viterbi(&dict, &chars("aab")).unwrap();
    assert_eq!(r.texts, vec!["S".to_string(), "T".to_string()]);
    assert_eq!(r.total_cost, 4);
}

#[test]
fn key_running_past_the_end_is_rejected() {
    let dict = vec![entry("abc", "X", 1)];
    let r = viterbi(&dict, &chars("ab"));
    assert_eq!(r, Err(SegError::NoSegmentation));
}

#[test]
fn sample_reading_is_segmented() {
    let dict = vec![
        entry("みず", "水", 20),
        entry("み", "身", 25),
        entry("さいかい", "再開", 30),
        entry("さいかい", "最下位", 20),
        entry("さいかい", "再会", 10),
        entry("よろこぶ", "喜ぶ", 15),
        entry("みずから", "自ら", 25),
        entry("か", "か", 20),
        entry("から", "から", 10),
        entry("を", "を", 10),
    ];
    let r = viterbi(&dict, &chars("みずからさいかいをよろこぶ")).unwrap();
    assert_eq!(r.texts, vec!["自ら", "再会", "を", "喜ぶ"]);
    assert_eq!(r.total_cost, 60);
}

#[test]
fn arena_hands_out_consecutive_identities() {
    let mut arena = Arena::new();
    assert_eq!(arena.next_id, 0);
    let a = Node::new(&mut arena, 0, 0, None, "start".to_string());
    let b = Node::new(&mut arena, 0, 7, Some(0), "next".to_string());
    assert_eq!(a.id, 0);
    assert_eq!(b.id, 1);
    assert_eq!(arena.next_id, 2);
    assert_eq!(b.start, 0);
    assert_eq!(b.cost, 7);
    assert_eq!(b.prev, Some(0));
    assert_eq!(b.text, "next");
}
