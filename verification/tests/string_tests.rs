use algos::string::kmp::kmp;
use algos::string::prefix_function::prefix_function;
use algos::string::suffix_automaton::SuffixAutomaton;
use algos::string::trie::Trie;
use algos::string::z_function::z_function;

#[test]
fn kmp_unit() {
    let pattern = "aba";
    let text = "babac";
    assert_eq!(kmp(pattern, text), [1]);
}

#[test]
fn kmp_overlapping_and_missing() {
    assert_eq!(kmp("aa", "aaaa"), [0, 1, 2]);
    assert_eq!(kmp("abc", "ababab"), []);
    assert_eq!(kmp("longer", "no"), []);
}

#[test]
fn kmp_empty_pattern_marks_every_position() {
    assert_eq!(kmp("", "abc"), [1, 2, 3]);
}

#[test]
fn prefix_function_unit_1() {
    let string = "aaaaa";
    assert_eq!(prefix_function(string), [0, 1, 2, 3, 4]);
}

#[test]
fn prefix_function_unit_2() {
    let string = "aabaaab";
    assert_eq!(prefix_function(string), [0, 1, 0, 1, 2, 2, 3]);
}

#[test]
fn prefix_function_unit_3() {
    let string = "abcabcd";
    assert_eq!(prefix_function(string), [0, 0, 0, 1, 2, 3, 0]);
}

#[test]
fn prefix_function_empty() {
    assert_eq!(prefix_function(""), []);
}

#[test]
fn z_function_unit_1() {
    let string = "aaaaa";
    assert_eq!(z_function(string), [0, 4, 3, 2, 1]);
}

#[test]
fn z_function_unit_2() {
    let string = "aaabaab";
    assert_eq!(z_function(string), [0, 2, 1, 0, 2, 1, 0]);
}

#[test]
fn z_function_unit_3() {
    let string = "abacaba";
    assert_eq!(z_function(string), [0, 0, 1, 0, 3, 0, 1]);
}

#[test]
fn suffix_automaton_unit_1() {
    let mut sa = SuffixAutomaton::new();
    let strings = ["the", "a", "there", "answer", "any", "by", "bye", "their"];

    for string in strings {
        sa.add_string(string);
    }

    assert_eq!(sa.contains("the"), true);
    assert_eq!(sa.contains("these"), false);
    assert_eq!(sa.contains("their"), true);
    assert_eq!(sa.contains("thaw"), false);
}

#[test]
fn suffix_automaton_substrings_of_single_text() {
    let sa = SuffixAutomaton::build("abcbc");

    // every contiguous piece is contained
    let text = "abcbc";
    for i in 0..text.len() {
        for j in i..=text.len() {
            assert!(sa.contains(&text[i..j]));
        }
    }

    // sequences that are not contiguous pieces are not
    assert!(!sa.contains("ac"));
    assert!(!sa.contains("bb"));
    assert!(!sa.contains("abcbcb"));
    assert!(!sa.contains("ca"));
}

#[test]
fn suffix_automaton_empty_query_always_contained() {
    let mut sa = SuffixAutomaton::new();
    assert!(sa.contains(""));
    sa.add_string("xyz");
    assert!(sa.contains(""));
    sa.clear();
    assert!(sa.contains(""));
}

#[test]
fn suffix_automaton_clear_behaves_like_fresh() {
    let mut sa = SuffixAutomaton::build("hello");
    sa.clear();
    assert!(sa.contains(""));
    assert!(!sa.contains("h"));

    sa.add_string("world");
    let fresh = SuffixAutomaton::build("world");
    for q in ["world", "orl", "d", "w", "he", "lo", "rld", "word"] {
        assert_eq!(sa.contains(q), fresh.contains(q));
    }
}

#[test]
fn suffix_automaton_extend_matches_add_string() {
    // terminal marking is skipped entirely on one side; containment must
    // not notice
    let text = "banana";
    let built = SuffixAutomaton::build(text);
    let mut bare = SuffixAutomaton::new();
    for c in text.chars() {
        bare.add_char(c);
    }

    for q in ["banana", "anan", "nan", "ba", "na", "b", "", "bn", "aa", "nab"] {
        assert_eq!(built.contains(q), bare.contains(q));
    }
}

#[test]
fn trie_unit_1() {
    let mut trie = Trie::new();
    let strings = ["the", "a", "there", "answer", "any", "by", "bye", "their"];

    for string in strings {
        trie.add_string(string);
    }

    assert_eq!(trie.contains("the"), true);
    assert_eq!(trie.contains("these"), false);
    assert_eq!(trie.contains("their"), true);
    assert_eq!(trie.contains("thaw"), false);
}

#[test]
fn trie_prefixes_are_not_words() {
    let trie = Trie::build("there");
    assert!(trie.contains("there"));
    assert!(!trie.contains("the"));
    assert!(!trie.contains(""));
    assert!(!trie.contains("th"));
    assert!(!trie.contains("theres"));
}

#[test]
fn suffix_automaton_clone_heavy_text() {
    // repeated letters force the class-splitting path of the construction
    let text = "abcbcabcbc";
    let sa = SuffixAutomaton::build(text);
    for i in 0..text.len() {
        for j in i..=text.len() {
            assert!(sa.contains(&text[i..j]));
        }
    }
    assert!(!sa.contains("cc"));
    assert!(!sa.contains("bab"));
    assert!(!sa.contains("abcbca bcbc"));
}

#[test]
fn suffix_automaton_accumulates_across_strings() {
    let mut sa = SuffixAutomaton::new();
    sa.add_string("abc");
    assert!(sa.contains("abc"));
    assert!(sa.contains("bc"));
    sa.add_string("xyz");
    // everything contained before stays contained
    assert!(sa.contains("abc"));
    assert!(sa.contains("bc"));
    assert!(sa.contains("xyz"));
    // the texts are appended, so the seam is a substring too
    assert!(sa.contains("cx"));
    assert!(!sa.contains("za"));
}

#[test]
fn trie_stores_several_words() {
    let mut trie = Trie::new();
    trie.add_string("ab");
    trie.add_string("abc");
    trie.add_string("b");
    assert!(trie.contains("ab"));
    assert!(trie.contains("abc"));
    assert!(trie.contains("b"));
    assert!(!trie.contains("a"));
    assert!(!trie.contains("bc"));
}

#[test]
fn z_and_prefix_agree_on_single_letter() {
    assert_eq!(prefix_function("x"), [0]);
    assert_eq!(z_function("x"), [0]);
}
