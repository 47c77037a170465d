use stammer::dict::Dict;
use stammer::engine::Engine;
use stammer::trie::Trie;

fn lines(ls: &[&str]) -> Vec<String> {
    ls.iter().map(|s| s.to_string()).collect()
}

#[test]
fn from_lines_keys_and_candidates() {
    let d = Dict::from_lines(&lines(&["ma 妈 马", "ba 爸"]));
    let ma = "ma".to_string();
    let ba = "ba".to_string();
    let got = d.query(&ma).expect("ma is known");
    assert_eq!(*got, vec!['妈', '马']);
    let got = d.query(&ba).expect("ba is known");
    assert_eq!(*got, vec!['爸']);
    assert!(d.query(&"xx".to_string()).is_none());
}

#[test]
fn from_lines_merges_repeated_keys_without_duplicates() {
    let d = Dict::from_lines(&lines(&["ma 妈", "ma 马 妈"]));
    let ma = "ma".to_string();
    let got = d.query(&ma).unwrap();
    assert_eq!(*got, vec!['妈', '马']);
}

#[test]
fn from_lines_takes_first_character_of_each_token() {
    let d = Dict::from_lines(&lines(&["yi 一个"]));
    let yi = "yi".to_string();
    assert_eq!(*d.query(&yi).unwrap(), vec!['一']);
}

#[test]
fn from_lines_skips_empty_candidate_tokens() {
    // A doubled space yields an empty token; it names no character.
    let d = Dict::from_lines(&lines(&["ma  妈"]));
    let ma = "ma".to_string();
    assert_eq!(*d.query(&ma).unwrap(), vec!['妈']);
}

#[test]
fn trie_paths_are_prefix_closed() {
    let mut t = Trie::new();
    let word: Vec<char> = vec!['好', '你'];
    t.insert_path(&word, 0);
    assert!(t.contains_path(&vec!['好']));
    assert!(t.contains_path(&vec!['好', '你']));
    assert!(!t.contains_path(&vec!['你']));
    assert!(t.contains_path(&Vec::new()));
}

fn engine_with_words(words: &[&str]) -> Engine {
    let mut e = Engine::new();
    for w in words {
        e.counter.add(&w.to_string(), 1);
    }
    e.init_trie();
    e
}

#[test]
fn build_words_single_syllable_skips_trie() {
    // Neither character is a known word, yet both come back for a
    // one-syllable window.
    let e = engine_with_words(&["好"]);
    let d = Dict::from_lines(&lines(&["shen 什 深"]));
    let segs = vec!["shen".to_string()];
    let got = e.query(&segs, &d);
    assert_eq!(got.chars().count(), 1);
    let words = d.build_words(&segs, 0, 1, &e.trie);
    assert_eq!(words, vec!["什".to_string(), "深".to_string()]);
}

#[test]
fn build_words_filters_by_reverse_trie() {
    let e = engine_with_words(&["什么", "你好"]);
    let d = Dict::from_lines(&lines(&["shen 什 深", "me 么"]));
    let segs = vec!["shen".to_string(), "me".to_string()];
    let words = d.build_words(&segs, 0, 2, &e.trie);
    // 深么 is pronounceable but unknown to the model; only 什么 survives.
    assert_eq!(words, vec!["什么".to_string()]);
}

#[test]
fn build_words_empty_when_any_syllable_unknown() {
    let e = engine_with_words(&["什么"]);
    let d = Dict::from_lines(&lines(&["shen 什 深", "me 么"]));
    let segs = vec!["shen".to_string(), "xx".to_string()];
    assert_eq!(d.build_words(&segs, 0, 2, &e.trie), Vec::<String>::new());
    let segs2 = vec!["xx".to_string(), "me".to_string()];
    assert_eq!(d.build_words(&segs2, 0, 2, &e.trie), Vec::<String>::new());
}

#[test]
fn lazily_rebuilt_trie_matches_eager_one() {
    // The trie depends on the counter's words alone: a model rebuilt
    // from the same counter decodes identically.
    let e1 = engine_with_words(&["什么", "什", "么"]);
    let mut e2 = Engine::new();
    let words = ["什么", "什", "么"];
    for w in words.iter() {
        e2.counter.add(&w.to_string(), 1);
    }
    e2.init_trie();
    let d = Dict::from_lines(&lines(&["shen 什", "me 么"]));
    let segs = vec!["shen".to_string(), "me".to_string()];
    assert_eq!(
        d.build_words(&segs, 0, 2, &e1.trie),
        d.build_words(&segs, 0, 2, &e2.trie)
    );
    assert_eq!(e1.query(&segs, &d), e2.query(&segs, &d));
}

#[test]
fn raw_to_string_unwraps_both_variants() {
    let w = stammer::Raw::Weibo { html: "正文".to_string() };
    assert_eq!(w.to_string(), "正文");
    let p = stammer::Raw::Plain("一行".to_string());
    assert_eq!(p.to_string(), "一行");
}
