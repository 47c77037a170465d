use stammer::dict::Dict;
use stammer::engine::Engine;

fn dict_lines(lines: &[&str]) -> Dict {
    let owned: Vec<String> = lines.iter().map(|s| s.to_string()).collect();
    Dict::from_lines(&owned)
}

fn toy_dict() -> Dict {
    dict_lines(&["ni 你", "shuo 说", "shen 什 深", "me 么"])
}

/// The toy model of the concrete scenarios: a tiny counter, one bigram
/// chain and one trigram.
fn toy_engine() -> Engine {
    let mut e = Engine::new();
    let ni = "你".to_string();
    let shuo = "说".to_string();
    let shen = "什".to_string();
    let me = "么".to_string();
    let shenme = "什么".to_string();
    let nishuo = "你说".to_string();
    e.counter.add(&ni, 5);
    e.counter.add(&shuo, 4);
    e.counter.add(&shen, 3);
    e.counter.add(&me, 3);
    e.counter.add(&shenme, 6);
    e.counter.add(&nishuo, 2);
    e.two_gram.add(&ni, &shuo, 2);
    e.two_gram.add(&shuo, &shenme, 3);
    e.three_gram.add(&ni, &shuo, &shenme, 2);
    e.total = 30;
    e.init_trie();
    e
}

fn segs(s: &str) -> Vec<String> {
    s.split(' ').map(|t| t.to_string()).collect()
}

#[test]
fn query_full_phrase() {
    let e = toy_engine();
    let d = toy_dict();
    assert_eq!(e.query(&segs("ni shuo shen me"), &d), "你说什么");
}

#[test]
fn query_two_syllables() {
    let e = toy_engine();
    let d = toy_dict();
    assert_eq!(e.query(&segs("ni shuo"), &d), "你说");
}

#[test]
fn query_bigram_dominates() {
    let e = toy_engine();
    let d = toy_dict();
    assert_eq!(e.query(&segs("shen me"), &d), "什么");
}

#[test]
fn query_unknown_pinyin_gives_empty() {
    let e = toy_engine();
    let d = toy_dict();
    assert_eq!(e.query(&segs("foo"), &d), "");
}

#[test]
fn query_unknown_pinyin_in_middle_gives_empty() {
    let e = toy_engine();
    let d = toy_dict();
    assert_eq!(e.query(&segs("ni foo me"), &d), "");
}

#[test]
fn query_repeated_phrase() {
    let e = toy_engine();
    let d = toy_dict();
    assert_eq!(
        e.query(&segs("ni shuo shen me ni shuo shen me"), &d),
        "你说什么你说什么"
    );
}

#[test]
fn query_empty_input_gives_empty() {
    let e = toy_engine();
    let d = toy_dict();
    let empty: Vec<String> = Vec::new();
    assert_eq!(e.query(&empty, &d), "");
}

#[test]
fn query_single_candidate_returns_it() {
    let e = toy_engine();
    let d = toy_dict();
    assert_eq!(e.query(&segs("ni"), &d), "你");
}

#[test]
fn query_is_deterministic() {
    let e = toy_engine();
    let d = toy_dict();
    let s = segs("ni shuo shen me");
    assert_eq!(e.query(&s, &d), e.query(&s, &d));
}

#[test]
fn query_length_matches_input() {
    let e = toy_engine();
    let d = toy_dict();
    let s = segs("shen shen shen");
    let out = e.query(&s, &d);
    assert_eq!(out.chars().count(), 3);
}

#[test]
fn init_trie_twice_changes_nothing() {
    let mut e1 = toy_engine();
    let e2 = toy_engine();
    e1.init_trie();
    let d = toy_dict();
    let s = segs("ni shuo shen me");
    assert_eq!(e1.query(&s, &d), e2.query(&s, &d));
}

#[test]
fn unseen_context_picks_best_unigram() {
    // No bigram or trigram mentions either candidate: the unigram counts
    // alone order them, whatever the dictionary order says.
    let mut e = Engine::new();
    e.counter.add(&"什".to_string(), 3);
    e.counter.add(&"深".to_string(), 1);
    e.init_trie();
    let d1 = dict_lines(&["shen 什 深"]);
    let d2 = dict_lines(&["shen 深 什"]);
    assert_eq!(e.query(&segs("shen"), &d1), "什");
    assert_eq!(e.query(&segs("shen"), &d2), "什");
}

#[test]
fn transfer_score_exact_value() {
    let mut e = Engine::new();
    let w = "你".to_string();
    e.counter.add(&w, 2);
    let a = String::new();
    let b = String::new();
    // (2 * 1000 + 1) + (0 * 1000 + 1) * 100 + (0 * 1000 + 1) * 1000000000
    assert_eq!(e.get_transfer_count(&a, &b, &w), 1000002101u128);
}

#[test]
fn transfer_score_uses_all_three_orders() {
    let e = toy_engine();
    let ni = "你".to_string();
    let shuo = "说".to_string();
    let shenme = "什么".to_string();
    // counter 6, bigram 3, trigram 2.
    let expected = (6u128 * 1000 + 1) + (3u128 * 1000 + 1) * 100 + (2u128 * 1000 + 1)
        * 1000000000;
    assert_eq!(e.get_transfer_count(&ni, &shuo, &shenme), expected);
}
