use stammer::codec::{parse, serialize};
use stammer::engine::Engine;

fn small_engine() -> Engine {
    let mut e = Engine::new();
    let ni = "你".to_string();
    let shuo = "说".to_string();
    let shenme = "什么".to_string();
    e.counter.add(&ni, 5);
    e.counter.add(&shenme, 6);
    e.two_gram.add(&ni, &shuo, 2);
    e.three_gram.add(&ni, &shuo, &shenme, 2);
    e.total = 15;
    e
}

#[test]
fn round_trip_preserves_the_document() {
    let e = small_engine();
    let doc = serialize(&e);
    let e2 = parse(&doc).expect("a written document reads back");
    let doc2 = serialize(&e2);
    assert_eq!(doc, doc2);
}

#[test]
fn round_trip_preserves_the_tables() {
    let e = small_engine();
    let e2 = parse(&serialize(&e)).expect("a written document reads back");
    assert_eq!(e2.total, 15);
    let ni = "你".to_string();
    let shuo = "说".to_string();
    let shenme = "什么".to_string();
    assert_eq!(e2.counter.get(&ni), 5);
    assert_eq!(e2.counter.get(&shenme), 6);
    assert_eq!(e2.two_gram.get(&ni).unwrap().get(&shuo), 2);
    assert_eq!(
        e2.three_gram.get(&ni).unwrap().get(&shuo).unwrap().get(&shenme),
        2
    );
}

#[test]
fn round_trip_decodes_identically() {
    let mut e = small_engine();
    e.init_trie();
    let mut e2 = parse(&serialize(&e)).expect("a written document reads back");
    e2.init_trie();
    let lines: Vec<String> = vec!["ni 你".to_string(), "shuo 说".to_string()];
    let d = stammer::dict::Dict::from_lines(&lines);
    let segs: Vec<String> = vec!["ni".to_string(), "shuo".to_string()];
    assert_eq!(e.query(&segs, &d), e2.query(&segs, &d));
}

#[test]
fn empty_engine_round_trips() {
    let e = Engine::new();
    let doc = serialize(&e);
    let e2 = parse(&doc).expect("an empty model reads back");
    assert_eq!(e2.total, 0);
    assert_eq!(serialize(&e2), doc);
}

#[test]
fn malformed_documents_are_rejected() {
    assert!(parse("").is_none());
    assert!(parse("abc").is_none());
    assert!(parse("3;").is_none());
    // A well-formed document with trailing text is rejected too.
    let doc = serialize(&Engine::new());
    let mut longer = doc.clone();
    longer.push('x');
    assert!(parse(&longer).is_none());
}
