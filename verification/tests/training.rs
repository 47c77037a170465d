use stammer::store::TrainingStore;

fn s(x: &str) -> String {
    x.to_string()
}

#[test]
fn add_tuple_discards_window_without_current_word() {
    let mut st = TrainingStore::new();
    let a = s("甲");
    let b = s("乙");
    st.add_tuple(Some(&a), Some(&b), None);
    let empty = String::new();
    st.add_tuple(Some(&a), Some(&b), Some(&empty));
    let e = st.extract(10);
    assert_eq!(e.total, 0);
}

#[test]
fn add_tuple_drops_context_without_predecessor() {
    let mut st = TrainingStore::new();
    let a = s("甲");
    let c = s("丙");
    // No immediate predecessor: the older context word is dropped too.
    st.add_tuple(Some(&a), None, Some(&c));
    let e = st.extract(10);
    let empty = s("");
    let t2 = e.three_gram.get(&empty).expect("sentinel first slot");
    let row = t2.get(&empty).expect("sentinel second slot");
    assert_eq!(row.get(&c), 1);
    assert_eq!(e.total, 1);
}

#[test]
fn extract_counts_middle_word_and_total() {
    let mut st = TrainingStore::new();
    let a = s("你");
    let b = s("说");
    let c = s("什么");
    st.add_tuple(Some(&a), Some(&b), Some(&c));
    st.add_tuple(Some(&a), Some(&b), Some(&c));
    let e = st.extract(10);
    // three_gram[你][说][什么] = 2; bigram and counter follow the rollup.
    let row2 = e.three_gram.get(&a).unwrap().get(&b).unwrap();
    assert_eq!(row2.get(&c), 2);
    let brow = e.two_gram.get(&b).unwrap();
    assert_eq!(brow.get(&c), 2);
    // The counter tallies the middle word, not the predicted word.
    assert_eq!(e.counter.get(&b), 2);
    assert_eq!(e.counter.get(&c), 0);
    assert_eq!(e.total, 2);
}

#[test]
fn extract_total_is_sum_of_counter_values() {
    let mut st = TrainingStore::new();
    let words = ["你", "说", "什么", "你", "说"];
    let owned: Vec<String> = words.iter().map(|w| w.to_string()).collect();
    let allowed: Vec<char> = "你说什么".chars().collect();
    st.ingest(&allowed, &owned);
    let e = st.extract(100);
    // One tuple per window shift.
    assert_eq!(e.total, 5);
    let keys = ["", "你", "说", "什么"];
    let mut sum = 0u64;
    for k in keys.iter() {
        sum += e.counter.get(&k.to_string());
    }
    assert_eq!(sum, e.total);
}

#[test]
fn extract_sieve_keeps_most_frequent() {
    let mut st = TrainingStore::new();
    let b = s("乙");
    let keys = ["一", "二", "三", "四"];
    let counts = [5u32, 1, 3, 2];
    for (k, n) in keys.iter().zip(counts.iter()) {
        let kw = s(k);
        for _ in 0..*n {
            st.add_tuple(Some(&kw), Some(&b), Some(&kw));
        }
    }
    let e = st.extract(2);
    // Only the two most frequent tuples (counts 5 and 3) survive.
    assert_eq!(e.total, 8);
    let one = s("一");
    let three = s("三");
    let two = s("二");
    assert_eq!(e.three_gram.get(&one).unwrap().get(&b).unwrap().get(&one), 5);
    assert_eq!(e.three_gram.get(&three).unwrap().get(&b).unwrap().get(&three), 3);
    assert!(e.three_gram.get(&two).is_none());
}

#[test]
fn ingest_filters_words_outside_allowlist() {
    let mut st = TrainingStore::new();
    let words = ["好", "x7", "好"];
    let owned: Vec<String> = words.iter().map(|w| w.to_string()).collect();
    let allowed: Vec<char> = "好".chars().collect();
    st.ingest(&allowed, &owned);
    let e = st.extract(100);
    // Windows: (ε,ε,好), (ε,好,ε) discarded, (好,ε,好) -> context dropped.
    assert_eq!(e.total, 2);
    let empty = s("");
    let hao = s("好");
    assert_eq!(
        e.three_gram.get(&empty).unwrap().get(&empty).unwrap().get(&hao),
        2
    );
}

#[test]
fn ingest_window_spans_three_words() {
    let mut st = TrainingStore::new();
    let words = ["甲", "乙", "丙"];
    let owned: Vec<String> = words.iter().map(|w| w.to_string()).collect();
    let allowed: Vec<char> = "甲乙丙".chars().collect();
    st.ingest(&allowed, &owned);
    let e = st.extract(100);
    let (a, b, c) = (s("甲"), s("乙"), s("丙"));
    assert_eq!(e.three_gram.get(&a).unwrap().get(&b).unwrap().get(&c), 1);
}
