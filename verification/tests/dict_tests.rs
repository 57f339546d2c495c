use cn_input_encode::dict::{distinct_and_record, new_code_set, parse_entries, rank_entries, DictError, Entry, TrieDict};
use cn_input_encode::cost::CostModel;


struct Uniform;

impl CostModel for Uniform {
    type Cost = f64;
    fn spec_pair(&self, a: char, b: char) -> f64 {
        self.pair(a, b)
    }
    fn spec_zero(&self) -> f64 {
        self.zero()
    }
    fn spec_infinity(&self) -> f64 {
        self.infinity()
    }
    fn spec_add(&self, a: f64, b: f64) -> f64 {
        self.add(a, b)
    }
    fn spec_less(&self, a: f64, b: f64) -> bool {
        self.less(a, b)
    }
    fn spec_total_less(&self, a: f64, b: f64) -> bool {
        self.total_less(a, b)
    }
    fn pair(&self, _a: char, _b: char) -> f64 {
        1.0
    }
    fn zero(&self) -> f64 {
        0.0
    }
    fn infinity(&self) -> f64 {
        f64::INFINITY
    }
    fn add(&self, a: f64, b: f64) -> f64 {
        a + b
    }
    fn less(&self, a: f64, b: f64) -> bool {
        a < b
    }
    fn total_less(&self, a: f64, b: f64) -> bool {
        a.total_cmp(&b).is_lt()
    }
}

fn view(e: &Entry) -> (String, String, Option<(String, bool)>) {
    (
        e.word.clone(),
        e.code.clone(),
        e.weight.as_ref().map(|w| (w.number.clone(), w.percent)),
    )
}

fn entry(word: &str, code: &str) -> Entry {
    Entry { word: word.to_string(), code: code.to_string(), weight: None }
}

#[test]
fn parse_entries_reads_columns() {
    let text = "中国\tzg\t5\n# note\n\n  人\tr  \n bad \nx\t\t3\n\ty\na\tb\t3%\nc\td\te\tf\ng\th\t\n";
    let es: Vec<_> = parse_entries(text).unwrap().iter().map(view).collect();
    assert_eq!(
        es,
        vec![
            ("中国".to_string(), "zg".to_string(), Some(("5".to_string(), false))),
            ("人".to_string(), "r".to_string(), None),
            ("a".to_string(), "b".to_string(), Some(("3".to_string(), true))),
            ("c".to_string(), "d".to_string(), Some(("e".to_string(), false))),
            ("g".to_string(), "h".to_string(), None),
        ]
    );
}

#[test]
fn parse_entries_handles_crlf_and_bare_percent() {
    let es: Vec<_> = parse_entries("a\tb\t%\r\nc\td\r\n").unwrap().iter().map(view).collect();
    assert_eq!(
        es,
        vec![
            ("a".to_string(), "b".to_string(), Some((String::new(), true))),
            ("c".to_string(), "d".to_string(), None),
        ]
    );
}

#[test]
fn parse_entries_without_entries_is_refused() {
    assert_eq!(parse_entries("").err(), Some(DictError::NoEntries));
    assert_eq!(parse_entries("# only\n\n \t \nword\n").err(), Some(DictError::NoEntries));
}

#[test]
fn distinct_codes_follow_the_trial_order() {
    let mut taken = new_code_set();
    let mut got = Vec::new();
    for _ in 0..12 {
        got.push(distinct_and_record("a", &mut taken));
    }
    assert_eq!(
        got,
        vec!["a", "a2", "a3", "a4", "a5", "a6", "a7", "a8", "a9", "a=", "a=2", "a=3"]
    );
    assert_eq!(taken.len(), 12);
    assert!(taken.contains("a=3"));
}

#[test]
fn distinct_code_skips_taken_candidates() {
    let mut taken = new_code_set();
    assert_eq!(distinct_and_record("ab2", &mut taken), "ab2");
    assert_eq!(distinct_and_record("ab", &mut taken), "ab");
    assert_eq!(distinct_and_record("ab", &mut taken), "ab3");
    assert_eq!(distinct_and_record("ab3", &mut taken), "ab32");
    assert_eq!(distinct_and_record("x", &mut taken), "x");
}

#[test]
fn rank_entries_is_a_stable_descending_sort() {
    let es = vec![entry("a", "1"), entry("b", "2"), entry("c", "3"), entry("d", "4")];
    let ranked: Vec<_> = rank_entries(&es, &[1, 5, 5, -2]).iter().map(|e| e.word.clone()).collect();
    assert_eq!(ranked, vec!["b", "c", "a", "d"]);
    let none: Vec<Entry> = rank_entries(&[], &[]);
    assert!(none.is_empty());
}

fn sample_dict() -> TrieDict<f64> {
    let es = vec![entry("中国", "zg"), entry("中", "z"), entry("国", "g"), entry("钟", "z")];
    TrieDict::new(&es, &Uniform)
}

fn chars(s: &str) -> Vec<char> {
    s.chars().collect()
}

#[test]
fn dict_heads_follow_the_text() {
    let d = sample_dict();
    let text = chars("中国人");
    let (heads, cut) = d.heads(&text, 0);
    assert_eq!(heads.len(), 2);
    assert!(!cut);
    // 中 has the codes z and z2 is for 钟
    let n = heads[0];
    assert_eq!(d.info_count(n), 1);
    assert_eq!(d.info(n, 0).code, "z");
    let m = heads[1];
    assert_eq!(d.info_count(m), 1);
    assert_eq!(d.info(m, 0).code, "zg");
    assert_eq!(d.info(m, 0).cost, 1.0);
    assert_eq!(d.info(m, 0).first, 'z');
    assert_eq!(d.info(m, 0).last, 'g');
    let (heads, cut) = d.heads(&text, 2);
    assert!(heads.is_empty());
    assert!(!cut);
}

#[test]
fn dict_heads_report_words_cut_at_the_end() {
    let d = sample_dict();
    let (heads, cut) = d.heads(&chars("中"), 0);
    assert_eq!(heads.len(), 1);
    assert!(cut);
    let (heads, cut) = d.heads(&chars("国"), 0);
    assert_eq!(heads.len(), 1);
    assert!(!cut);
    let (heads, cut) = d.heads(&chars("x"), 1);
    assert!(heads.is_empty());
    assert!(cut);
}

#[test]
fn dict_registers_duplicate_codes() {
    let d = sample_dict();
    let (heads, _) = d.heads(&chars("钟"), 0);
    assert_eq!(d.info(heads[0], 0).code, "z2");
    assert_eq!(d.info(heads[0], 0).last, '2');
}

#[test]
fn dict_keeps_every_code_of_a_word_in_order() {
    let es = vec![entry("a", "x"), entry("b", "y"), entry("a", "q"), entry("a", "x")];
    let d: TrieDict<f64> = TrieDict::new(&es, &Uniform);
    let (heads, _) = d.heads(&chars("a"), 0);
    let n = heads[0];
    let codes: Vec<_> = (0..d.info_count(n)).map(|t| d.info(n, t).code.clone()).collect();
    assert_eq!(codes, vec!["x", "q", "x2"]);
}

#[test]
fn dict_space_rule_follows_the_code_trie() {
    let d = sample_dict();
    let (heads, _) = d.heads(&chars("中"), 0);
    let z = d.info(heads[0], 0).c_node;
    // after z, typing g would begin the code zg
    assert!(d.need_space(z, 'g'));
    // after z, typing 2 would begin the code z2
    assert!(d.need_space(z, '2'));
    assert!(!d.need_space(z, 'r'));
    let (heads, _) = d.heads(&chars("中国"), 0);
    let zg = d.info(heads[1], 0).c_node;
    assert!(!d.need_space(zg, 'z'));
}

#[test]
fn dict_codes_are_pairwise_distinct() {
    let mut es = Vec::new();
    for i in 0..25 {
        es.push(entry(&format!("w{i}"), "ab"));
        es.push(entry(&format!("v{i}"), "ab="));
    }
    let d: TrieDict<f64> = TrieDict::new(&es, &Uniform);
    let mut codes = Vec::new();
    for e in &es {
        let w = chars(&e.word);
        let (heads, _) = d.heads(&w, 0);
        let n = heads[w.len() - 1];
        for t in 0..d.info_count(n) {
            codes.push(d.info(n, t).code.clone());
        }
    }
    assert_eq!(codes.len(), 50);
    let mut sorted = codes.clone();
    sorted.sort();
    sorted.dedup();
    assert_eq!(sorted.len(), 50);
    assert_eq!(codes[0], "ab");
    assert_eq!(codes[1], "ab=");
    assert_eq!(codes[2], "ab2");
    assert_eq!(codes[3], "ab=2");
}
