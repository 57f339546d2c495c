use cn_input_encode::cost::CostModel;
use cn_input_encode::dict::{Entry, TrieDict};
use cn_input_encode::encoder::Encoder;
use std::collections::HashMap;

/// Pair costs from a table, the mean of the table for other pairs.
struct Table {
    pairs: HashMap<(char, char), f64>,
    mean: f64,
}

impl Table {
    fn uniform() -> Table {
        Table { pairs: HashMap::new(), mean: 1.0 }
    }
}

impl CostModel for Table {
    type Cost = f64;
    fn spec_pair(&self, a: char, b: char) -> f64 {
        self.pair(a, b)
    }
    fn spec_zero(&self) -> f64 {
        self.zero()
    }
    fn spec_infinity(&self) -> f64 {
        self.infinity()
    }
    fn spec_add(&self, a: f64, b: f64) -> f64 {
        self.add(a, b)
    }
    fn spec_less(&self, a: f64, b: f64) -> bool {
        self.less(a, b)
    }
    fn spec_total_less(&self, a: f64, b: f64) -> bool {
        self.total_less(a, b)
    }
    fn pair(&self, a: char, b: char) -> f64 {
        *self.pairs.get(&(a, b)).unwrap_or(&self.mean)
    }
    fn zero(&self) -> f64 {
        0.0
    }
    fn infinity(&self) -> f64 {
        f64::INFINITY
    }
    fn add(&self, a: f64, b: f64) -> f64 {
        a + b
    }
    fn less(&self, a: f64, b: f64) -> bool {
        a < b
    }
    fn total_less(&self, a: f64, b: f64) -> bool {
        a.total_cmp(&b).is_lt()
    }
}

fn dict(pairs: &[(&str, &str)], model: &Table) -> TrieDict<f64> {
    let es: Vec<Entry> = pairs
        .iter()
        .map(|(w, c)| Entry { word: w.to_string(), code: c.to_string(), weight: None })
        .collect();
    TrieDict::new(&es, model)
}

/// Encodes `chunks` one after another, as the program does with a file, and
/// returns the encoding and its cost.
fn encode(d: &TrieDict<f64>, model: &Table, chunks: &[&str]) -> (String, f64) {
    let mut e = Encoder::new(d, model);
    e.prepare(model);
    let mut out = String::new();
    for c in chunks {
        e.shrink();
        e.feed(c);
        e.proc_chunk(model, true);
        out.push_str(&e.build_encoding());
    }
    e.shrink();
    e.proc_chunk(model, false);
    let cost = e.proc_end(model);
    out.push_str(&e.build_encoding());
    (out, cost)
}

/// Encodes the whole text at once.
fn encode_whole(d: &TrieDict<f64>, model: &Table, text: &str) -> (String, f64) {
    let mut e = Encoder::new(d, model);
    e.feed(text);
    e.proc_chunk(model, false);
    let cost = e.proc_end(model);
    (e.build_encoding(), cost)
}

#[test]
fn encoder_prefers_the_cheaper_split() {
    let m = Table::uniform();
    let d = dict(&[("中国", "zg"), ("中", "z"), ("国", "g"), ("人", "r")], &m);
    let (out, cost) = encode_whole(&d, &m, "中国人");
    assert_eq!(out, "zgr ");
    // zg: 1, g to r: 1, r to the closing space: 1
    assert_eq!(cost, 3.0);
    // every typing passes through the end of the chunk: it is settled and
    // written before the text ends, and the closing space follows at the end
    let (out, cost) = encode(&d, &m, &["中国人"]);
    assert_eq!(out, "zgr ");
    assert_eq!(cost, 3.0);
}

#[test]
fn encoder_puts_a_space_where_a_code_would_go_on() {
    let m = Table::uniform();
    let d = dict(&[("中", "z"), ("国", "g"), ("钟", "zg")], &m);
    let (out, cost) = encode_whole(&d, &m, "中国");
    assert_eq!(out, "z g ");
    // z to space, space to g, g to the closing space
    assert_eq!(cost, 3.0);
    let (out, _) = encode(&d, &m, &["中国"]);
    assert_eq!(out, "z g ");
}

#[test]
fn encoder_types_unknown_characters_as_they_are() {
    let m = Table::uniform();
    let d = dict(&[("中", "z"), ("国", "g")], &m);
    let (out, _) = encode_whole(&d, &m, "中x国");
    assert_eq!(out, "zxg ");
    let (out, _) = encode(&d, &m, &["中x国"]);
    assert_eq!(out, "zxg ");
    let (out, cost) = encode(&d, &m, &["x"]);
    assert_eq!(out, "x");
    assert_eq!(cost, 0.0);
}

#[test]
fn encoder_no_closing_space_after_a_digit() {
    let m = Table::uniform();
    let d = dict(&[("中", "z"), ("钟", "z")], &m);
    let (out, _) = encode(&d, &m, &["钟"]);
    assert_eq!(out, "z2");
    let (out, _) = encode(&d, &m, &["中钟"]);
    assert_eq!(out, "zz2");
}

#[test]
fn encoder_follows_the_cost_table() {
    let mut m = Table::uniform();
    // typing g right after z is very slow
    m.pairs.insert(('z', 'g'), 10.0);
    let d = dict(&[("中国", "zg"), ("中", "z"), ("国", "x")], &m);
    let (out, cost) = encode(&d, &m, &["中国"]);
    assert_eq!(out, "zx ");
    assert_eq!(cost, 2.0);
}

#[test]
fn encoder_across_chunks_matches_whole_text() {
    let m = Table::uniform();
    let d = dict(&[("中国", "zg"), ("中", "z"), ("国", "g"), ("人", "r"), ("国人", "gr")], &m);
    let whole = encode(&d, &m, &["中国人中国"]);
    let cut = encode(&d, &m, &["中", "国人", "中", "", "国"]);
    assert_eq!(whole, cut);
    assert_eq!(whole.0, "zgrzg ");
}

#[test]
fn encoder_empty_text() {
    let m = Table::uniform();
    let d = dict(&[("中", "z")], &m);
    let (out, cost) = encode(&d, &m, &[]);
    assert_eq!(out, "");
    assert_eq!(cost, 0.0);
}

#[test]
fn encoder_chunked_word_gets_its_closing_space() {
    let m = Table::uniform();
    let d = dict(&[("你好", "nh")], &m);
    assert_eq!(encode(&d, &m, &["你好"]), encode_whole(&d, &m, "你好"));
    assert_eq!(encode(&d, &m, &["你好"]).0, "nh ");
    assert_eq!(encode(&d, &m, &["你", "好"]).0, "nh ");
}

#[test]
fn encoder_chunked_matches_whole_on_several_texts() {
    let m = Table::uniform();
    let d = dict(&[("中国", "zg"), ("中", "z"), ("国", "g"), ("人", "r"), ("钟", "z")], &m);
    for text in ["中国人", "中国", "人", "中x国", "钟", "中钟人x", "xx中"] {
        let whole = encode_whole(&d, &m, text);
        let chars: Vec<String> = text.chars().map(|c| c.to_string()).collect();
        let pieces: Vec<&str> = chars.iter().map(|s| s.as_str()).collect();
        assert_eq!(encode(&d, &m, &[text]), whole, "{text}");
        assert_eq!(encode(&d, &m, &pieces), whole, "{text}");
    }
}

#[test]
fn encoder_prepare_starts_afresh() {
    let m = Table::uniform();
    let d = dict(&[("中国", "zg"), ("中", "z"), ("国", "g")], &m);
    let mut e = Encoder::new(&d, &m);
    e.feed("中国");
    e.proc_chunk(&m, false);
    e.proc_end(&m);
    e.prepare(&m);
    e.feed("国");
    e.proc_chunk(&m, false);
    let c = e.proc_end(&m);
    assert_eq!((e.build_encoding(), c), encode_whole(&d, &m, "国"));
    assert_eq!(c, 1.0);
}

#[test]
fn encoder_word_cut_short_is_typed_as_it_is() {
    let mut m = Table::uniform();
    m.pairs.insert(('a', '你'), 4.0);
    let d = dict(&[("你好", "nh")], &m);
    let (out, cost) = encode(&d, &m, &["a你"]);
    assert_eq!(out, "a你");
    assert_eq!(cost, 4.0);
}
