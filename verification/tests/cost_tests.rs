use cn_input_encode::cost::{check_pairs, pack, parse_cost_line, CostModel, CostTableError};
use cn_input_encode::dict::{Entry, TrieDict};

struct Table;

impl CostModel for Table {
    type Cost = f64;
    fn spec_pair(&self, a: char, b: char) -> f64 {
        self.pair(a, b)
    }
    fn spec_zero(&self) -> f64 {
        self.zero()
    }
    fn spec_infinity(&self) -> f64 {
        self.infinity()
    }
    fn spec_add(&self, a: f64, b: f64) -> f64 {
        self.add(a, b)
    }
    fn spec_less(&self, a: f64, b: f64) -> bool {
        self.less(a, b)
    }
    fn spec_total_less(&self, a: f64, b: f64) -> bool {
        self.total_less(a, b)
    }
    fn pair(&self, a: char, b: char) -> f64 {
        if a == 'a' && b == 'b' {
            2.5
        } else {
            1.0
        }
    }
    fn zero(&self) -> f64 {
        0.0
    }
    fn infinity(&self) -> f64 {
        f64::INFINITY
    }
    fn add(&self, a: f64, b: f64) -> f64 {
        a + b
    }
    fn less(&self, a: f64, b: f64) -> bool {
        a < b
    }
    fn total_less(&self, a: f64, b: f64) -> bool {
        a.total_cmp(&b).is_lt()
    }
}

#[test]
fn pack_puts_first_key_high() {
    assert_eq!(pack('a', 'b'), (97u64 << 32) | 98);
    assert_eq!(pack('\0', '\0'), 0);
    assert_eq!(pack('中', ' '), (0x4e2du64 << 32) | 32);
}

#[test]
fn pack_tells_pairs_apart() {
    assert_ne!(pack('a', 'b'), pack('b', 'a'));
    assert_ne!(pack('\u{10ffff}', 'a'), pack('a', '\u{10ffff}'));
    assert_eq!(pack('\u{10ffff}', '\u{10ffff}'), (0x10ffffu64 << 32) | 0x10ffff);
}

fn code_cost(code: &str) -> f64 {
    let es = vec![Entry { word: "w".to_string(), code: code.to_string(), weight: None }];
    let d: TrieDict<f64> = TrieDict::new(&es, &Table);
    let text: Vec<char> = vec!['w'];
    let (heads, _) = d.heads(&text, 0);
    d.info(heads[0], 0).cost
}

#[test]
fn code_cost_sums_successive_pairs() {
    // ab, bc, ca, ab
    assert_eq!(code_cost("abcab"), 2.5 + 1.0 + 1.0 + 2.5);
    assert_eq!(code_cost("ba"), 1.0);
}

#[test]
fn code_cost_of_one_key_is_zero() {
    assert_eq!(code_cost("a"), 0.0);
}

#[test]
fn cost_line_takes_two_keys_before_the_tab() {
    assert_eq!(parse_cost_line("ab\t1.5"), Some(('a', 'b', "1.5".to_string())));
    assert_eq!(parse_cost_line("中 \t"), Some(('中', ' ', String::new())));
    assert_eq!(parse_cost_line("ab\tx\ty"), Some(('a', 'b', "x\ty".to_string())));
    assert_eq!(parse_cost_line("abc\t1"), None);
    assert_eq!(parse_cost_line("a\t1"), None);
    assert_eq!(parse_cost_line("\tb\t1"), None);
    assert_eq!(parse_cost_line("ab 1"), None);
    assert_eq!(parse_cost_line(""), None);
}

#[test]
fn cost_table_needs_a_pair() {
    assert_eq!(check_pairs(&[]), Err(CostTableError::NoPairs));
    assert_eq!(check_pairs(&[pack('a', 'b')]), Ok(()));
}

#[test]
fn cost_table_reports_the_first_repeated_pair() {
    let keys = [pack('a', 'b'), pack('b', 'a'), pack('c', 'd'), pack('b', 'a'), pack('a', 'b')];
    assert_eq!(check_pairs(&keys), Err(CostTableError::Duplicate(1, 3)));
    assert_eq!(check_pairs(&keys[..3]), Ok(()));
}

#[test]
fn pair_cost_falls_back_to_the_mean() {
    let mut table: rustc_hash::FxHashMap<u64, f64> = Default::default();
    table.insert(pack('a', 'b'), 2.5);
    assert_eq!(cn_input_encode::cost::pair_cost(&table, 1.0, 'a', 'b'), 2.5);
    assert_eq!(cn_input_encode::cost::pair_cost(&table, 1.0, 'b', 'a'), 1.0);
}
