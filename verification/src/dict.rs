//! The dictionary: its text format, the registry that keeps codes distinct,
//! and the tries of words and codes.
use crate::cost::{code_cost, seq_cost, CostModel};
use crate::order::{is_rank_order, weight_order};
use crate::trie::{has_path, Trie};
use crate::fx::{fx_set_contains, fx_set_insert, string_set_contents, FxStringSet};
use crate::text::{chars_of, is_white, lemma_split_on_len, split_on, string_from_chars, trim, trim_bounds, trim_end, trim_start};
use vstd::prelude::*;

verus! {

/// Why a dictionary text is refused.
#[derive(Debug, Clone, Copy, PartialEq, Eq, Structural)]
pub enum DictError {
    /// No line of the text holds a usable entry.
    NoEntries,
}

/// The weight column of an entry, as written: its number, and whether a `%`
/// followed it (the number is then in hundredths).
pub struct Weight {
    pub number: String,
    pub percent: bool,
}

/// One line of the dictionary: a word, the code that types it, and the weight
/// column when there is one.
pub struct Entry {
    pub word: String,
    pub code: String,
    pub weight: Option<Weight>,
}

/// The view of a weight column: its number and its percent mark.
pub type WeightView = (Seq<char>, bool);

/// The view of an entry: word, code and weight column.
pub type EntryView = (Seq<char>, Seq<char>, Option<WeightView>);

impl View for Weight {
    type V = WeightView;

    open spec fn view(&self) -> WeightView {
        (self.number@, self.percent)
    }
}

impl View for Entry {
    type V = EntryView;

    open spec fn view(&self) -> EntryView {
        (
            self.word@,
            self.code@,
            match self.weight {
                Some(w) => Some(w@),
                None => None,
            },
        )
    }
}

/// A copy of an entry.
fn copy_entry(e: &Entry) -> (r: Entry)
    ensures
        r@ == e@,
{
    let weight = match &e.weight {
        Some(w) => Some(Weight { number: w.number.clone(), percent: w.percent }),
        None => None,
    };
    Entry { word: e.word.clone(), code: e.code.clone(), weight }
}

/// The entries in the order in which the dictionary takes them, given a
/// weight key for each: heaviest first, and in text order among equal keys.
pub fn rank_entries(entries: &[Entry], keys: &[i64]) -> (r: Vec<Entry>)
    requires
        keys@.len() == entries@.len(),
    ensures
        r@.len() == entries@.len(),
        exists|perm: Seq<usize>|
            is_rank_order(keys@, perm) && forall|i: int|
                0 <= i < r@.len() ==> (#[trigger] r@[i])@ == entries@[perm[i] as int]@,
{
    let order = weight_order(keys);
    let mut r: Vec<Entry> = Vec::new();
    let mut i: usize = 0;
    while i < order.len()
        invariant
            order@.len() == entries@.len(),
            forall|k: int| 0 <= k < order@.len() ==> #[trigger] order@[k] < entries@.len(),
            i <= order@.len(),
            r@.len() == i,
            forall|k: int| 0 <= k < i ==> (#[trigger] r@[k])@ == entries@[order@[k] as int]@,
        decreases order@.len() - i,
    {
        let e = copy_entry(&entries[order[i]]);
        r.push(e);
        i += 1;
    }
    proof {
        assert(is_rank_order(keys@, order@));
    }
    r
}

/// A weight column: a trailing `%` is split off as the percent mark.
pub open spec fn weight_of(p: Seq<char>) -> WeightView {
    if p.len() > 0 && p.last() == '%' {
        (p.drop_last(), true)
    } else {
        (p, false)
    }
}

/// The entry that one line of the dictionary gives, if any. The line is
/// trimmed; empty lines and lines that start with `#` give none; the columns
/// are separated by tabs: word, code, then the optional weight; a line without
/// a non-empty word and a non-empty code gives none.
pub open spec fn parse_line(l: Seq<char>) -> Option<EntryView> {
    let t = trim(l);
    if t.len() == 0 || t[0] == '#' {
        None
    } else {
        let f = split_on(t, '\t');
        if f.len() < 2 || f[0].len() == 0 || f[1].len() == 0 {
            None
        } else {
            Some((f[0], f[1], if f.len() >= 3 { Some(weight_of(f[2])) } else { None }))
        }
    }
}

/// The entries of a sequence of lines, in order.
pub open spec fn parse_lines(ls: Seq<Seq<char>>) -> Seq<EntryView>
    decreases ls.len(),
{
    if ls.len() == 0 {
        Seq::empty()
    } else {
        parse_lines(ls.drop_last()) + match parse_line(ls.last()) {
            Some(e) => seq![e],
            None => Seq::empty(),
        }
    }
}

/// The entries of a dictionary text, line by line.
pub open spec fn dict_entries(text: Seq<char>) -> Seq<EntryView> {
    parse_lines(split_on(text, '\n'))
}

/// A newline at the end of a dictionary text changes none of its entries:
/// the last line gives its entry whether a newline ends it or not.
pub proof fn lemma_final_newline(text: Seq<char>)
    ensures
        dict_entries(text.push('\n')) == dict_entries(text),
{
    assert(text.push('\n').drop_last() =~= text);
    assert(split_on(text.push('\n'), '\n') == split_on(text, '\n').push(Seq::<char>::empty()));
    let ls = split_on(text, '\n').push(Seq::<char>::empty());
    assert(ls.drop_last() =~= split_on(text, '\n'));
    assert(trim(Seq::<char>::empty()) =~= Seq::<char>::empty());
    assert(parse_line(ls.last()) is None);
    assert(parse_lines(ls) =~= parse_lines(split_on(text, '\n')));
}

/// Splitting `a`, a separator and then `b`: the pieces of `a`, then those of `b`.
proof fn lemma_split_concat(a: Seq<char>, b: Seq<char>, sep: char)
    ensures
        split_on(a.push(sep) + b, sep) == split_on(a, sep) + split_on(b, sep),
    decreases b.len(),
{
    if b.len() == 0 {
        assert(a.push(sep) + b =~= a.push(sep));
        assert(a.push(sep).drop_last() =~= a);
        assert(split_on(a, sep) + seq![Seq::<char>::empty()] =~= split_on(a, sep).push(Seq::<char>::empty()));
    } else {
        let b1 = b.drop_last();
        lemma_split_concat(a, b1, sep);
        lemma_split_on_len(b1, sep);
        assert((a.push(sep) + b).drop_last() =~= a.push(sep) + b1);
        assert((a.push(sep) + b).last() == b.last());
        let pa = split_on(a, sep);
        let pb = split_on(b1, sep);
        if b.last() == sep {
            assert((pa + pb).push(Seq::<char>::empty()) =~= pa + pb.push(Seq::<char>::empty()));
        } else {
            assert((pa + pb).update((pa + pb).len() - 1, (pa + pb).last().push(b.last())) =~= pa + pb.update(
                pb.len() - 1,
                pb.last().push(b.last()),
            ));
        }
    }
}

/// The entries of two runs of lines, one after the other.
proof fn lemma_parse_lines_concat(x: Seq<Seq<char>>, y: Seq<Seq<char>>)
    ensures
        parse_lines(x + y) == parse_lines(x) + parse_lines(y),
    decreases y.len(),
{
    if y.len() == 0 {
        assert(x + y =~= x);
        assert(parse_lines(y) =~= Seq::<EntryView>::empty());
        assert(parse_lines(x) + parse_lines(y) =~= parse_lines(x));
    } else {
        lemma_parse_lines_concat(x, y.drop_last());
        assert((x + y).drop_last() =~= x + y.drop_last());
        assert((x + y).last() == y.last());
        let e: Seq<EntryView> = match parse_line(y.last()) {
            Some(e) => seq![e],
            None => Seq::empty(),
        };
        assert(parse_lines(x) + parse_lines(y.drop_last()) + e =~= parse_lines(x) + (parse_lines(y.drop_last()) + e));
    }
}

/// A dictionary text is read line by line: the entries of two texts joined
/// by a newline are the entries of the first, then those of the second.
pub proof fn lemma_entries_concat(a: Seq<char>, b: Seq<char>)
    ensures
        dict_entries(a.push('\n') + b) == dict_entries(a) + dict_entries(b),
{
    lemma_split_concat(a, b, '\n');
    lemma_parse_lines_concat(split_on(a, '\n'), split_on(b, '\n'));
}

/// A line whose first character other than white space is `#` is a
/// comment: it adds no entry, wherever it stands.
pub proof fn lemma_comment_line(text: Seq<char>, line: Seq<char>)
    requires
        !line.contains('\n'),
        trim(line).len() > 0,
        trim(line)[0] == '#',
    ensures
        dict_entries(text.push('\n') + line) == dict_entries(text),
{
    lemma_entries_concat(text, line);
    lemma_single_line(line);
    assert(dict_entries(text) + Seq::<EntryView>::empty() =~= dict_entries(text));
}

/// A line of two columns, word and code, separated by a tab, gives the
/// entry of that word and code without a weight; with a third column, the
/// entry also carries that weight, a trailing `%` split off as the percent
/// mark. The word and the code hold neither tab nor newline, and the line
/// neither starts nor ends with white space nor starts with `#`.
pub proof fn lemma_entry_line(word: Seq<char>, code: Seq<char>, weight: Seq<char>)
    requires
        word.len() > 0,
        code.len() > 0,
        weight.len() > 0,
        !word.contains('\t') && !word.contains('\n'),
        !code.contains('\t') && !code.contains('\n'),
        !weight.contains('\t') && !weight.contains('\n'),
        !is_white(word[0]) && word[0] != '#',
        !is_white(code.last()),
        !is_white(weight.last()),
    ensures
        dict_entries(word.push('\t') + code) == seq![(word, code, None::<WeightView>)],
        dict_entries(word.push('\t') + code.push('\t') + weight) == seq![(word, code, Some(weight_of(weight)))],
{
    let l2 = word.push('\t') + code;
    let l3 = word.push('\t') + code.push('\t') + weight;
    assert(l3 =~= word.push('\t') + (code.push('\t') + weight));
    lemma_split_no_sep(word, '\t');
    lemma_split_no_sep(code, '\t');
    lemma_split_no_sep(weight, '\t');
    lemma_split_concat(word, code, '\t');
    lemma_split_concat(code, weight, '\t');
    lemma_split_concat(word, code.push('\t') + weight, '\t');
    assert(l2[0] == word[0] && l3[0] == word[0]);
    assert(l2.last() == code.last() && l3.last() == weight.last());
    assert(trim_start(l2) == l2);
    assert(trim_end(l2) == l2);
    assert(trim_start(l3) == l3);
    assert(trim_end(l3) == l3);
    assert(seq![word] + seq![code] =~= seq![word, code]);
    assert(seq![word] + (seq![code] + seq![weight]) =~= seq![word, code, weight]);
    assert(!l2.contains('\n')) by {
        if l2.contains('\n') {
            let k = choose|k: int| 0 <= k < l2.len() && l2[k] == '\n';
            if k < word.len() {
                assert(word[k] == '\n');
            } else if k > word.len() {
                assert(code[k - word.len() - 1] == '\n');
            }
        }
    }
    assert(!l3.contains('\n')) by {
        if l3.contains('\n') {
            let k = choose|k: int| 0 <= k < l3.len() && l3[k] == '\n';
            if k < word.len() {
                assert(word[k] == '\n');
            } else if word.len() < k < word.len() + 1 + code.len() {
                assert(code[k - word.len() - 1] == '\n');
            } else if k > word.len() + 1 + code.len() {
                assert(weight[k - word.len() - 2 - code.len()] == '\n');
            }
        }
    }
    lemma_single_line(l2);
    lemma_single_line(l3);
}

/// A text without a newline is one piece when split at newlines.
proof fn lemma_split_no_sep(s: Seq<char>, sep: char)
    requires
        !s.contains(sep),
    ensures
        split_on(s, sep) == seq![s],
    decreases s.len(),
{
    if s.len() > 0 {
        assert(s.last() == s[s.len() - 1]);
        assert(!s.drop_last().contains(sep)) by {
            if s.drop_last().contains(sep) {
                let k = choose|k: int| 0 <= k < s.drop_last().len() && s.drop_last()[k] == sep;
                assert(s[k] == sep);
            }
        }
        lemma_split_no_sep(s.drop_last(), sep);
        assert(s.drop_last().push(s.last()) =~= s);
        assert(seq![s.drop_last()].update(0, s.drop_last().push(s.last())) =~= seq![s]);
    } else {
        assert(s =~= Seq::<char>::empty());
    }
}

/// A text of one line, without a newline, gives the entry of that line, if
/// the line gives one, and nothing else.
pub proof fn lemma_single_line(line: Seq<char>)
    requires
        !line.contains('\n'),
    ensures
        dict_entries(line) == match parse_line(line) {
            Some(e) => seq![e],
            None => Seq::<EntryView>::empty(),
        },
{
    lemma_split_no_sep(line, '\n');
    let ls = seq![line];
    assert(ls.drop_last() =~= Seq::<Seq<char>>::empty());
    assert(parse_lines(ls.drop_last()) =~= Seq::<EntryView>::empty());
    assert(ls.last() == line);
    match parse_line(line) {
        Some(e) => {
            assert(parse_lines(ls) =~= seq![e]);
        },
        None => {
            assert(parse_lines(ls) =~= Seq::<EntryView>::empty());
        },
    }
}

/// The first `n` characters of `v`.
fn take_chars(v: &Vec<char>, n: usize) -> (r: Vec<char>)
    requires
        n <= v.len(),
    ensures
        r@ == v@.take(n as int),
{
    let mut r: Vec<char> = Vec::new();
    let mut i: usize = 0;
    while i < n
        invariant
            n <= v.len(),
            0 <= i <= n,
            r@ == v@.take(i as int),
        decreases n - i,
    {
        r.push(v[i]);
        proof {
            assert(v@.take(i + 1) =~= v@.take(i as int).push(v@[i as int]));
        }
        i += 1;
    }
    r
}

/// Splitting a string extended by one character.
proof fn lemma_split_step(s: Seq<char>, sep: char, c: char)
    ensures
        split_on(s.push(c), sep) == if c == sep {
            split_on(s, sep).push(Seq::<char>::empty())
        } else {
            split_on(s, sep).update(
                split_on(s, sep).len() - 1,
                split_on(s, sep).last().push(c),
            )
        },
{
    assert(s.push(c).drop_last() =~= s);
}

/// Splits `s[lo..hi]` at its tabs.
fn split_tabs(s: &Vec<char>, lo: usize, hi: usize) -> (r: Vec<Vec<char>>)
    requires
        lo <= hi <= s.len(),
    ensures
        r@.map_values(|f: Vec<char>| f@) == split_on(s@.subrange(lo as int, hi as int), '\t'),
{
    let mut fields: Vec<Vec<char>> = Vec::new();
    fields.push(Vec::new());
    proof {
        assert(s@.subrange(lo as int, lo as int) =~= Seq::<char>::empty());
        assert(fields@.map_values(|f: Vec<char>| f@) =~= seq![Seq::<char>::empty()]);
    }
    let mut k: usize = lo;
    while k < hi
        invariant
            lo <= k <= hi <= s.len(),
            fields@.len() >= 1,
            fields@.map_values(|f: Vec<char>| f@) == split_on(s@.subrange(lo as int, k as int), '\t'),
        decreases hi - k,
    {
        let c = s[k];
        let ghost prev = s@.subrange(lo as int, k as int);
        proof {
            assert(s@.subrange(lo as int, k + 1) =~= prev.push(c));
            lemma_split_step(prev, '\t', c);
            lemma_split_on_len(prev, '\t');
        }
        if c == '\t' {
            fields.push(Vec::new());
            proof {
                assert(fields@.map_values(|f: Vec<char>| f@) =~= split_on(prev, '\t').push(
                    Seq::<char>::empty(),
                ));
            }
        } else {
            let mut last = fields.pop().unwrap();
            last.push(c);
            fields.push(last);
            proof {
                let p = split_on(prev, '\t');
                assert(fields@.map_values(|f: Vec<char>| f@) =~= p.update(
                    p.len() - 1,
                    p.last().push(c),
                ));
            }
        }
        k += 1;
    }
    fields
}

/// The entry of one line, if it holds one.
fn parse_line_chars(line: &Vec<char>) -> (r: Option<Entry>)
    ensures
        match r {
            Some(e) => parse_line(line@) == Some(e@),
            None => parse_line(line@) is None,
        },
{
    let (lo, hi) = trim_bounds(line);
    if lo == hi || line[lo] == '#' {
        return None;
    }
    let fields = split_tabs(line, lo, hi);
    let ghost f = split_on(trim(line@), '\t');
    proof {
        assert(f.len() == fields@.len());
        assert(forall|i: int| 0 <= i < f.len() ==> f[i] == #[trigger] fields@[i]@);
    }
    if fields.len() < 2 || fields[0].len() == 0 || fields[1].len() == 0 {
        return None;
    }
    let word = string_from_chars(fields[0].as_slice());
    let code = string_from_chars(fields[1].as_slice());
    let weight = if fields.len() >= 3 {
        let w = &fields[2];
        let n = w.len();
        if n > 0 && w[n - 1] == '%' {
            let digits = take_chars(w, n - 1);
            proof {
                assert(w@.take(n - 1) =~= w@.drop_last());
            }
            Some(Weight { number: string_from_chars(digits.as_slice()), percent: true })
        } else {
            Some(Weight { number: string_from_chars(w.as_slice()), percent: false })
        }
    } else {
        None
    };
    let e = Entry { word, code, weight };
    Some(e)
}

/// Reads the entries of a dictionary text, line by line and in order; refused
/// when no line holds one.
pub fn parse_entries(text: &str) -> (r: Result<Vec<Entry>, DictError>)
    ensures
        match r {
            Ok(v) => {
                &&& v@.map_values(|e: Entry| e@) == dict_entries(text@)
                &&& v@.len() > 0
            },
            Err(e) => e == DictError::NoEntries && dict_entries(text@).len() == 0,
        },
{
    let chars = chars_of(text);
    let mut entries: Vec<Entry> = Vec::new();
    let mut cur: Vec<char> = Vec::new();
    let ghost mut done: Seq<Seq<char>> = Seq::empty();
    let mut i: usize = 0;
    proof {
        assert(chars@.take(0) =~= Seq::<char>::empty());
        assert(done.push(cur@) =~= seq![Seq::<char>::empty()]);
    }
    while i < chars.len()
        invariant
            chars@ == text@,
            0 <= i <= chars.len(),
            split_on(chars@.take(i as int), '\n') == done.push(cur@),
            entries@.map_values(|e: Entry| e@) == parse_lines(done),
        decreases chars.len() - i,
    {
        let c = chars[i];
        let ghost prev = chars@.take(i as int);
        proof {
            assert(chars@.take(i + 1) =~= prev.push(c));
            lemma_split_step(prev, '\n', c);
        }
        if c == '\n' {
            let e = parse_line_chars(&cur);
            proof {
                assert(done.push(cur@).drop_last() =~= done);
            }
            match e {
                Some(e) => {
                    entries.push(e);
                    proof {
                        assert(entries@.map_values(|e: Entry| e@) =~= parse_lines(done.push(cur@)));
                    }
                },
                None => {
                    proof {
                        assert(parse_lines(done.push(cur@)) =~= parse_lines(done));
                    }
                },
            }
            proof {
                done = done.push(cur@);
            }
            cur = Vec::new();
            proof {
                assert(split_on(chars@.take(i + 1), '\n') =~= done.push(cur@));
            }
        } else {
            cur.push(c);
            proof {
                assert(split_on(chars@.take(i + 1), '\n') =~= done.push(cur@));
            }
        }
        i += 1;
    }
    let e = parse_line_chars(&cur);
    proof {
        assert(chars@.take(i as int) =~= text@);
        assert(done.push(cur@).drop_last() =~= done);
    }
    match e {
        Some(e) => {
            entries.push(e);
            proof {
                assert(entries@.map_values(|e: Entry| e@) =~= parse_lines(done.push(cur@)));
            }
        },
        None => {
            proof {
                assert(parse_lines(done.push(cur@)) =~= parse_lines(done));
            }
        },
    }
    if entries.len() == 0 {
        return Err(DictError::NoEntries);
    }
    Ok(entries)
}


/// The character appended to make the `d`-th candidate of a round: `2` to `9`,
/// then `=`.
pub open spec fn suffix_char(d: int) -> char {
    if d == 0 {
        '2'
    } else if d == 1 {
        '3'
    } else if d == 2 {
        '4'
    } else if d == 3 {
        '5'
    } else if d == 4 {
        '6'
    } else if d == 5 {
        '7'
    } else if d == 6 {
        '8'
    } else if d == 7 {
        '9'
    } else {
        '='
    }
}

/// Number of candidates in one round.
pub const ROUND: usize = 9;

fn suffix_char_exec(d: usize) -> (c: char)
    ensures
        c == suffix_char(d as int),
{
    match d {
        0 => '2',
        1 => '3',
        2 => '4',
        3 => '5',
        4 => '6',
        5 => '7',
        6 => '8',
        7 => '9',
        _ => '=',
    }
}

/// `k` equals signs.
pub open spec fn equals_signs(k: nat) -> Seq<char> {
    Seq::new(k, |i: int| '=')
}

/// The `d`-th candidate of round `k` for a taken `code`: the code, `k` equals
/// signs, then the `d`-th suffix character.
pub open spec fn candidate(code: Seq<char>, k: nat, d: int) -> Seq<char> {
    code + equals_signs(k) + seq![suffix_char(d)]
}

/// Candidate `(k1, d1)` is tried before candidate `(k2, d2)`.
pub open spec fn tried_before(k1: nat, d1: int, k2: nat, d2: int) -> bool {
    k1 < k2 || (k1 == k2 && d1 < d2)
}

/// `r` is what registering `code` against the codes in `taken` gives: the code
/// itself when free, or else the first free candidate in the order of trial.
pub open spec fn is_first_free(taken: Set<Seq<char>>, code: Seq<char>, r: Seq<char>) -> bool {
    if !taken.contains(code) {
        r == code
    } else {
        exists|k: nat, d: int|
            #![trigger candidate(code, k, d)]
            {
                &&& 0 <= d < ROUND
                &&& r == candidate(code, k, d)
                &&& !taken.contains(r)
                &&& forall|k2: nat, d2: int|
                    0 <= d2 < ROUND && tried_before(k2, d2, k, d) ==> taken.contains(
                        #[trigger] candidate(code, k2, d2),
                    )
            }
    }
}

/// The code that registering `code` against `taken` gives.
pub open spec fn distinct_code(taken: Set<Seq<char>>, code: Seq<char>) -> Seq<char> {
    choose|r: Seq<char>| is_first_free(taken, code, r)
}

/// There is one first free candidate at most.
pub proof fn lemma_first_free_unique(taken: Set<Seq<char>>, code: Seq<char>, r1: Seq<char>, r2: Seq<char>)
    requires
        is_first_free(taken, code, r1),
        is_first_free(taken, code, r2),
    ensures
        r1 == r2,
{
    if taken.contains(code) {
        let (k1, d1) = choose|k: nat, d: int|
            #![trigger candidate(code, k, d)]
            {
                &&& 0 <= d < ROUND
                &&& r1 == candidate(code, k, d)
                &&& !taken.contains(r1)
                &&& forall|k2: nat, d2: int|
                    0 <= d2 < ROUND && tried_before(k2, d2, k, d) ==> taken.contains(
                        #[trigger] candidate(code, k2, d2),
                    )
            };
        let (k2, d2) = choose|k: nat, d: int|
            #![trigger candidate(code, k, d)]
            {
                &&& 0 <= d < ROUND
                &&& r2 == candidate(code, k, d)
                &&& !taken.contains(r2)
                &&& forall|k3: nat, d3: int|
                    0 <= d3 < ROUND && tried_before(k3, d3, k, d) ==> taken.contains(
                        #[trigger] candidate(code, k3, d3),
                    )
            };
        if tried_before(k1, d1, k2, d2) {
            assert(taken.contains(candidate(code, k1, d1)));
        } else if tried_before(k2, d2, k1, d1) {
            assert(taken.contains(candidate(code, k2, d2)));
        }
    }
}

/// Registering never shortens a code.
pub proof fn lemma_first_free_len(taken: Set<Seq<char>>, code: Seq<char>, r: Seq<char>)
    requires
        is_first_free(taken, code, r),
    ensures
        r.len() >= code.len(),
{
    if taken.contains(code) {
        let (k, d) = choose|k: nat, d: int|
            #![trigger candidate(code, k, d)]
            {
                &&& 0 <= d < ROUND
                &&& r == candidate(code, k, d)
                &&& !taken.contains(r)
                &&& forall|k2: nat, d2: int|
                    0 <= d2 < ROUND && tried_before(k2, d2, k, d) ==> taken.contains(
                        #[trigger] candidate(code, k2, d2),
                    )
            };
        assert(candidate(code, k, d).len() == code.len() + k + 1);
    }
}

/// The strings of a finite set are shorter than some bound.
proof fn lemma_length_bound(s: Set<Seq<char>>) -> (n: nat)
    requires
        s.finite(),
    ensures
        forall|x: Seq<char>| #[trigger] s.contains(x) ==> x.len() < n,
    decreases s.len(),
{
    if s.len() == 0 {
        assert(s =~= Set::<Seq<char>>::empty());
        0
    } else {
        let x = s.choose();
        let m = lemma_length_bound(s.remove(x));
        if m > x.len() {
            m
        } else {
            x.len() + 1
        }
    }
}

/// If every candidate tried before `(k, d)` is taken, a first free candidate exists.
proof fn lemma_first_free_from(taken: Set<Seq<char>>, code: Seq<char>, bound: nat, k: nat, d: int)
    requires
        taken.contains(code),
        forall|x: Seq<char>| #[trigger] taken.contains(x) ==> x.len() < bound,
        0 <= d < ROUND,
        forall|k2: nat, d2: int|
            0 <= d2 < ROUND && tried_before(k2, d2, k, d) ==> taken.contains(#[trigger] candidate(code, k2, d2)),
    ensures
        exists|r: Seq<char>| is_first_free(taken, code, r),
    decreases bound - k, ROUND - d,
{
    lemma_candidate_push(code, k, d);
    let c = candidate(code, k, d);
    if !taken.contains(c) {
        assert(is_first_free(taken, code, c));
    } else if d + 1 < ROUND {
        assert forall|k2: nat, d2: int|
            0 <= d2 < ROUND && tried_before(k2, d2, k, d + 1) implies taken.contains(#[trigger] candidate(code, k2, d2)) by {
            if k2 == k && d2 == d {
            }
        }
        lemma_first_free_from(taken, code, bound, k, d + 1);
    } else {
        assert forall|k2: nat, d2: int|
            0 <= d2 < ROUND && tried_before(k2, d2, k + 1, 0) implies taken.contains(#[trigger] candidate(code, k2, d2)) by {
            if k2 == k && d2 == d {
            }
        }
        lemma_first_free_from(taken, code, bound, k + 1, 0);
    }
}

/// Against a finite set of taken codes, registering gives the first free
/// candidate, which is not taken.
pub proof fn lemma_distinct_code_free(taken: Set<Seq<char>>, code: Seq<char>)
    requires
        taken.finite(),
    ensures
        is_first_free(taken, code, distinct_code(taken, code)),
        !taken.contains(distinct_code(taken, code)),
{
    if taken.contains(code) {
        let bound = lemma_length_bound(taken);
        lemma_first_free_from(taken, code, bound, 0, 0);
        let r = choose|r: Seq<char>| is_first_free(taken, code, r);
        lemma_first_free_unique(taken, code, r, distinct_code(taken, code));
    } else {
        assert(is_first_free(taken, code, code));
    }
}

/// A candidate is its prefix of equals signs with one suffix character pushed.
proof fn lemma_candidate_push(code: Seq<char>, k: nat, d: int)
    ensures
        candidate(code, k, d) == (code + equals_signs(k)).push(suffix_char(d)),
        (code + equals_signs(k)).push('=') == code + equals_signs(k + 1),
        candidate(code, k, d).len() == code.len() + k + 1,
{
    assert(candidate(code, k, d) =~= (code + equals_signs(k)).push(suffix_char(d)));
    assert((code + equals_signs(k)).push('=') =~= code + equals_signs(k + 1));
}

/// A registry with no code taken yet.
pub fn new_code_set() -> (s: FxStringSet)
    ensures
        string_set_contents(s) == Set::<Seq<char>>::empty(),
        string_set_contents(s).finite(),
{
    crate::fx::fx_set_new()
}

/// Registers `code` among the `codes` already taken, and returns the code that
/// stands for it: the code itself when free, or else the first free of
/// `code2` .. `code9`, `code=`, `code=2` .. `code=9`, `code==`, ...
pub fn distinct_and_record(code: &str, codes: &mut FxStringSet) -> (r: String)
    requires
        string_set_contents(*old(codes)).finite(),
    ensures
        is_first_free(string_set_contents(*old(codes)), code@, r@),
        r@ == distinct_code(string_set_contents(*old(codes)), code@),
        string_set_contents(*final(codes)) == string_set_contents(*old(codes)).insert(r@),
        string_set_contents(*final(codes)).finite(),
{
    let ghost taken = string_set_contents(*codes);
    if !fx_set_contains(codes, code) {
        let r = string_from_chars(chars_of(code).as_slice());
        fx_set_insert(codes, r.clone());
        proof {
            lemma_first_free_unique(taken, code@, r@, distinct_code(taken, code@));
        }
        return r;
    }
    let ghost bound = lemma_length_bound(taken);
    let mut prefix: Vec<char> = chars_of(code);
    let ghost mut k: nat = 0;
    proof {
        assert(prefix@ =~= code@ + equals_signs(0));
    }
    loop
        invariant
            taken == string_set_contents(*codes),
            taken == string_set_contents(*old(codes)),
            taken.finite(),
            taken.contains(code@),
            forall|x: Seq<char>| #[trigger] taken.contains(x) ==> x.len() < bound,
            prefix@ == code@ + equals_signs(k),
            forall|k2: nat, d2: int|
                0 <= d2 < ROUND && k2 < k ==> taken.contains(#[trigger] candidate(code@, k2, d2)),
        decreases bound + 1 - prefix@.len(),
    {
        let mut d: usize = 0;
        while d < ROUND
            invariant
                taken == string_set_contents(*codes),
                taken == string_set_contents(*old(codes)),
                taken.finite(),
                taken.contains(code@),
                forall|x: Seq<char>| #[trigger] taken.contains(x) ==> x.len() < bound,
                prefix@ == code@ + equals_signs(k),
                0 <= d <= ROUND,
                forall|k2: nat, d2: int|
                    0 <= d2 < ROUND && tried_before(k2, d2, k, d as int) ==> taken.contains(
                        #[trigger] candidate(code@, k2, d2),
                    ),
            decreases ROUND - d,
        {
            let c = suffix_char_exec(d);
            proof {
                lemma_candidate_push(code@, k, d as int);
            }
            prefix.push(c);
            let cand = string_from_chars(prefix.as_slice());
            if !fx_set_contains(codes, cand.as_str()) {
                fx_set_insert(codes, cand.clone());
                proof {
                    assert(is_first_free(taken, code@, cand@));
                    lemma_first_free_unique(taken, code@, cand@, distinct_code(taken, code@));
                }
                return cand;
            }
            prefix.pop();
            proof {
                assert(prefix@ =~= code@ + equals_signs(k));
                assert forall|k2: nat, d2: int|
                    0 <= d2 < ROUND && tried_before(k2, d2, k, d + 1) implies taken.contains(
                        #[trigger] candidate(code@, k2, d2),
                    ) by {
                    if k2 == k && d2 == d {
                    }
                }
            }
            d += 1;
        }
        proof {
            lemma_candidate_push(code@, k, (ROUND - 1) as int);
            assert(taken.contains(candidate(code@, k, (ROUND - 1) as int)));
            assert(suffix_char((ROUND - 1) as int) == '=');
        }
        prefix.push('=');
        proof {
            k = k + 1;
            assert(prefix@.len() < bound);
        }
    }
}

/// The codes that registering `codes` one after another gives, starting from
/// no code taken.
pub open spec fn registered(codes: Seq<Seq<char>>) -> Seq<Seq<char>>
    decreases codes.len(),
{
    if codes.len() == 0 {
        Seq::empty()
    } else {
        let prev = registered(codes.drop_last());
        prev.push(distinct_code(prev.to_set(), codes.last()))
    }
}

/// The codes that registration gives are pairwise distinct, whatever codes
/// are registered: no two entries of the dictionary share a code.
pub proof fn lemma_registered_distinct(codes: Seq<Seq<char>>)
    ensures
        forall|i: int, j: int|
            0 <= i < j < registered(codes).len() ==> #[trigger] registered(codes)[i] != #[trigger] registered(codes)[j],
    decreases codes.len(),
{
    if codes.len() > 0 {
        let prev = registered(codes.drop_last());
        lemma_registered_distinct(codes.drop_last());
        vstd::seq_lib::seq_to_set_is_finite(prev);
        lemma_distinct_code_free(prev.to_set(), codes.last());
        let r = registered(codes);
        assert(r == prev.push(distinct_code(prev.to_set(), codes.last())));
        assert forall|i: int, j: int| 0 <= i < j < r.len() implies #[trigger] r[i] != #[trigger] r[j] by {
            if j == r.len() - 1 {
                assert(prev.to_set().contains(prev[i]));
            } else {
                assert(r[i] == prev[i] && r[j] == prev[j]);
            }
        }
    }
}

/// `w` is a prefix of one of the strings of `ws`.
pub open spec fn prefix_of_some(ws: Seq<Seq<char>>, w: Seq<char>) -> bool {
    exists|e: int| 0 <= e < ws.len() && w.len() <= ws[e].len() && #[trigger] ws[e].take(w.len() as int) == w
}

/// The codes `ds[e]` of the entries whose word `ws[e]` is `w`, in order.
pub open spec fn codes_for(ws: Seq<Seq<char>>, ds: Seq<Seq<char>>, w: Seq<char>) -> Seq<Seq<char>>
    decreases ws.len(),
{
    if ws.len() == 0 {
        Seq::empty()
    } else {
        codes_for(ws.drop_last(), ds.drop_last(), w) + if ws.last() == w {
            seq![ds.last()]
        } else {
            Seq::empty()
        }
    }
}

/// The words of a list of entries.
pub open spec fn entry_words(entries: Seq<Entry>) -> Seq<Seq<char>> {
    entries.map_values(|e: Entry| e.word@)
}

/// The codes of a list of entries, as written.
pub open spec fn entry_codes(entries: Seq<Entry>) -> Seq<Seq<char>> {
    entries.map_values(|e: Entry| e.code@)
}

/// Registration gives one code per code registered.
proof fn lemma_registered_len(codes: Seq<Seq<char>>)
    ensures
        registered(codes).len() == codes.len(),
    decreases codes.len(),
{
    if codes.len() > 0 {
        lemma_registered_len(codes.drop_last());
    }
}

/// A word that no entry has gets no codes.
proof fn lemma_codes_for_absent(ws: Seq<Seq<char>>, ds: Seq<Seq<char>>, w: Seq<char>)
    requires
        forall|e: int| 0 <= e < ws.len() ==> #[trigger] ws[e] != w,
    ensures
        codes_for(ws, ds, w) == Seq::<Seq<char>>::empty(),
    decreases ws.len(),
{
    if ws.len() > 0 {
        assert forall|e: int| 0 <= e < ws.drop_last().len() implies #[trigger] ws.drop_last()[e] != w by {
            assert(ws.drop_last()[e] == ws[e]);
        }
        lemma_codes_for_absent(ws.drop_last(), ds.drop_last(), w);
        assert(ws.last() != w);
        assert(codes_for(ws, ds, w) =~= Seq::<Seq<char>>::empty());
    }
}

/// The prefixes of some word, with one word more.
proof fn lemma_prefix_of_some_push(ws: Seq<Seq<char>>, w: Seq<char>, x: Seq<char>)
    ensures
        prefix_of_some(ws.push(w), x) <==> (prefix_of_some(ws, x) || (x.len() <= w.len() && x
            == w.take(x.len() as int))),
{
    let ws2 = ws.push(w);
    if prefix_of_some(ws2, x) {
        let e = choose|e: int| 0 <= e < ws2.len() && x.len() <= ws2[e].len() && #[trigger] ws2[e].take(x.len() as int) == x;
        if e < ws.len() {
            assert(ws[e].take(x.len() as int) == x);
        }
    }
    if prefix_of_some(ws, x) {
        let e = choose|e: int| 0 <= e < ws.len() && x.len() <= ws[e].len() && #[trigger] ws[e].take(x.len() as int) == x;
        assert(ws2[e].take(x.len() as int) == x);
    }
    if x.len() <= w.len() && x == w.take(x.len() as int) {
        assert(ws2[ws.len() as int].take(x.len() as int) == x);
    }
}

/// The codes of a list of code records.
pub open spec fn codes_of<C>(v: Seq<Info<C>>) -> Seq<Seq<char>> {
    v.map_values(|i: Info<C>| i.code@)
}

/// Information kept for one code of a word.
pub struct Info<C> {
    /// The code (after registration, so distinct from every other code).
    pub code: String,
    /// The cost of typing the code's keys.
    pub cost: C,
    /// The node of the code in the code trie.
    pub c_node: usize,
    /// The first key of the code.
    pub first: char,
    /// The last key of the code.
    pub last: char,
}

/// The codes of a list of code records with one record more.
proof fn lemma_codes_of_push<C>(v: Seq<Info<C>>, x: Info<C>)
    ensures
        codes_of(v.push(x)) == codes_of(v).push(x.code@),
        codes_of(Seq::<Info<C>>::empty()) == Seq::<Seq<char>>::empty(),
{
    assert(codes_of(v.push(x)) =~= codes_of(v).push(x.code@));
    assert(codes_of(Seq::<Info<C>>::empty()) =~= Seq::<Seq<char>>::empty());
}

/// The code record keeps a non-empty code, with its first and last keys.
pub open spec fn info_ok<C>(i: Info<C>) -> bool {
    &&& i.code@.len() > 0
    &&& i.first == i.code@[0]
    &&& i.last == i.code@.last()
}

/// Adding a consistent code record to one word node keeps all records consistent.
proof fn lemma_infos_push<C>(before: Seq<Vec<Info<C>>>, after: Seq<Vec<Info<C>>>, w: int, x: Info<C>)
    requires
        0 <= w < before.len(),
        after.len() == before.len(),
        forall|n: int| 0 <= n < after.len() && n != w ==> #[trigger] after[n] == before[n],
        after[w]@ == before[w]@.push(x),
        forall|n: int, j: int| 0 <= n < before.len() && 0 <= j < before[n]@.len() ==> info_ok(#[trigger] before[n]@[j]),
        info_ok(x),
    ensures
        forall|n: int, j: int| 0 <= n < after.len() && 0 <= j < after[n]@.len() ==> info_ok(#[trigger] after[n]@[j]),
{
    assert forall|n: int, j: int| 0 <= n < after.len() && 0 <= j < after[n]@.len() implies info_ok(#[trigger] after[n]@[j]) by {
        if n == w {
            if j < before[w]@.len() {
                assert(after[w]@[j] == before[w]@[j]);
            }
        } else {
            assert(after[n] == before[n]);
        }
    }
}

/// The code record names the node of its code in the code trie `cp`.
pub open spec fn node_ok<C>(i: Info<C>, cp: Seq<Seq<char>>) -> bool {
    i.c_node < cp.len() && cp[i.c_node as int] == i.code@
}

/// Adding a record whose cost is the model's cost of its code keeps that so
/// for all records.
proof fn lemma_costs_push<C, M: CostModel<Cost = C>>(model: &M, before: Seq<Vec<Info<C>>>, after: Seq<Vec<Info<C>>>, w: int, x: Info<C>)
    requires
        0 <= w < before.len(),
        after.len() == before.len(),
        forall|n: int| 0 <= n < after.len() && n != w ==> #[trigger] after[n] == before[n],
        after[w]@ == before[w]@.push(x),
        forall|n: int, j: int|
            0 <= n < before.len() && 0 <= j < before[n]@.len() ==> (#[trigger] before[n]@[j]).cost == code_cost(
                model,
                before[n]@[j].code@,
            ),
        x.cost == code_cost(model, x.code@),
    ensures
        forall|n: int, j: int|
            0 <= n < after.len() && 0 <= j < after[n]@.len() ==> (#[trigger] after[n]@[j]).cost == code_cost(
                model,
                after[n]@[j].code@,
            ),
{
    assert forall|n: int, j: int| 0 <= n < after.len() && 0 <= j < after[n]@.len() implies (#[trigger] after[n]@[j]).cost
        == code_cost(model, after[n]@[j].code@) by {
        if n == w {
            if j < before[w]@.len() {
                assert(after[w]@[j] == before[w]@[j]);
            }
        } else {
            assert(after[n] == before[n]);
        }
    }
}

/// Adding a code record whose node is in the grown code trie keeps every record's node right.
proof fn lemma_infos_push_nodes<C>(
    before: Seq<Vec<Info<C>>>,
    after: Seq<Vec<Info<C>>>,
    w: int,
    x: Info<C>,
    old_cp: Seq<Seq<char>>,
    cp: Seq<Seq<char>>,
)
    requires
        0 <= w < before.len(),
        after.len() == before.len(),
        forall|n: int| 0 <= n < after.len() && n != w ==> #[trigger] after[n] == before[n],
        after[w]@ == before[w]@.push(x),
        forall|n: int, j: int| 0 <= n < before.len() && 0 <= j < before[n]@.len() ==> node_ok(#[trigger] before[n]@[j], old_cp),
        old_cp.len() <= cp.len(),
        cp.take(old_cp.len() as int) == old_cp,
        node_ok(x, cp),
    ensures
        forall|n: int, j: int| 0 <= n < after.len() && 0 <= j < after[n]@.len() ==> node_ok(#[trigger] after[n]@[j], cp),
{
    assert forall|n: int, j: int| 0 <= n < after.len() && 0 <= j < after[n]@.len() implies node_ok(#[trigger] after[n]@[j], cp) by {
        let i = after[n]@[j];
        if n == w && j == before[w]@.len() {
        } else {
            if n == w {
                assert(after[w]@[j] == before[w]@[j]);
            } else {
                assert(after[n] == before[n]);
            }
            assert(node_ok(i, old_cp));
            assert(cp.take(old_cp.len() as int)[i.c_node as int] == cp[i.c_node as int]);
        }
    }
}

/// The dictionary: a trie of words, the codes of each word in order, and a
/// trie of all codes.
pub struct TrieDict<C> {
    words: Trie,
    infos: Vec<Vec<Info<C>>>,
    codes: Trie,
}

impl<C: Copy> TrieDict<C> {
    /// The string of each node of the word trie.
    pub closed spec fn word_paths(&self) -> Seq<Seq<char>> {
        self.words.paths()
    }

    /// The string of each node of the code trie.
    pub closed spec fn code_paths(&self) -> Seq<Seq<char>> {
        self.codes.paths()
    }

    /// The codes kept for word node `n`, in order.
    pub closed spec fn info_codes(&self, n: int) -> Seq<Seq<char>> {
        codes_of(self.infos@[n]@)
    }

    /// The costs of the codes kept for word node `n`.
    pub closed spec fn info_costs(&self, n: int) -> Seq<C> {
        self.infos@[n]@.map_values(|i: Info<C>| i.cost)
    }

    /// The code-trie nodes of the codes kept for word node `n`.
    pub closed spec fn info_nodes(&self, n: int) -> Seq<usize> {
        self.infos@[n]@.map_values(|i: Info<C>| i.c_node)
    }

    /// Both tries are well formed, each word node has its list of codes,
    /// and each code record is consistent and names its node in the code trie.
    pub closed spec fn wf(&self) -> bool {
        &&& self.words.wf()
        &&& self.codes.wf()
        &&& self.infos@.len() == self.words.paths().len()
        &&& forall|n: int, j: int|
            0 <= n < self.infos@.len() && 0 <= j < self.infos@[n]@.len() ==> info_ok(
                #[trigger] self.infos@[n]@[j],
            )
        &&& forall|n: int, j: int|
            0 <= n < self.infos@.len() && 0 <= j < self.infos@[n]@.len() ==> node_ok(
                #[trigger] self.infos@[n]@[j],
                self.codes.paths(),
            )
    }

    /// Builds the dictionary from its entries, taken in the given order: each
    /// code is first registered, so that it differs from every code before
    /// it; the word goes into the word trie with the code, its cost and its
    /// node in the code trie; the code goes into the code trie.
    pub fn new<M: CostModel<Cost = C>>(entries: &[Entry], model: &M) -> (d: TrieDict<C>)
        requires
            forall|e: int| 0 <= e < entries@.len() ==> (#[trigger] entries@[e]).code@.len() > 0,
        ensures
            d.wf(),
            forall|w: Seq<char>|
                #[trigger] has_path(d.word_paths(), w) <==> (w.len() == 0 || prefix_of_some(
                    entry_words(entries@),
                    w,
                )),
            forall|w: Seq<char>|
                #[trigger] has_path(d.code_paths(), w) <==> (w.len() == 0 || prefix_of_some(
                    registered(entry_codes(entries@)),
                    w,
                )),
            forall|n: int|
                0 <= n < d.word_paths().len() ==> #[trigger] d.info_codes(n) == codes_for(
                    entry_words(entries@),
                    registered(entry_codes(entries@)),
                    d.word_paths()[n],
                ),
            forall|n: int, t: int|
                0 <= n < d.word_paths().len() && 0 <= t < d.info_codes(n).len() ==> #[trigger] d.info_costs(n)[t]
                    == code_cost(model, d.info_codes(n)[t]),
    {
        let ghost ws = entry_words(entries@);
        let ghost cs = entry_codes(entries@);
        let mut words = Trie::new();
        let mut codes = Trie::new();
        let mut infos: Vec<Vec<Info<C>>> = Vec::new();
        infos.push(Vec::new());
        let mut taken = crate::fx::fx_set_new();
        let mut i: usize = 0;
        proof {
            assert(ws.take(0) =~= Seq::<Seq<char>>::empty());
            assert(cs.take(0) =~= Seq::<Seq<char>>::empty());
            assert(registered(cs.take(0)).to_set() =~= Set::<Seq<char>>::empty());
            assert forall|w: Seq<char>| #[trigger] has_path(words.paths(), w) <==> (w.len() == 0
                || prefix_of_some(ws.take(0), w)) by {
                if w.len() == 0 {
                    assert(words.paths()[0] == w);
                }
            }
            assert forall|w: Seq<char>| #[trigger] has_path(codes.paths(), w) <==> (w.len() == 0
                || prefix_of_some(registered(cs.take(0)), w)) by {
                if w.len() == 0 {
                    assert(codes.paths()[0] == w);
                }
            }
            assert(codes_of(infos@[0]@) =~= codes_for(
                ws.take(0),
                registered(cs.take(0)),
                words.paths()[0],
            ));
        }
        while i < entries.len()
            invariant
                ws == entry_words(entries@),
                cs == entry_codes(entries@),
                0 <= i <= entries.len(),
                words.wf(),
                codes.wf(),
                infos@.len() == words.paths().len(),
                forall|e: int| 0 <= e < entries@.len() ==> (#[trigger] entries@[e]).code@.len() > 0,
                forall|n: int, j: int|
                    0 <= n < infos@.len() && 0 <= j < infos@[n]@.len() ==> info_ok(#[trigger] infos@[n]@[j]),
                string_set_contents(taken) == registered(cs.take(i as int)).to_set(),
                forall|w: Seq<char>|
                    #[trigger] has_path(words.paths(), w) <==> (w.len() == 0 || prefix_of_some(
                        ws.take(i as int),
                        w,
                    )),
                forall|w: Seq<char>|
                    #[trigger] has_path(codes.paths(), w) <==> (w.len() == 0 || prefix_of_some(
                        registered(cs.take(i as int)),
                        w,
                    )),
                forall|n: int|
                    0 <= n < infos@.len() ==> #[trigger] codes_of(infos@[n]@)
                        == codes_for(ws.take(i as int), registered(cs.take(i as int)), words.paths()[n]),
                forall|n: int, j: int|
                    0 <= n < infos@.len() && 0 <= j < infos@[n]@.len() ==> node_ok(#[trigger] infos@[n]@[j], codes.paths()),
                forall|n: int, j: int|
                    0 <= n < infos@.len() && 0 <= j < infos@[n]@.len() ==> (#[trigger] infos@[n]@[j]).cost == code_cost(
                        model,
                        infos@[n]@[j].code@,
                    ),
            decreases entries.len() - i,
        {
            let ghost dsi = registered(cs.take(i as int));
            let ghost wsi = ws.take(i as int);
            proof {
                lemma_registered_len(cs.take(i as int));
                lemma_registered_len(cs.take(i + 1));
                assert(cs.take(i + 1).drop_last() =~= cs.take(i as int));
                assert(ws.take(i + 1) =~= wsi.push(ws[i as int]));
                assert(cs[i as int] == entries@[i as int].code@);
                assert(ws[i as int] == entries@[i as int].word@);
            }
            let d = distinct_and_record(entries[i].code.as_str(), &mut taken);
            proof {
                lemma_first_free_len(dsi.to_set(), cs[i as int], d@);
            }
            let ghost dsi2 = dsi.push(d@);
            proof {
                assert(registered(cs.take(i + 1)) == dsi2);
                dsi.lemma_push_to_set_commute(d@);
                assert(dsi2.to_set() =~= dsi.to_set().insert(d@));
            }
            let wchars = chars_of(entries[i].word.as_str());
            let ghost old_wpaths = words.paths();
            let ghost old_infos = infos@;
            let ghost old_cpaths0 = codes.paths();
            proof {
                words.lemma_root();
            }
            let w_i = words.insert(wchars.as_slice());
            while infos.len() < words.len()
                invariant
                    words.wf(),
                    forall|n: int, j: int|
                        0 <= n < infos@.len() && 0 <= j < infos@[n]@.len() ==> info_ok(#[trigger] infos@[n]@[j]),
                    forall|n: int, j: int|
                        0 <= n < infos@.len() && 0 <= j < infos@[n]@.len() ==> node_ok(#[trigger] infos@[n]@[j], old_cpaths0),
                    old_infos.len() <= infos@.len() <= words.paths().len(),
                    infos@.take(old_infos.len() as int) == old_infos,
                    forall|n: int| old_infos.len() <= n < infos@.len() ==> (#[trigger] infos@[n])@.len() == 0,
                    forall|n: int, j: int|
                        0 <= n < infos@.len() && 0 <= j < infos@[n]@.len() ==> (#[trigger] infos@[n]@[j]).cost == code_cost(
                            model,
                            infos@[n]@[j].code@,
                        ),
                decreases words.paths().len() - infos@.len(),
            {
                infos.push(Vec::new());
                proof {
                    assert(infos@.take(old_infos.len() as int) =~= old_infos);
                }
            }
            let dchars = chars_of(d.as_str());
            let ghost old_cpaths = codes.paths();
            let c_i = codes.insert(dchars.as_slice());
            let cost = seq_cost(model, dchars.as_slice());
            let first = dchars[0];
            let last = dchars[dchars.len() - 1];
            let ghost before_push = infos@;
            let inf = Info { code: d, cost, c_node: c_i, first, last };
            let ghost inf_v = inf;
            infos[w_i].push(inf);
            proof {
                let wp = words.paths();
                let cp = codes.paths();
                assert(wp[w_i as int] == ws[i as int]);
                assert(ws.take(i + 1).last() == ws[i as int]);
                assert(dsi2.last() == d@);
                assert(ws.take(i + 1).drop_last() =~= wsi);
                assert(dsi2.drop_last() =~= dsi);
                assert(ws.take(i + 1).len() > 0);
                assert(infos@ == before_push.update(w_i as int, infos@[w_i as int]));
                assert(infos@[w_i as int]@ == before_push[w_i as int]@.push(inf_v));
                assert(inf_v.code@ == dchars@);
                assert forall|n: int| 0 <= n < old_infos.len() implies #[trigger] before_push[n] == old_infos[n] by {
                    assert(before_push.take(old_infos.len() as int)[n] == before_push[n]);
                }
                assert forall|n: int| 0 <= n < infos@.len() && n != w_i implies #[trigger] infos@[n] == before_push[n] by {}
                lemma_infos_push(before_push, infos@, w_i as int, inf_v);
                lemma_infos_push_nodes(before_push, infos@, w_i as int, inf_v, old_cpaths, cp);
                lemma_costs_push(model, before_push, infos@, w_i as int, inf_v);
                // the word trie
                assert forall|w: Seq<char>| #[trigger] has_path(wp, w) <==> (w.len() == 0
                    || prefix_of_some(ws.take(i + 1), w)) by {
                    lemma_prefix_of_some_push(wsi, ws[i as int], w);
                }
                // the code trie
                assert forall|w: Seq<char>| #[trigger] has_path(cp, w) <==> (w.len() == 0
                    || prefix_of_some(dsi2, w)) by {
                    lemma_prefix_of_some_push(dsi, d@, w);
                }
                // the codes of each word node
                assert forall|n: int| 0 <= n < infos@.len() implies #[trigger] codes_of(infos@[n]@) == codes_for(ws.take(i + 1), dsi2, wp[n]) by {
                    assert(ws.take(i + 1).drop_last() =~= wsi);
                    assert(dsi2.drop_last() =~= dsi);
                    if n < old_infos.len() {
                        assert(wp[n] == old_wpaths[n]) by {
                            assert(wp.take(old_wpaths.len() as int)[n] == wp[n]);
                        }
                        assert(codes_of(old_infos[n]@) == codes_for(wsi, dsi, old_wpaths[n]));
                        if n == w_i {
                            assert(n == w_i as int);
                            assert(infos@[n]@ == before_push[n]@.push(inf_v));
                            assert(before_push[n] == old_infos[n]);
                            lemma_codes_of_push(old_infos[n]@, inf_v);
                        } else {
                            assert(wp[n] != ws[i as int]) by {
                                if wp[n] == ws[i as int] {
                                    words.lemma_distinct(n, w_i as int);
                                }
                            }
                            assert(infos@[n] == old_infos[n]);
                        }
                    } else {
                        // a node new with this word: no earlier word was its string
                        assert forall|e: int| 0 <= e < wsi.len() implies #[trigger] wsi[e] != wp[n] by {
                            if wsi[e] == wp[n] {
                                assert(wsi[e].take(wsi[e].len() as int) =~= wsi[e]);
                                assert(prefix_of_some(wsi, wp[n]));
                                if wp[n].len() == 0 {
                                    words.lemma_root();
                                    assert(wp[n] =~= Seq::<char>::empty());
                                    assert(wp[0] == wp[n]);
                                    assert(old_wpaths.len() >= 1);
                                    assert(old_wpaths.len() <= n);
                                    words.lemma_distinct(0, n);
                                    assert(false);
                                } else {
                                    assert(has_path(old_wpaths, wp[n]));
                                    let m = choose|m: int| 0 <= m < old_wpaths.len() && #[trigger] old_wpaths[m] == wp[n];
                                    assert(wp.take(old_wpaths.len() as int)[m] == wp[m]);
                                    assert(wp[m] == wp[n]);
                                    assert(old_wpaths.len() <= n);
                                    words.lemma_distinct(m, n);
                                    assert(false);
                                }
                            }
                        }
                        lemma_codes_for_absent(wsi, dsi, wp[n]);
                        if n == w_i {
                            assert(infos@[n]@ == before_push[n]@.push(inf_v));
                            assert(before_push[n]@ =~= Seq::<Info<C>>::empty());
                            lemma_codes_of_push(before_push[n]@, inf_v);
                            assert(codes_of(infos@[n]@) =~= seq![inf_v.code@]);
                        } else {
                            assert(wp[n] != ws[i as int]) by {
                                if wp[n] == ws[i as int] {
                                    words.lemma_distinct(n, w_i as int);
                                }
                            }
                            assert(codes_of(infos@[n]@) =~= Seq::<Seq<char>>::empty());
                        }
                    }
                }
            }
            i += 1;
        }
        proof {
            assert(ws.take(i as int) =~= ws);
            assert(cs.take(i as int) =~= cs);
        }
        TrieDict { words, infos, codes }
    }

    /// The word nodes of `text[start..start + 1]`, `text[start..start + 2]`,
    /// ... as far as these are prefixes of dictionary words, and whether the
    /// walk reached the end of `text` at a node that some longer word
    /// continues (a word may be cut off at the end of the text).
    pub fn heads(&self, text: &[char], start: usize) -> (r: (Vec<usize>, bool))
        requires
            self.wf(),
            start <= text@.len(),
        ensures
            r.0@.len() <= text@.len() - start,
            forall|j: int|
                0 <= j < r.0@.len() ==> #[trigger] r.0@[j] < self.word_paths().len()
                    && self.word_paths()[r.0@[j] as int] == text@.subrange(start as int, start + j + 1),
            r.0@.len() < text@.len() - start ==> !has_path(
                self.word_paths(),
                text@.subrange(start as int, start + r.0@.len() + 1),
            ),
            r.1 <==> (r.0@.len() == text@.len() - start && exists|c: char|
                has_path(self.word_paths(), #[trigger] text@.subrange(start as int, text@.len() as int).push(c))),
    {
        let nodes = self.words.walk(text, start);
        let last = if nodes.len() == 0 {
            0
        } else {
            nodes[nodes.len() - 1]
        };
        proof {
            self.words.lemma_root();
            if nodes@.len() == 0 {
                assert(text@.subrange(start as int, start as int) =~= Seq::<char>::empty());
            }
        }
        let truncated = nodes.len() == text.len() - start && self.words.has_children(last);
        proof {
            if nodes@.len() == text@.len() - start {
                assert(self.words.paths()[last as int] == text@.subrange(start as int, text@.len() as int));
            }
        }
        (nodes, truncated)
    }

    /// Number of codes kept for word node `n`.
    pub fn info_count(&self, n: usize) -> (r: usize)
        requires
            self.wf(),
            n < self.word_paths().len(),
        ensures
            r == self.info_codes(n as int).len(),
            r == self.info_nodes(n as int).len(),
    {
        self.infos[n].len()
    }

    /// The `t`-th code kept for word node `n`.
    pub fn info(&self, n: usize, t: usize) -> (r: &Info<C>)
        requires
            self.wf(),
            n < self.word_paths().len(),
            t < self.info_codes(n as int).len(),
        ensures
            r.code@ == self.info_codes(n as int)[t as int],
            r.cost == self.info_costs(n as int)[t as int],
            r.code@.len() > 0,
            r.first == r.code@[0],
            r.last == r.code@.last(),
            r.c_node == self.info_nodes(n as int)[t as int],
            r.c_node < self.code_paths().len(),
            self.code_paths()[r.c_node as int] == r.code@,
    {
        &self.infos[n][t]
    }

    /// Whether the keys of code node `c_node` followed by `c` begin some code:
    /// then a code that ends at that node must be confirmed with a space
    /// before `c` is typed.
    pub fn need_space(&self, c_node: usize, c: char) -> (r: bool)
        requires
            self.wf(),
            c_node < self.code_paths().len(),
        ensures
            r == has_path(self.code_paths(), self.code_paths()[c_node as int].push(c)),
    {
        self.codes.child(c_node, c).is_some()
    }

    /// The strings of the word trie are closed under prefixes, and no two of
    /// its nodes share one.
    pub proof fn lemma_word_paths(&self, w: Seq<char>, i: int)
        requires
            self.wf(),
            has_path(self.word_paths(), w),
            0 <= i <= w.len(),
        ensures
            has_path(self.word_paths(), w.take(i)),
            forall|m1: int, m2: int|
                0 <= m1 < self.word_paths().len() && 0 <= m2 < self.word_paths().len() && #[trigger] self.word_paths()[m1]
                    == #[trigger] self.word_paths()[m2] ==> m1 == m2,
    {
        self.words.lemma_prefix_closed(w, i);
        assert forall|m1: int, m2: int|
            0 <= m1 < self.word_paths().len() && 0 <= m2 < self.word_paths().len() && #[trigger] self.word_paths()[m1]
                == #[trigger] self.word_paths()[m2] implies m1 == m2 by {
            self.words.lemma_distinct(m1, m2);
        }
    }

    /// Node 0 of each trie is the empty string.
    pub proof fn lemma_roots(&self)
        requires
            self.wf(),
        ensures
            self.word_paths().len() >= 1,
            self.word_paths()[0] == Seq::<char>::empty(),
            self.code_paths().len() >= 1,
            self.code_paths()[0] == Seq::<char>::empty(),
    {
        self.words.lemma_root();
        self.codes.lemma_root();
    }

    /// The code nodes are within the code trie, and each is the node of its code.
    pub proof fn lemma_infos(&self, n: int, t: int)
        requires
            self.wf(),
            0 <= n < self.word_paths().len(),
            0 <= t < self.info_codes(n).len(),
        ensures
            self.info_nodes(n).len() == self.info_codes(n).len(),
            self.info_nodes(n)[t] < self.code_paths().len(),
            self.code_paths()[self.info_nodes(n)[t] as int] == self.info_codes(n)[t],
            self.info_codes(n)[t].len() > 0,
    {
        assert(self.infos@[n]@[t].c_node < self.codes.paths().len());
    }
}

} // verus!
