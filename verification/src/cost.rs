use crate::fx::{fx_pair_get, FxPairMap};
use crate::text::{chars_of, string_from_chars};
use vstd::prelude::*;

verus! {

/// The integer that stands for the ordered key pair `(a, b)`: the code of `a`
/// in the upper 32 bits and the code of `b` in the lower 32 bits.
pub open spec fn pair_key(a: char, b: char) -> u64 {
    ((a as u64) * 0x1_0000_0000 + (b as u64)) as u64
}

/// Packs an ordered key pair into one `u64`.
pub fn pack(a: char, b: char) -> (r: u64)
    ensures
        r == pair_key(a, b),
        r == (a as int) * 0x1_0000_0000 + (b as int),
{
    let x: u64 = a as u64;
    let y: u64 = b as u64;
    assert(x < 0x1_0000_0000 && y < 0x1_0000_0000);
    assert((x << 32u64) | y == x * 0x1_0000_0000 + y) by (bit_vector)
        requires
            x < 0x1_0000_0000,
            y < 0x1_0000_0000,
    ;
    (x << 32u64) | y
}

/// Different key pairs pack into different integers, so a pair is found
/// again by its packed key.
pub proof fn lemma_pair_key_injective(a: char, b: char, c: char, d: char)
    requires
        pair_key(a, b) == pair_key(c, d),
    ensures
        a == c,
        b == d,
{
    let (x, y, u, v) = (a as int, b as int, c as int, d as int);
    assert(0 <= x < 0x110000 && 0 <= y < 0x110000 && 0 <= u < 0x110000 && 0 <= v < 0x110000);
    assert(x * 0x1_0000_0000 + y == u * 0x1_0000_0000 + v) by {
        assert(x * 0x1_0000_0000 + y < 0x1_0000_0000_0000_0000) by (nonlinear_arith)
            requires 0 <= x < 0x110000, 0 <= y < 0x110000;
        assert(u * 0x1_0000_0000 + v < 0x1_0000_0000_0000_0000) by (nonlinear_arith)
            requires 0 <= u < 0x110000, 0 <= v < 0x110000;
    }
    assert(x == u && y == v) by (nonlinear_arith)
        requires
            x * 0x1_0000_0000 + y == u * 0x1_0000_0000 + v,
            0 <= y < 0x1_0000_0000,
            0 <= v < 0x1_0000_0000,
            0 <= x,
            0 <= u,
    ;
}

/// The cost of typing `b` right after `a` from a table of pair costs: the
/// cost stored under the pair, or `mean` for a pair the table does not name.
pub fn pair_cost<V: Copy>(table: &FxPairMap<V>, mean: V, a: char, b: char) -> (r: V)
    ensures
        r == (if table@.contains_key(pair_key(a, b)) {
            table@[pair_key(a, b)]
        } else {
            mean
        }),
{
    match fx_pair_get(table, pack(a, b)) {
        Some(v) => v,
        None => mean,
    }
}

/// What a line of the cost table gives: the key pair and the text of its
/// cost. The key column is what stands before the first tab; only a column
/// of exactly two keys gives a pair.
pub open spec fn cost_line(l: Seq<char>) -> Option<(char, char, Seq<char>)> {
    if l.len() >= 3 && l[0] != '\t' && l[1] != '\t' && l[2] == '\t' {
        Some((l[0], l[1], l.skip(3)))
    } else {
        None
    }
}

/// Splits a line of the cost table into its key pair and the text of its cost.
pub fn parse_cost_line(line: &str) -> (r: Option<(char, char, String)>)
    ensures
        match r {
            Some((a, b, v)) => cost_line(line@) == Some((a, b, v@)),
            None => cost_line(line@) is None,
        },
{
    let mut v = chars_of(line);
    if v.len() >= 3 && v[0] != '\t' && v[1] != '\t' && v[2] == '\t' {
        let a = v[0];
        let b = v[1];
        let rest = v.split_off(3);
        let value = string_from_chars(rest.as_slice());
        proof {
            assert(rest@ =~= line@.skip(3));
        }
        Some((a, b, value))
    } else {
        None
    }
}

/// Why a cost table is refused.
#[derive(Debug, Clone, Copy, PartialEq, Eq, Structural)]
pub enum CostTableError {
    /// No line gives a key pair with a readable cost.
    NoPairs,
    /// The pair at index `later` repeats the pair at index `earlier`.
    Duplicate(usize, usize),
}

/// The key at index `i` occurs before it.
pub open spec fn repeats_at(keys: Seq<u64>, i: int) -> bool {
    exists|j: int| 0 <= j < i && keys[j] == keys[i]
}

/// Checks the packed key pairs of a cost table, in the order of its lines:
/// refused when there is none, or at the first pair that repeats an earlier
/// one, with the index of both.
pub fn check_pairs(keys: &[u64]) -> (r: Result<(), CostTableError>)
    ensures
        match r {
            Ok(()) => keys@.len() > 0 && forall|i: int| 0 <= i < keys@.len() ==> !#[trigger] repeats_at(keys@, i),
            Err(CostTableError::NoPairs) => keys@.len() == 0,
            Err(CostTableError::Duplicate(j, i)) => {
                &&& j < i < keys@.len()
                &&& keys@[j as int] == keys@[i as int]
                &&& forall|k: int| 0 <= k < i ==> !#[trigger] repeats_at(keys@, k)
            },
        },
{
    if keys.len() == 0 {
        return Err(CostTableError::NoPairs);
    }
    let mut i: usize = 0;
    while i < keys.len()
        invariant
            i <= keys@.len(),
            forall|k: int| 0 <= k < i ==> !#[trigger] repeats_at(keys@, k),
        decreases keys@.len() - i,
    {
        let mut j: usize = 0;
        while j < i
            invariant
                j <= i < keys@.len(),
                forall|m: int| 0 <= m < j ==> keys@[m] != keys@[i as int],
                forall|k: int| 0 <= k < i ==> !#[trigger] repeats_at(keys@, k),
            decreases i - j,
        {
            if keys[j] == keys[i] {
                return Err(CostTableError::Duplicate(j, i));
            }
            j += 1;
        }
        proof {
            assert(!repeats_at(keys@, i as int));
        }
        i += 1;
    }
    Ok(())
}


/// The costs of typing: what one key after another costs, how costs add up
/// and compare. Each method answers as its spec function says: a cost model
/// is a set of functions of their arguments. The program's model adds and
/// compares floating-point costs outside the library; that it meets these
/// clauses (it is deterministic) is not checked here.
pub trait CostModel {
    /// A cost.
    type Cost: Copy;

    /// The cost of typing key `b` right after key `a`.
    spec fn spec_pair(&self, a: char, b: char) -> Self::Cost;

    /// The cost of typing nothing.
    spec fn spec_zero(&self) -> Self::Cost;

    /// A cost that the search for the cheapest starts from.
    spec fn spec_infinity(&self) -> Self::Cost;

    /// The sum of two costs.
    spec fn spec_add(&self, a: Self::Cost, b: Self::Cost) -> Self::Cost;

    /// `a` is cheaper than `b`.
    spec fn spec_less(&self, a: Self::Cost, b: Self::Cost) -> bool;

    /// `a` comes before `b` in the total order of costs.
    spec fn spec_total_less(&self, a: Self::Cost, b: Self::Cost) -> bool;

    /// The cost of typing key `b` right after key `a`.
    fn pair(&self, a: char, b: char) -> (r: Self::Cost)
        ensures
            r == self.spec_pair(a, b),
    ;

    /// The cost of typing nothing.
    fn zero(&self) -> (r: Self::Cost)
        ensures
            r == self.spec_zero(),
    ;

    /// A cost that the search for the cheapest starts from.
    fn infinity(&self) -> (r: Self::Cost)
        ensures
            r == self.spec_infinity(),
    ;

    /// The sum of two costs.
    fn add(&self, a: Self::Cost, b: Self::Cost) -> (r: Self::Cost)
        ensures
            r == self.spec_add(a, b),
    ;

    /// `a` is cheaper than `b`.
    fn less(&self, a: Self::Cost, b: Self::Cost) -> (r: bool)
        ensures
            r == self.spec_less(a, b),
    ;

    /// `a` comes before `b` in the total order of costs.
    fn total_less(&self, a: Self::Cost, b: Self::Cost) -> (r: bool)
        ensures
            r == self.spec_total_less(a, b),
    ;
}

/// The cost of typing the keys of `code` one after another: the costs of its
/// successive key pairs, added from left to right to the cost of nothing.
pub open spec fn code_cost<M: CostModel>(model: &M, code: Seq<char>) -> M::Cost
    decreases code.len(),
{
    if code.len() <= 1 {
        model.spec_zero()
    } else {
        model.spec_add(
            code_cost(model, code.drop_last()),
            model.spec_pair(code[code.len() - 2], code[code.len() - 1]),
        )
    }
}

/// Costs that add up like numbers: adding nothing changes no cost, and
/// the order in which three costs are added does not matter.
#[verifier::opaque]
pub open spec fn adds_up<M: CostModel>(model: &M) -> bool {
    &&& forall|a: M::Cost| #[trigger] model.spec_add(model.spec_zero(), a) == a
    &&& forall|a: M::Cost| #[trigger] model.spec_add(a, model.spec_zero()) == a
    &&& forall|a: M::Cost, b: M::Cost, c: M::Cost|
        #[trigger] model.spec_add(model.spec_add(a, b), c) == model.spec_add(a, model.spec_add(b, c))
}

/// Every successive pair of keys counts, two equal keys included: a code
/// of one key costs nothing, a code of two keys `a b` costs the pair
/// `(a, b)` added to nothing, and one more key adds the pair of the last
/// key and the new one.
pub proof fn lemma_code_cost_pairs<M: CostModel>(model: &M, code: Seq<char>, a: char, b: char, c: char)
    ensures
        code_cost(model, seq![a]) == model.spec_zero(),
        code_cost(model, seq![a, b]) == model.spec_add(model.spec_zero(), model.spec_pair(a, b)),
        code.len() >= 1 ==> code_cost(model, code.push(c)) == model.spec_add(
            code_cost(model, code),
            model.spec_pair(code.last(), c),
        ),
        adds_up(model) ==> code_cost(model, seq![a, b]) == model.spec_pair(a, b),
{
    reveal(adds_up);
    assert(code_cost(model, seq![a]) == model.spec_zero());
    assert(seq![a, b].drop_last() =~= seq![a]);
    assert(seq![a, b][0] == a && seq![a, b][1] == b);
    assert(code_cost(model, seq![a, b]) == model.spec_add(code_cost(model, seq![a]), model.spec_pair(a, b)));
    if code.len() >= 1 {
        assert(code.push(c).drop_last() =~= code);
    }
}

/// The cost of two codes typed one after the other is the cost of the
/// first, then the pair that leads from its last key to the first key of
/// the second, then the cost of the second.
pub proof fn lemma_code_cost_concat<M: CostModel>(model: &M, x: Seq<char>, y: Seq<char>)
    requires
        adds_up(model),
        x.len() >= 1,
        y.len() >= 1,
    ensures
        code_cost(model, x + y) == model.spec_add(
            model.spec_add(code_cost(model, x), model.spec_pair(x.last(), y[0])),
            code_cost(model, y),
        ),
    decreases y.len(),
{
    reveal(adds_up);
    if y.len() == 1 {
        assert((x + y).drop_last() =~= x);
        assert(code_cost(model, y) == model.spec_zero());
    } else {
        let y1 = y.drop_last();
        lemma_code_cost_concat(model, x, y1);
        assert((x + y).drop_last() =~= x + y1);
        assert((x + y)[(x + y).len() - 2] == y1.last());
        assert(y[y.len() - 2] == y1.last());
        let cx = model.spec_add(code_cost(model, x), model.spec_pair(x.last(), y[0]));
        assert(y1[0] == y[0]);
        assert(model.spec_add(model.spec_add(cx, code_cost(model, y1)), model.spec_pair(y1.last(), y.last()))
            == model.spec_add(cx, model.spec_add(code_cost(model, y1), model.spec_pair(y1.last(), y.last()))));
    }
}

/// With every key pair costing the same, the cost of typing keys depends
/// on their number alone: two runs of keys of one length cost the same.
pub proof fn lemma_equal_pairs<M: CostModel>(model: &M, x: Seq<char>, y: Seq<char>)
    requires
        forall|a: char, b: char, c: char, d: char| #[trigger] model.spec_pair(a, b) == #[trigger] model.spec_pair(c, d),
        x.len() == y.len(),
    ensures
        code_cost(model, x) == code_cost(model, y),
    decreases x.len(),
{
    if x.len() > 1 {
        lemma_equal_pairs(model, x.drop_last(), y.drop_last());
        assert(model.spec_pair(x[x.len() - 2], x[x.len() - 1]) == model.spec_pair(y[y.len() - 2], y[y.len() - 1]));
    }
}

/// Where costs add up like numbers, nothing can be dropped and additions
/// can be grouped anew.
pub proof fn lemma_regroup<M: CostModel>(model: &M, a: M::Cost, b: M::Cost, c: M::Cost, d: M::Cost, e: M::Cost)
    requires
        adds_up(model),
    ensures
        model.spec_add(a, model.spec_zero()) == a,
        model.spec_add(model.spec_zero(), a) == a,
        model.spec_add(model.spec_add(a, b), c) == model.spec_add(a, model.spec_add(b, c)),
        model.spec_add(model.spec_add(model.spec_add(a, b), c), d) == model.spec_add(
            a,
            model.spec_add(model.spec_add(b, c), d),
        ),
        model.spec_add(model.spec_add(model.spec_add(a, b), model.spec_add(c, d)), e) == model.spec_add(
            a,
            model.spec_add(model.spec_add(b, c), model.spec_add(d, e)),
        ),
{
    reveal(adds_up);
    assert(model.spec_add(model.spec_add(model.spec_add(a, b), c), d) == model.spec_add(model.spec_add(a, model.spec_add(b, c)), d));
    assert(model.spec_add(model.spec_add(a, model.spec_add(b, c)), d) == model.spec_add(a, model.spec_add(model.spec_add(b, c), d)));
    let cd = model.spec_add(c, d);
    assert(model.spec_add(model.spec_add(model.spec_add(a, b), cd), e) == model.spec_add(model.spec_add(a, b), model.spec_add(cd, e)));
    assert(model.spec_add(model.spec_add(a, b), model.spec_add(cd, e)) == model.spec_add(a, model.spec_add(b, model.spec_add(cd, e))));
    assert(model.spec_add(cd, e) == model.spec_add(c, model.spec_add(d, e)));
    assert(model.spec_add(model.spec_add(b, c), model.spec_add(d, e)) == model.spec_add(b, model.spec_add(c, model.spec_add(d, e))));
}

/// The cost of typing the keys of `code` one after another: the sum of the
/// costs of its successive key pairs.
pub(crate) fn seq_cost<M: CostModel>(model: &M, code: &[char]) -> (r: M::Cost)
    ensures
        r == code_cost(model, code@),
{
    let mut sum = model.zero();
    if code.len() > 0 {
        let mut c0 = code[0];
        let mut i: usize = 1;
        proof {
            assert(code@.take(1).len() == 1);
        }
        while i < code.len()
            invariant
                1 <= i <= code.len(),
                c0 == code@[i - 1],
                sum == code_cost(model, code@.take(i as int)),
            decreases code.len() - i,
        {
            let c1 = code[i];
            sum = model.add(sum, model.pair(c0, c1));
            proof {
                let t = code@.take(i + 1);
                assert(t.drop_last() =~= code@.take(i as int));
                assert(t[t.len() - 2] == c0 && t[t.len() - 1] == c1);
            }
            c0 = c1;
            i += 1;
        }
        proof {
            assert(code@.take(i as int) =~= code@);
        }
    }
    sum
}

} // verus!
