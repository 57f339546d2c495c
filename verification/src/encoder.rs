//! The encoder: the cheapest typing of a text under the dictionary, found by
//! dynamic programming over the positions of the text, chunk by chunk.
use crate::cost::{adds_up, code_cost, lemma_code_cost_concat, lemma_code_cost_pairs, lemma_regroup, CostModel};
use crate::dict::TrieDict;
use crate::text::{chars_of, string_from_chars};
use crate::trie::has_path;
use vstd::prelude::*;
use vstd::calc;

verus! {

/// What one step of a typing types: a single character as it is, or the
/// `t`-th code of word node `n`.
#[derive(Clone, Copy)]
pub enum Piece {
    Raw,
    Code(usize, usize),
}

/// A way of reaching a position of the text: the step that ends there.
#[derive(Clone, Copy)]
pub struct State<C> {
    /// How many characters back the step starts.
    pub back: usize,
    /// Which state, at the position where the step starts, it follows.
    pub from: usize,
    /// The last key of the step.
    pub last: char,
    /// The node of the step's code in the code trie (0 for a raw character).
    pub node: usize,
    /// What the step types.
    pub piece: Piece,
    /// A space is typed before the step.
    pub space: bool,
    /// A space is typed after the step (it ends the text).
    pub trail: bool,
    /// The cost of the whole typing up to here.
    pub cost: C,
}

/// The keys that the step of `s`, ending at position `p`, types.
pub open spec fn piece_text<C: Copy>(dict: TrieDict<C>, text: Seq<char>, p: int, s: State<C>) -> Seq<char> {
    match s.piece {
        Piece::Raw => seq![text[p - 1]],
        Piece::Code(n, t) => dict.info_codes(n as int)[t as int],
    }
}

/// After a code that ends at code node `node`, typing `c` needs a space first:
/// the code's keys followed by `c` begin another code.
pub open spec fn space_needed<C: Copy>(dict: TrieDict<C>, node: usize, c: char) -> bool {
    node > 0 && has_path(dict.code_paths(), dict.code_paths()[node as int].push(c))
}

/// The state's key names a node of the code trie.
pub open spec fn key_ok<C: Copy>(dict: TrieDict<C>, s: State<C>) -> bool {
    s.node < dict.code_paths().len()
}

/// State `s` at position `p` is a step of a typing: it follows a state `d`
/// characters back; it types the character there or a code of the word
/// there; its key is the last key of what it types; it starts with a space
/// exactly when the state it follows needs one.
pub open spec fn state_ok<C: Copy>(
    dict: TrieDict<C>,
    text: Seq<char>,
    states: Seq<Seq<State<C>>>,
    p: int,
    s: State<C>,
) -> bool {
    let d = s.back as int;
    let i = s.from as int;
    &&& 1 <= d <= p
    &&& i < states[p - d].len()
    &&& key_ok(dict, s)
    &&& match s.piece {
        Piece::Raw => d == 1 && s.last == text[p - 1] && s.node == 0,
        Piece::Code(n, t) => {
            &&& n < dict.word_paths().len()
            &&& t < dict.info_codes(n as int).len()
            &&& dict.word_paths()[n as int] == text.subrange(p - d, p)
            &&& s.last == dict.info_codes(n as int)[t as int].last()
            &&& s.node == dict.info_nodes(n as int)[t as int]
        },
    }
    &&& s.space == space_needed(dict, states[p - d][i].node, piece_text(dict, text, p, s)[0])
}

/// The steps, first to last, of the typing that ends with state `j` at position `p`.
pub open spec fn chain<C: Copy>(states: Seq<Seq<State<C>>>, p: int, j: int) -> Seq<(int, int)>
    decreases p,
{
    if p <= 0 || j < 0 || j >= states[p].len() {
        Seq::empty()
    } else {
        let d = states[p][j].back as int;
        if d < 1 || d > p {
            Seq::empty()
        } else {
            chain(states, p - d, states[p][j].from as int).push((p, j))
        }
    }
}

/// What one step types, with its spaces.
pub open spec fn step_text<C: Copy>(
    dict: TrieDict<C>,
    text: Seq<char>,
    states: Seq<Seq<State<C>>>,
    link: (int, int),
) -> Seq<char> {
    let s = states[link.0][link.1];
    (if s.space {
        seq![' ']
    } else {
        Seq::empty()
    }) + piece_text(dict, text, link.0, s) + (if s.trail {
        seq![' ']
    } else {
        Seq::empty()
    })
}

/// What a sequence of steps types.
pub open spec fn render<C: Copy>(
    dict: TrieDict<C>,
    text: Seq<char>,
    states: Seq<Seq<State<C>>>,
    links: Seq<(int, int)>,
) -> Seq<char>
    decreases links.len(),
{
    if links.len() == 0 {
        Seq::empty()
    } else {
        render(dict, text, states, links.drop_last()) + step_text(dict, text, states, links.last())
    }
}

/// The step that `links[k]` follows: the previous link, or the root at
/// position 0.
pub open spec fn pred_of<C: Copy>(states: Seq<Seq<State<C>>>, links: Seq<(int, int)>, k: int) -> State<C> {
    if k == 0 {
        states[0][0]
    } else {
        states[links[k - 1].0][links[k - 1].1]
    }
}

/// `links` is a typing of `text[..p]`: its steps follow each other from
/// position 0 to `p`; each types the stretch of text it covers, either the
/// single character as it is or a code of the dictionary word that the
/// stretch spells; and each begins with a space exactly when the code before
/// it, followed by its first key, would begin another code.
pub open spec fn types_text<C: Copy>(
    dict: TrieDict<C>,
    text: Seq<char>,
    states: Seq<Seq<State<C>>>,
    links: Seq<(int, int)>,
    p: int,
) -> bool {
    &&& links.len() == 0 ==> p == 0
    &&& links.len() > 0 ==> links.last().0 == p
    &&& forall|k: int|
        0 <= k < links.len() ==> {
            let q = (#[trigger] links[k]).0;
            let s = states[q][links[k].1];
            &&& 0 <= links[k].1 < states[q].len()
            &&& 1 <= s.back <= q
            &&& (k == 0 ==> q - s.back == 0 && s.from == 0)
            &&& (k > 0 ==> q - s.back == links[k - 1].0 && s.from == links[k - 1].1)
            &&& match s.piece {
                Piece::Raw => s.back == 1 && piece_text(dict, text, q, s) == seq![text[q - 1]],
                Piece::Code(n, t) => {
                    &&& n < dict.word_paths().len()
                    &&& t < dict.info_codes(n as int).len()
                    &&& dict.word_paths()[n as int] == text.subrange(q - s.back, q)
                    &&& piece_text(dict, text, q, s) == dict.info_codes(n as int)[t as int]
                },
            }
            &&& s.space == space_needed(dict, pred_of(states, links, k).node, piece_text(dict, text, q, s)[0])
        }
}

/// The cost of going from key `c0` to key `c1`, with a space between them
/// when `space`; nothing after the start of the text.
pub open spec fn delta_cost<M: CostModel>(model: &M, c0: char, c1: char, space: bool) -> M::Cost {
    if c0 == '\0' {
        model.spec_zero()
    } else if space {
        model.spec_add(model.spec_pair(c0, ' '), model.spec_pair(' ', c1))
    } else {
        model.spec_pair(c0, c1)
    }
}

/// The states at a position after `st` is offered: the state with the same
/// key is replaced when `st` is cheaper and kept otherwise (the first one
/// stays on a tie); without one, `st` is added.
pub open spec fn placed<M: CostModel>(model: &M, v: Seq<State<M::Cost>>, st: State<M::Cost>) -> Seq<State<M::Cost>> {
    if exists|k: int| 0 <= k < v.len() && same_key(#[trigger] v[k], st) {
        let k = choose|k: int| 0 <= k < v.len() && same_key(#[trigger] v[k], st);
        if model.spec_less(st.cost, v[k].cost) {
            v.update(k, st)
        } else {
            v
        }
    } else {
        v.push(st)
    }
}

/// The states at a position after the steps `steps` are offered in order.
pub open spec fn placed_all<M: CostModel>(model: &M, v: Seq<State<M::Cost>>, steps: Seq<State<M::Cost>>) -> Seq<State<M::Cost>>
    decreases steps.len(),
{
    if steps.len() == 0 {
        v
    } else {
        placed(model, placed_all(model, v, steps.drop_last()), steps.last())
    }
}

/// The step from state `i` at `cur` with the `t`-th code of word node
/// `node`, whose word is the next `wl` characters: it follows that state,
/// leaves the code's key, needs a space when that state's code followed by
/// the first key of this one begins another code, and costs that state's
/// cost, then the move to the code, then the code's own cost.
pub open spec fn code_step<M: CostModel>(
    model: &M,
    dict: TrieDict<M::Cost>,
    st: Seq<Seq<State<M::Cost>>>,
    cur: int,
    wl: int,
    node: int,
    t: int,
    i: int,
) -> State<M::Cost> {
    let s = st[cur][i];
    let code = dict.info_codes(node)[t];
    let space = s.node > 0 && space_needed(dict, s.node, code[0]);
    State {
        back: wl as usize,
        from: i as usize,
        last: code.last(),
        node: dict.info_nodes(node)[t],
        piece: Piece::Code(node as usize, t as usize),
        space,
        trail: false,
        cost: model.spec_add(model.spec_add(s.cost, delta_cost(model, s.last, code[0], space)), dict.info_costs(node)[t]),
    }
}

/// What `raw_choice` finds is the model's infinity at the first state, or
/// the cost of the raw step from the state it names.
proof fn lemma_raw_choice_shape<M: CostModel>(model: &M, dict: TrieDict<M::Cost>, v: Seq<State<M::Cost>>, c1: char)
    ensures
        ({
            let (i, c) = raw_choice(model, dict, v, c1);
            (i == 0 && c == model.spec_infinity()) || (0 <= i < v.len() && c == model.spec_add(
                v[i].cost,
                delta_cost(model, v[i].last, c1, v[i].node > 0 && space_needed(dict, v[i].node, c1)),
            ))
        }),
    decreases v.len(),
{
    if v.len() > 0 {
        lemma_raw_choice_shape(model, dict, v.drop_last(), c1);
        let (i, c) = raw_choice(model, dict, v.drop_last(), c1);
        if i < v.len() - 1 {
            assert(v.drop_last()[i] == v[i]);
        }
    }
}

/// Which state of `v` a raw step over `c1` follows, and at what cost: the
/// states are tried in order, starting from the model's infinity, and one
/// is taken when the model calls its cost (its own cost, then the move to
/// `c1`) cheaper than the best before it; the first stays on a tie.
pub open spec fn raw_choice<M: CostModel>(model: &M, dict: TrieDict<M::Cost>, v: Seq<State<M::Cost>>, c1: char) -> (int, M::Cost)
    decreases v.len(),
{
    if v.len() == 0 {
        (0, model.spec_infinity())
    } else {
        let prev = raw_choice(model, dict, v.drop_last(), c1);
        let s = v.last();
        let sp = s.node > 0 && space_needed(dict, s.node, c1);
        let c = model.spec_add(s.cost, delta_cost(model, s.last, c1, sp));
        if model.spec_less(c, prev.1) {
            (v.len() - 1, c)
        } else {
            prev
        }
    }
}

/// The raw step over `c1` from the states `v`: it follows the state that
/// `raw_choice` picks, at the cost found there.
pub open spec fn raw_step<M: CostModel>(model: &M, dict: TrieDict<M::Cost>, v: Seq<State<M::Cost>>, c1: char) -> State<M::Cost> {
    let (i, c) = raw_choice(model, dict, v, c1);
    State {
        back: 1,
        from: i as usize,
        last: c1,
        node: 0,
        piece: Piece::Raw,
        space: v[i].node > 0 && space_needed(dict, v[i].node, c1),
        trail: false,
        cost: c,
    }
}

/// State `s` closed at the end of the text: a space follows when one is
/// needed, and the cost of typing it is added.
pub open spec fn closed<M: CostModel>(model: &M, s: State<M::Cost>) -> State<M::Cost> {
    let trail = trail_needed(s.last, s.node);
    State {
        trail,
        cost: if trail {
            model.spec_add(s.cost, model.spec_pair(s.last, ' '))
        } else {
            s.cost
        },
        ..s
    }
}

/// Which state of `v` ends the text: the states, closed, are tried in
/// order from the first, and a later one is taken when the model's total
/// order puts its cost before that of the best so far.
pub open spec fn end_choice<M: CostModel>(model: &M, v: Seq<State<M::Cost>>) -> int
    decreases v.len(),
{
    if v.len() <= 1 {
        0
    } else {
        let b = end_choice(model, v.drop_last());
        if model.spec_total_less(closed(model, v.last()).cost, closed(model, v[b]).cost) {
            v.len() - 1
        } else {
            b
        }
    }
}

/// Where the model's total order is a strict order, no state closes the
/// text at a cost that comes before that of the state `end_choice` takes.
pub proof fn lemma_end_choice_least<M: CostModel>(model: &M, v: Seq<State<M::Cost>>)
    requires
        v.len() > 0,
        forall|a: M::Cost| !#[trigger] model.spec_total_less(a, a),
        forall|a: M::Cost, b: M::Cost, c: M::Cost|
            #[trigger] model.spec_total_less(a, b) && #[trigger] model.spec_total_less(b, c) ==> model.spec_total_less(a, c),
    ensures
        0 <= end_choice(model, v) < v.len(),
        forall|j: int|
            0 <= j < v.len() ==> !model.spec_total_less(
                #[trigger] closed(model, v[j]).cost,
                closed(model, v[end_choice(model, v)]).cost,
            ),
    decreases v.len(),
{
    if v.len() > 1 {
        let w = v.drop_last();
        lemma_end_choice_least(model, w);
        let b = end_choice(model, w);
        let cb = closed(model, v[b]).cost;
        let x = closed(model, v.last()).cost;
        assert(w[b] == v[b]);
        assert forall|j: int| 0 <= j < v.len() implies !model.spec_total_less(
            #[trigger] closed(model, v[j]).cost,
            closed(model, v[end_choice(model, v)]).cost,
        ) by {
            if j < v.len() - 1 {
                assert(w[j] == v[j]);
                assert(!model.spec_total_less(closed(model, w[j]).cost, cb));
                if model.spec_total_less(x, cb) && model.spec_total_less(closed(model, v[j]).cost, x) {
                    assert(model.spec_total_less(closed(model, v[j]).cost, cb));
                }
            }
        }
    }
}

/// Where the model's `less` is a strict order, no state at `cur` gives the
/// raw step over `c1` a cost cheaper than the one `raw_choice` finds.
pub proof fn lemma_raw_choice_least<M: CostModel>(model: &M, dict: TrieDict<M::Cost>, v: Seq<State<M::Cost>>, c1: char)
    requires
        forall|a: M::Cost| !#[trigger] model.spec_less(a, a),
        forall|a: M::Cost, b: M::Cost, c: M::Cost|
            #[trigger] model.spec_less(a, b) && #[trigger] model.spec_less(b, c) ==> model.spec_less(a, c),
    ensures
        forall|j: int|
            0 <= j < v.len() ==> !model.spec_less(
                model.spec_add(
                    (#[trigger] v[j]).cost,
                    delta_cost(model, v[j].last, c1, v[j].node > 0 && space_needed(dict, v[j].node, c1)),
                ),
                raw_choice(model, dict, v, c1).1,
            ),
    decreases v.len(),
{
    if v.len() > 0 {
        let w = v.drop_last();
        lemma_raw_choice_least(model, dict, w, c1);
        let cb = raw_choice(model, dict, w, c1).1;
        let s = v.last();
        let x = model.spec_add(s.cost, delta_cost(model, s.last, c1, s.node > 0 && space_needed(dict, s.node, c1)));
        assert forall|j: int| 0 <= j < v.len() implies !model.spec_less(
            model.spec_add(
                (#[trigger] v[j]).cost,
                delta_cost(model, v[j].last, c1, v[j].node > 0 && space_needed(dict, v[j].node, c1)),
            ),
            raw_choice(model, dict, v, c1).1,
        ) by {
            if j < v.len() - 1 {
                assert(w[j] == v[j]);
                let cj = model.spec_add(v[j].cost, delta_cost(model, v[j].last, c1, v[j].node > 0 && space_needed(dict, v[j].node, c1)));
                assert(!model.spec_less(cj, cb));
                if model.spec_less(x, cb) && model.spec_less(cj, x) {
                    assert(model.spec_less(cj, cb));
                }
            }
        }
    }
}

/// Where the model's `less` is a strict order, offering a step leaves a state
/// with its key that is no costlier than the step.
pub proof fn lemma_placed_no_costlier<M: CostModel>(model: &M, v: Seq<State<M::Cost>>, st: State<M::Cost>)
    requires
        forall|a: M::Cost| !#[trigger] model.spec_less(a, a),
    ensures
        exists|k: int|
            0 <= k < placed(model, v, st).len() && same_key(#[trigger] placed(model, v, st)[k], st) && !model.spec_less(
                st.cost,
                placed(model, v, st)[k].cost,
            ),
{
    let r = placed(model, v, st);
    if exists|k: int| 0 <= k < v.len() && same_key(#[trigger] v[k], st) {
        let k = choose|k: int| 0 <= k < v.len() && same_key(#[trigger] v[k], st);
        assert(same_key(r[k], st) && !model.spec_less(st.cost, r[k].cost));
    } else {
        assert(r[v.len() as int] == st);
        assert(same_key(r[v.len() as int], st));
    }
}

/// What state `s` at position `p` costs by the step it makes: the cost of
/// the state it follows, then the move to its first key (with a space when
/// it needs one), then its code's own cost; with the closing space, when it
/// ends the text, added last.
pub open spec fn step_cost<M: CostModel>(
    model: &M,
    dict: TrieDict<M::Cost>,
    text: Seq<char>,
    st: Seq<Seq<State<M::Cost>>>,
    p: int,
    s: State<M::Cost>,
) -> M::Cost {
    let r = st[p - s.back][s.from as int];
    let base = match s.piece {
        Piece::Raw => model.spec_add(r.cost, delta_cost(model, r.last, text[p - 1], s.space)),
        Piece::Code(n, t) => model.spec_add(
            model.spec_add(r.cost, delta_cost(model, r.last, dict.info_codes(n as int)[t as int][0], s.space)),
            dict.info_costs(n as int)[t as int],
        ),
    };
    if s.trail {
        model.spec_add(base, model.spec_pair(s.last, ' '))
    } else {
        base
    }
}

/// State `s` at `p` costs what its step costs; a raw step may instead
/// carry the model's infinity, where no state it could follow was cheaper
/// than that.
pub open spec fn cost_ok<M: CostModel>(
    model: &M,
    dict: TrieDict<M::Cost>,
    text: Seq<char>,
    st: Seq<Seq<State<M::Cost>>>,
    p: int,
    s: State<M::Cost>,
) -> bool {
    s.cost == step_cost(model, dict, text, st, p, s) || (s.piece is Raw && !s.trail && s.cost == model.spec_infinity())
}

/// Every state after position 0 costs what its step costs under `model`.
pub open spec fn costs_ok<M: CostModel>(
    model: &M,
    dict: TrieDict<M::Cost>,
    text: Seq<char>,
    st: Seq<Seq<State<M::Cost>>>,
) -> bool {
    forall|p: int, k: int| 1 <= p < st.len() && 0 <= k < st[p].len() ==> #[trigger] cost_ok(model, dict, text, st, p, st[p][k])
}

/// The model's `less` is a strict order: irreflexive and transitive.
pub open spec fn order_laws<M: CostModel>(model: &M) -> bool {
    &&& forall|a: M::Cost| !#[trigger] model.spec_less(a, a)
    &&& forall|a: M::Cost, b: M::Cost, c: M::Cost|
        #[trigger] model.spec_less(a, b) && #[trigger] model.spec_less(b, c) ==> model.spec_less(a, c)
}

/// Some state of `v` has the key `key` and costs no more than `c`.
pub open spec fn has_key_within<M: CostModel>(model: &M, v: Seq<State<M::Cost>>, key: (char, usize), c: M::Cost) -> bool {
    exists|k: int| 0 <= k < v.len() && (#[trigger] v[k]).last == key.0 && v[k].node == key.1 && !model.spec_less(c, v[k].cost)
}

/// Every key of `st1` that a state has at no more than some cost is still
/// had at no more than that cost in `st2`.
pub open spec fn keys_improve<M: CostModel>(model: &M, st1: Seq<Seq<State<M::Cost>>>, st2: Seq<Seq<State<M::Cost>>>) -> bool {
    &&& st2.len() == st1.len()
    &&& forall|q: int, key: (char, usize), c: M::Cost|
        0 <= q < st1.len() && #[trigger] has_key_within(model, st1[q], key, c) ==> has_key_within(model, st2[q], key, c)
}

/// Position `q` has been relaxed: for every state there and every code of
/// every dictionary word that the text spells from `q`, the position where
/// the word ends holds a state with the key the code leaves, at no more
/// than what the step from that state costs.
pub open spec fn relaxed_at<M: CostModel>(
    model: &M,
    dict: TrieDict<M::Cost>,
    text: Seq<char>,
    st: Seq<Seq<State<M::Cost>>>,
    q: int,
) -> bool {
    forall|i: int, n: int, t: int, l: int|
        0 <= i < st[q].len() && 1 <= l <= text.len() - q && 0 <= n < dict.word_paths().len() && dict.word_paths()[n]
            == text.subrange(q, q + l) && 0 <= t < dict.info_codes(n).len() ==> #[trigger] has_key_within(
            model,
            st[q + l],
            code_key(dict, n, t),
            code_step(model, dict, st, q, l, n, t, i).cost,
        )
}

proof fn lemma_keys_improve_trans<M: CostModel>(
    model: &M,
    a: Seq<Seq<State<M::Cost>>>,
    b: Seq<Seq<State<M::Cost>>>,
    c: Seq<Seq<State<M::Cost>>>,
)
    requires
        keys_improve(model, a, b),
        keys_improve(model, b, c),
    ensures
        keys_improve(model, a, c),
{
    assert forall|q: int, key: (char, usize), x: M::Cost| 0 <= q < a.len() && #[trigger] has_key_within(model, a[q], key, x)
        implies has_key_within(model, c[q], key, x) by {
        assert(has_key_within(model, b[q], key, x));
    }
}

/// A position stays relaxed while keys only get cheaper and its own states
/// stay.
proof fn lemma_relaxed_grow<M: CostModel>(
    model: &M,
    dict: TrieDict<M::Cost>,
    text: Seq<char>,
    st1: Seq<Seq<State<M::Cost>>>,
    st2: Seq<Seq<State<M::Cost>>>,
    q: int,
)
    requires
        0 <= q <= text.len(),
        st1.len() == text.len() + 1,
        relaxed_at(model, dict, text, st1, q),
        keys_improve(model, st1, st2),
        st2[q] == st1[q],
    ensures
        relaxed_at(model, dict, text, st2, q),
{
    assert forall|i: int, n: int, t: int, l: int|
        0 <= i < st2[q].len() && 1 <= l <= text.len() - q && 0 <= n < dict.word_paths().len() && dict.word_paths()[n]
            == text.subrange(q, q + l) && 0 <= t < dict.info_codes(n).len() implies #[trigger] has_key_within(
            model,
            st2[q + l],
            code_key(dict, n, t),
            code_step(model, dict, st2, q, l, n, t, i).cost,
        ) by {
        assert(code_step(model, dict, st2, q, l, n, t, i) == code_step(model, dict, st1, q, l, n, t, i));
        assert(has_key_within(model, st1[q + l], code_key(dict, n, t), code_step(model, dict, st1, q, l, n, t, i).cost));
    }
}

/// Where a typing by dictionary codes alone ends, starting from state `r0`
/// at position 0: its position, its key and its cost; `None` when a step
/// does not type the word the text spells there. Each step `(n, t, l)`
/// types the next `l` characters, which spell word node `n`, with its
/// `t`-th code, at the cost `code_step` gives a step from a state with the
/// same key.
pub open spec fn path_end<M: CostModel>(
    model: &M,
    dict: TrieDict<M::Cost>,
    text: Seq<char>,
    r0: State<M::Cost>,
    steps: Seq<(int, int, int)>,
) -> Option<(int, char, usize, M::Cost)>
    decreases steps.len(),
{
    if steps.len() == 0 {
        Some((0, r0.last, r0.node, r0.cost))
    } else {
        match path_end(model, dict, text, r0, steps.drop_last()) {
            None => None,
            Some((q, last, node, c)) => {
                let (n, t, l) = steps.last();
                if 1 <= l && q + l <= text.len() && 0 <= n < dict.word_paths().len() && dict.word_paths()[n]
                    == text.subrange(q, q + l) && 0 <= t < dict.info_codes(n).len() {
                    let code = dict.info_codes(n)[t];
                    let space = node > 0 && space_needed(dict, node, code[0]);
                    Some(
                        (
                            q + l,
                            code.last(),
                            dict.info_nodes(n)[t],
                            model.spec_add(
                                model.spec_add(c, delta_cost(model, last, code[0], space)),
                                dict.info_costs(n)[t],
                            ),
                        ),
                    )
                } else {
                    None
                }
            },
        }
    }
}

/// The model's `less` is a strict total order under which adding a cost
/// keeps the order: what is not cheaper stays not cheaper.
pub open spec fn monotone_order<M: CostModel>(model: &M) -> bool {
    &&& order_laws(model)
    &&& forall|a: M::Cost, b: M::Cost| #[trigger] model.spec_less(a, b) || model.spec_less(b, a) || a == b
    &&& forall|a: M::Cost, b: M::Cost, c: M::Cost|
        !model.spec_less(a, b) ==> !#[trigger] model.spec_less(model.spec_add(a, c), model.spec_add(b, c))
}

/// Two states with the same key: the same last key and the same node of the
/// code trie. What follows a state depends on its key alone.
pub open spec fn same_key<C>(a: State<C>, b: State<C>) -> bool {
    a.last == b.last && a.node == b.node
}

/// No two states at one position share a key.
#[verifier::opaque]
pub open spec fn one_state_per_key<C>(st: Seq<Seq<State<C>>>) -> bool {
    forall|p: int, k1: int, k2: int|
        0 <= p < st.len() && 0 <= k1 < k2 < st[p].len() ==> !same_key(#[trigger] st[p][k1], #[trigger] st[p][k2])
}

/// The key that the `t`-th code of word node `n` leaves: its last key and
/// its node in the code trie.
pub open spec fn code_key<C: Copy>(dict: TrieDict<C>, n: int, t: int) -> (char, usize) {
    (dict.info_codes(n)[t].last(), dict.info_nodes(n)[t])
}

/// Some state of `v` has the key `key`.
pub open spec fn has_key<C>(v: Seq<State<C>>, key: (char, usize)) -> bool {
    exists|k: int| 0 <= k < v.len() && (#[trigger] v[k]).last == key.0 && v[k].node == key.1
}

/// Every key of a state of `st1` is still the key of a state at the same
/// position of `st2`.
pub open spec fn keys_grow<C>(st1: Seq<Seq<State<C>>>, st2: Seq<Seq<State<C>>>) -> bool {
    &&& st2.len() == st1.len()
    &&& forall|q: int, key: (char, usize)| 0 <= q < st1.len() && #[trigger] has_key(st1[q], key) ==> has_key(st2[q], key)
}

/// Position `q`, if a typing reaches it, has been explored: for every code
/// of every dictionary word that the text spells from `q`, a state with the
/// key that the code leaves is at the position where the word ends.
pub open spec fn explored_at<C: Copy>(dict: TrieDict<C>, text: Seq<char>, st: Seq<Seq<State<C>>>, q: int) -> bool {
    st[q].len() > 0 ==> forall|n: int, t: int, l: int|
        1 <= l <= text.len() - q && 0 <= n < dict.word_paths().len() && dict.word_paths()[n] == text.subrange(q, q + l)
            && 0 <= t < dict.info_codes(n).len() ==> #[trigger] has_key(st[q + l], code_key(dict, n, t))
}

/// No dictionary word that starts at `q` may go on past the end of the
/// text: the text from `q` is not a prefix of a longer word.
pub open spec fn sealed_at<C: Copy>(dict: TrieDict<C>, text: Seq<char>, q: int) -> bool {
    !(has_path(dict.word_paths(), text.subrange(q, text.len() as int)) && exists|c: char|
        has_path(dict.word_paths(), #[trigger] text.subrange(q, text.len() as int).push(c)))
}

/// Keys that stay, stay across two steps.
proof fn lemma_keys_grow_trans<C>(a: Seq<Seq<State<C>>>, b: Seq<Seq<State<C>>>, c: Seq<Seq<State<C>>>)
    requires
        keys_grow(a, b),
        keys_grow(b, c),
    ensures
        keys_grow(a, c),
{
    assert forall|q: int, key: (char, usize)| 0 <= q < a.len() && #[trigger] has_key(a[q], key) implies has_key(c[q], key) by {
        assert(has_key(b[q], key));
    }
}

/// A word from `q` that reaches past the end of `text` into `more` shows that `q` was not sealed.
proof fn lemma_sealed_extend<C: Copy>(dict: TrieDict<C>, text: Seq<char>, more: Seq<char>, q: int, e: int)
    requires
        dict.wf(),
        0 <= q <= text.len(),
        text.len() < e <= text.len() + more.len(),
        has_path(dict.word_paths(), (text + more).subrange(q, e)),
    ensures
        !sealed_at(dict, text, q),
{
    let t2 = text + more;
    let w = t2.subrange(q, e);
    dict.lemma_word_paths(w, text.len() - q + 1);
    dict.lemma_word_paths(w, text.len() - q);
    assert(w.take(text.len() - q + 1) =~= text.subrange(q, text.len() as int).push(t2[text.len() as int]));
    assert(w.take(text.len() - q) =~= text.subrange(q, text.len() as int));
    assert(has_path(dict.word_paths(), text.subrange(q, text.len() as int).push(t2[text.len() as int])));
}

/// A position stays explored while keys are only added.
proof fn lemma_explored_grow<C: Copy>(
    dict: TrieDict<C>,
    text: Seq<char>,
    st1: Seq<Seq<State<C>>>,
    st2: Seq<Seq<State<C>>>,
    q: int,
)
    requires
        0 <= q <= text.len(),
        st1.len() == text.len() + 1,
        explored_at(dict, text, st1, q),
        keys_grow(st1, st2),
        st2[q] == st1[q],
    ensures
        explored_at(dict, text, st2, q),
{
    if st2[q].len() > 0 {
        assert forall|n: int, t: int, l: int|
            1 <= l <= text.len() - q && 0 <= n < dict.word_paths().len() && dict.word_paths()[n] == text.subrange(q, q + l)
                && 0 <= t < dict.info_codes(n).len() implies #[trigger] has_key(st2[q + l], code_key(dict, n, t)) by {
            assert(has_key(st1[q + l], code_key(dict, n, t)));
        }
    }
}

/// What steps type depends only on the text up to the last of their positions.
proof fn lemma_render_text<C: Copy>(
    dict: TrieDict<C>,
    t1: Seq<char>,
    t2: Seq<char>,
    st: Seq<Seq<State<C>>>,
    links: Seq<(int, int)>,
    n: int,
)
    requires
        0 <= n <= t1.len(),
        n <= t2.len(),
        t1.take(n) == t2.take(n),
        forall|k: int| 0 <= k < links.len() ==> 0 < (#[trigger] links[k]).0 <= n,
    ensures
        render(dict, t2, st, links) == render(dict, t1, st, links),
    decreases links.len(),
{
    if links.len() > 0 {
        let rest = links.drop_last();
        assert forall|k: int| 0 <= k < rest.len() implies 0 < (#[trigger] rest[k]).0 <= n by {
            assert(rest[k] == links[k]);
        }
        lemma_render_text(dict, t1, t2, st, rest, n);
        let q = links.last().0;
        assert(0 < links[links.len() - 1].0 <= n);
        assert(0 <= q - 1 < n);
        assert(t1.take(n)[q - 1] == t1[q - 1]);
        assert(t2.take(n)[q - 1] == t2[q - 1]);
        assert(t1.take(n)[q - 1] == t2.take(n)[q - 1]);
        assert(t1[q - 1] == t2[q - 1]);
        let l = links.last();
        assert(piece_text(dict, t1, l.0, st[l.0][l.1]) == piece_text(dict, t2, l.0, st[l.0][l.1]));
        assert(step_text(dict, t1, st, l) == step_text(dict, t2, st, l));
    }
}

/// Every state of `st2` is the state of `st1` at the same place, or a step
/// that starts at `lo` or after it.
pub open spec fn grown_from<C>(st1: Seq<Seq<State<C>>>, st2: Seq<Seq<State<C>>>, lo: int) -> bool {
    &&& st2.len() == st1.len()
    &&& forall|q: int, k: int|
        0 <= q < st2.len() && 0 <= k < st2[q].len() ==> (k < st1[q].len() && #[trigger] st2[q][k]
            == st1[q][k]) || (1 <= st2[q][k].back && q - st2[q][k].back >= lo)
}

/// Putting a step from `lo` or later at `p` keeps every other state.
proof fn lemma_place_grown<C>(before: Seq<Seq<State<C>>>, after: Seq<Seq<State<C>>>, p: int, st: State<C>, lo: int)
    requires
        0 <= p < before.len(),
        after == before.update(p, after[p]),
        forall|j: int|
            0 <= j < after[p].len() ==> #[trigger] after[p][j] == st || (j < before[p].len() && after[p][j]
                == before[p][j]),
        1 <= st.back,
        p - st.back >= lo,
    ensures
        grown_from(before, after, lo),
{
    assert forall|q: int, k: int| 0 <= q < after.len() && 0 <= k < after[q].len() implies (k < before[q].len()
        && #[trigger] after[q][k] == before[q][k]) || (1 <= after[q][k].back && q - after[q][k].back >= lo) by {
        if q != p {
            assert(after[q] == before[q]);
        } else {
            assert(after[p][k] == st || (k < before[p].len() && after[p][k] == before[p][k]));
        }
    }
}

/// States grow from themselves.
proof fn lemma_grown_refl<C>(a: Seq<Seq<State<C>>>, lo: int)
    ensures
        grown_from(a, a, lo),
{
}

/// Growing twice is growing once, from the earlier start.
proof fn lemma_grown_trans<C>(a: Seq<Seq<State<C>>>, b: Seq<Seq<State<C>>>, c: Seq<Seq<State<C>>>, lo1: int, lo2: int)
    requires
        grown_from(a, b, lo1),
        grown_from(b, c, lo2),
        lo1 <= lo2,
    ensures
        grown_from(a, c, lo1),
{
    assert forall|q: int, k: int| 0 <= q < c.len() && 0 <= k < c[q].len() implies (k < a[q].len() && #[trigger] c[q][k]
        == a[q][k]) || (1 <= c[q][k].back && q - c[q][k].back >= lo1) by {
        if k < b[q].len() && c[q][k] == b[q][k] {
            assert(b[q][k] == b[q][k]);
        }
    }
}

/// Typings depend only on the states at their positions.
proof fn lemma_chain_agree<C: Copy>(st: Seq<Seq<State<C>>>, st2: Seq<Seq<State<C>>>, p: int, j: int)
    requires
        forall|q: int| 0 <= q <= p ==> #[trigger] st2[q] == st[q],
    ensures
        chain(st2, p, j) == chain(st, p, j),
    decreases p,
{
    if p > 0 {
        assert(st2[p] == st[p]);
        if 0 <= j < st[p].len() {
            let d = st[p][j].back as int;
            if 1 <= d <= p {
                lemma_chain_agree(st, st2, p - d, st[p][j].from as int);
            }
        }
    }
}

/// The steps of a typing end after position 0 and no later than its end.
proof fn lemma_chain_positions<C: Copy>(st: Seq<Seq<State<C>>>, p: int, j: int)
    ensures
        forall|k: int| 0 <= k < chain(st, p, j).len() ==> 0 < (#[trigger] chain(st, p, j)[k]).0 <= p,
    decreases p,
{
    if p > 0 && 0 <= j < st[p].len() {
        let d = st[p][j].back as int;
        if 1 <= d <= p {
            lemma_chain_positions(st, p - d, st[p][j].from as int);
            let c = chain(st, p - d, st[p][j].from as int);
            assert forall|k: int| 0 <= k < chain(st, p, j).len() implies 0 < (#[trigger] chain(st, p, j)[k]).0 <= p by {
                if k < c.len() {
                    assert(chain(st, p, j)[k] == c[k]);
                }
            }
        }
    }
}

/// A typing from after `b` passes through the single state at `b` when no step goes back over `b`.
proof fn lemma_chain_through<C: Copy>(st: Seq<Seq<State<C>>>, b: int, p: int, j: int)
    requires
        0 <= b <= p,
        st[b].len() == 1,
        0 <= j < st[p].len(),
        forall|q: int, k: int|
            b < q <= p && 0 <= k < st[q].len() ==> 1 <= (#[trigger] st[q][k]).back && q - st[q][k].back >= b
                && st[q][k].from < st[q - st[q][k].back].len(),
    ensures
        chain(st, b, 0).len() <= chain(st, p, j).len(),
        chain(st, p, j).take(chain(st, b, 0).len() as int) == chain(st, b, 0),
    decreases p,
{
    if p == b {
        assert(j == 0);
        assert(chain(st, p, j).take(chain(st, p, j).len() as int) =~= chain(st, p, j));
    } else {
        let s = st[p][j];
        let q = p - s.back;
        lemma_chain_through(st, b, q, s.from as int);
        let c = chain(st, q, s.from as int);
        assert(chain(st, p, j) == c.push((p, j)));
        assert(c.push((p, j)).take(chain(st, b, 0).len() as int) =~= c.take(chain(st, b, 0).len() as int));
    }
}

/// What two runs of steps type, one after the other.
proof fn lemma_render_concat<C: Copy>(
    dict: TrieDict<C>,
    text: Seq<char>,
    st: Seq<Seq<State<C>>>,
    a: Seq<(int, int)>,
    b: Seq<(int, int)>,
)
    ensures
        render(dict, text, st, a + b) == render(dict, text, st, a) + render(dict, text, st, b),
    decreases b.len(),
{
    if b.len() == 0 {
        assert(a + b =~= a);
        assert(render(dict, text, st, a) + render(dict, text, st, b) =~= render(dict, text, st, a));
    } else {
        lemma_render_concat(dict, text, st, a, b.drop_last());
        assert((a + b).drop_last() =~= a + b.drop_last());
        assert((a + b).last() == b.last());
        assert(render(dict, text, st, a) + render(dict, text, st, b) =~= render(dict, text, st, a) + render(
            dict,
            text,
            st,
            b.drop_last(),
        ) + step_text(dict, text, st, b.last()));
    }
}

/// What steps type depends only on the states at their positions.
proof fn lemma_render_agree<C: Copy>(
    dict: TrieDict<C>,
    text: Seq<char>,
    st: Seq<Seq<State<C>>>,
    st2: Seq<Seq<State<C>>>,
    links: Seq<(int, int)>,
)
    requires
        forall|k: int| 0 <= k < links.len() ==> st2[(#[trigger] links[k]).0] == st[links[k].0],
    ensures
        render(dict, text, st2, links) == render(dict, text, st, links),
    decreases links.len(),
{
    if links.len() > 0 {
        let rest = links.drop_last();
        assert forall|k: int| 0 <= k < rest.len() implies st2[(#[trigger] rest[k]).0] == st[rest[k].0] by {
            assert(rest[k] == links[k]);
        }
        lemma_render_agree(dict, text, st, st2, rest);
        assert(st2[links.last().0] == st[links.last().0]);
    }
}

/// The steps `links` moved `b` positions later in the text.
pub open spec fn shift_links(links: Seq<(int, int)>, b: int) -> Seq<(int, int)> {
    links.map_values(|l: (int, int)| (l.0 + b, l.1))
}

/// A typing after `b` in states shifted by `b` is the typing settled at `b` followed by the shifted steps.
proof fn lemma_chain_shift<C: Copy>(st1: Seq<Seq<State<C>>>, st2: Seq<Seq<State<C>>>, b: int, p: int, j: int)
    requires
        0 <= b,
        0 <= p < st2.len(),
        st2.len() + b == st1.len(),
        st2[0].len() == 1,
        forall|q: int| 0 < q < st2.len() ==> #[trigger] st2[q] == st1[q + b],
        forall|q: int, k: int|
            0 < q < st2.len() && 0 <= k < st2[q].len() ==> 1 <= (#[trigger] st2[q][k]).back <= q && st2[q][k].from
                < st2[q - st2[q][k].back].len(),
        0 <= j < st2[p].len(),
    ensures
        chain(st1, p + b, j) == chain(st1, b, 0) + shift_links(chain(st2, p, j), b),
    decreases p,
{
    if p == 0 {
        assert(j == 0);
        assert(chain(st2, p, j) =~= Seq::<(int, int)>::empty());
        assert(shift_links(chain(st2, p, j), b) =~= Seq::<(int, int)>::empty());
        assert(chain(st1, b, 0) + shift_links(chain(st2, p, j), b) =~= chain(st1, b, 0));
    } else {
        let s = st2[p][j];
        assert(st1[p + b] == st2[p]);
        let d = s.back as int;
        let q = p - d;
        lemma_chain_shift(st1, st2, b, q, s.from as int);
        let c2 = chain(st2, q, s.from as int);
        assert(chain(st2, p, j) == c2.push((p, j)));
        assert(chain(st1, p + b, j) == chain(st1, q + b, s.from as int).push((p + b, j)));
        assert(shift_links(c2.push((p, j)), b) =~= shift_links(c2, b).push((p + b, j)));
        assert(chain(st1, b, 0) + shift_links(c2, b).push((p + b, j)) =~= (chain(st1, b, 0) + shift_links(c2, b)).push(
            (p + b, j),
        ));
    }
}

/// Shifted steps in the shifted text type the same keys.
proof fn lemma_render_shift<C: Copy>(
    dict: TrieDict<C>,
    text1: Seq<char>,
    st1: Seq<Seq<State<C>>>,
    text2: Seq<char>,
    st2: Seq<Seq<State<C>>>,
    b: int,
    links: Seq<(int, int)>,
)
    requires
        0 <= b <= text1.len(),
        text2 == text1.skip(b),
        forall|k: int|
            0 <= k < links.len() ==> 0 < (#[trigger] links[k]).0 <= text2.len() && st2[links[k].0] == st1[links[k].0
                + b],
    ensures
        render(dict, text1, st1, shift_links(links, b)) == render(dict, text2, st2, links),
    decreases links.len(),
{
    if links.len() > 0 {
        let rest = links.drop_last();
        assert forall|k: int| 0 <= k < rest.len() implies 0 < (#[trigger] rest[k]).0 <= text2.len() && st2[rest[k].0]
            == st1[rest[k].0 + b] by {
            assert(rest[k] == links[k]);
        }
        lemma_render_shift(dict, text1, st1, text2, st2, b, rest);
        assert(shift_links(links, b).drop_last() =~= shift_links(rest, b));
        let l = links.last();
        assert(shift_links(links, b).last() == (l.0 + b, l.1));
        let s = st2[l.0][l.1];
        assert(st1[l.0 + b][l.1] == s);
        assert(text1[l.0 + b - 1] == text2[l.0 - 1]);
        assert(piece_text(dict, text1, l.0 + b, s) == piece_text(dict, text2, l.0, s));
    }
}

/// The encoder's state: the text of the current chunk, the states reaching
/// each position, the settled position `base`, the position `cur` being
/// worked on, and the furthest position `end` reached.
pub struct Encoder<'a, C> {
    dict: &'a TrieDict<C>,
    text: Vec<char>,
    states: Vec<Vec<State<C>>>,
    base: usize,
    cur: usize,
    end: usize,
    written: Ghost<Seq<char>>,
}

impl<'a, C: Copy> Encoder<'a, C> {
    /// The dictionary.
    pub closed spec fn dict(&self) -> TrieDict<C> {
        *self.dict
    }

    /// The text of the current chunk, from the last settled shrink on.
    pub closed spec fn text(&self) -> Seq<char> {
        self.text@
    }

    /// The states reaching each position of the text.
    pub closed spec fn states(&self) -> Seq<Seq<State<C>>> {
        self.states@.map_values(|v: Vec<State<C>>| v@)
    }

    /// The settled position: every typing passes through its one state.
    pub closed spec fn base(&self) -> int {
        self.base as int
    }

    /// The position being worked on.
    pub closed spec fn cur(&self) -> int {
        self.cur as int
    }

    /// The furthest position that a step reaches.
    pub closed spec fn end(&self) -> int {
        self.end as int
    }

    /// What the settled parts of earlier chunks typed: the keys before the
    /// current chunk, handed on at each `shrink`.
    pub closed spec fn written(&self) -> Seq<char> {
        self.written@
    }

    /// What the settled part of the chunk types: the closing space of the
    /// text when it ended at the chunk's first position, then the steps up
    /// to `base`.
    pub open spec fn settled(&self) -> Seq<char> {
        root_trail(self.states()) + render(self.dict(), self.text(), self.states(), chain(self.states(), self.base(), 0))
    }

    /// What the typing that ends with state `j` at position `p` types from
    /// the start of the whole text, earlier chunks included.
    pub open spec fn whole_render(&self, p: int, j: int) -> Seq<char> {
        self.written() + root_trail(self.states()) + render(self.dict(), self.text(), self.states(), chain(self.states(), p, j))
    }

    /// The states reach the positions consistently: one root at position 0;
    /// every other state is a step of a typing; `base` has one state, and no
    /// state after it steps back over it; no state after `cur` follows a state
    /// after `cur`.
    pub closed spec fn states_ok(&self) -> bool {
        let st = self.states();
        let text = self.text@;
        let dict = *self.dict;
        &&& dict.wf()
        &&& st.len() == text.len() + 1
        &&& self.base <= self.cur <= text.len()
        &&& st[0].len() == 1
        &&& st[0][0].back == 0
        &&& key_ok(dict, st[0][0])
        &&& st[self.base as int].len() == 1
        &&& forall|p: int, k: int|
            1 <= p <= text.len() && 0 <= k < st[p].len() ==> state_ok(dict, text, st, p, #[trigger] st[p][k])
        &&& forall|p: int, k: int|
            self.base < p <= text.len() && 0 <= k < st[p].len() ==> p - (#[trigger] st[p][k]).back
                >= self.base
        &&& forall|p: int, k: int|
            self.cur < p <= text.len() && 0 <= k < st[p].len() ==> p - (#[trigger] st[p][k]).back
                <= self.cur
        &&& one_state_per_key(st)
    }

    /// The states are consistent, `end` is reached, and no position after
    /// `end` is.
    pub closed spec fn wf(&self) -> bool {
        let st = self.states();
        &&& self.states_ok()
        &&& self.cur <= self.end <= self.text@.len()
        &&& st[self.end as int].len() >= 1
        &&& forall|p: int| self.end < p <= self.text@.len() ==> (#[trigger] st[p]).len() == 0
    }

    /// Every state's cost is what its step costs under `model`.
    pub open spec fn costs_follow<M: CostModel<Cost = C>>(&self, model: &M) -> bool {
        costs_ok(model, self.dict(), self.text(), self.states())
    }

    /// Every position before `cur` has been relaxed under `model`.
    pub open spec fn relaxed<M: CostModel<Cost = C>>(&self, model: &M) -> bool {
        forall|q: int| 0 <= q < self.cur() ==> #[trigger] relaxed_at(model, self.dict(), self.text(), self.states(), q)
    }

    /// Every position before `cur` has been explored.
    pub open spec fn explored(&self) -> bool {
        forall|q: int| 0 <= q < self.cur() ==> #[trigger] explored_at(self.dict(), self.text(), self.states(), q)
    }

    /// No dictionary word that starts before `cur` may go on past the end of
    /// the text.
    pub open spec fn sealed(&self) -> bool {
        forall|q: int| 0 <= q < self.cur() ==> #[trigger] sealed_at(self.dict(), self.text(), q)
    }

    fn root<M: CostModel<Cost = C>>(model: &M) -> (s: State<C>)
        ensures
            is_start(s),
            s.cost == model.spec_zero(),
    {
        State {
            back: 0,
            from: 0,
            last: '\0',
            node: 0,
            piece: Piece::Raw,
            space: false,
            trail: false,
            cost: model.zero(),
        }
    }

    /// An encoder over `dict`, ready for a new text.
    pub fn new<M: CostModel<Cost = C>>(dict: &'a TrieDict<C>, model: &M) -> (e: Encoder<'a, C>)
        requires
            dict.wf(),
        ensures
            e.wf(),
            e.dict() == *dict,
            e.text() == Seq::<char>::empty(),
            e.base() == 0 && e.cur() == 0 && e.end() == 0,
            e.states().len() == 1,
            e.states()[0].len() == 1,
            is_start(e.states()[0][0]),
            e.states()[0][0].cost == model.spec_zero(),
            e.costs_follow(model),
            e.relaxed(model),
            e.written() == Seq::<char>::empty(),
            e.explored(),
            e.sealed(),
    {
        let mut e = Encoder {
            dict,
            text: Vec::new(),
            states: Vec::new(),
            base: 0,
            cur: 0,
            end: 0,
            written: Ghost(Seq::empty()),
        };
        e.prepare(model);
        e
    }

    /// Forgets the text and its states: the encoder starts a new text.
    pub fn prepare<M: CostModel<Cost = C>>(&mut self, model: &M)
        requires
            old(self).dict().wf(),
        ensures
            final(self).wf(),
            final(self).dict() == old(self).dict(),
            final(self).text() == Seq::<char>::empty(),
            final(self).base() == 0 && final(self).cur() == 0 && final(self).end() == 0,
            final(self).states().len() == 1,
            final(self).states()[0].len() == 1,
            is_start(final(self).states()[0][0]),
            final(self).states()[0][0].cost == model.spec_zero(),
            final(self).costs_follow(model),
            final(self).relaxed(model),
            final(self).written() == Seq::<char>::empty(),
            final(self).explored(),
            final(self).sealed(),
    {
        self.text.clear();
        self.states.clear();
        let mut first: Vec<State<C>> = Vec::new();
        first.push(Self::root(model));
        self.states.push(first);
        self.base = 0;
        self.cur = 0;
        self.end = 0;
        self.written = Ghost(Seq::empty());
        proof {
            code_root(*self.dict);
            reveal(one_state_per_key);
        }
    }

    /// Appends the characters of `text` to the chunk; returns how many there were.
    pub fn feed(&mut self, text: &str) -> (n: u64)
        requires
            old(self).wf(),
        ensures
            final(self).wf(),
            final(self).dict() == old(self).dict(),
            final(self).written() == old(self).written(),
            final(self).text() == old(self).text() + text@,
            final(self).base() == old(self).base(),
            final(self).cur() == old(self).cur(),
            final(self).end() == old(self).end(),
            final(self).states().len() == old(self).states().len() + text@.len(),
            forall|p: int|
                0 <= p < old(self).states().len() ==> #[trigger] final(self).states()[p] == old(self).states()[p],
            forall|p: int|
                old(self).states().len() <= p < final(self).states().len() ==> (#[trigger] final(self).states()[p]).len()
                    == 0,
            old(self).explored() && old(self).sealed() ==> final(self).explored() && final(self).sealed(),
            forall|p: int, j: int|
                0 <= p <= old(self).text().len() ==> #[trigger] final(self).whole_render(p, j) == old(self).whole_render(
                    p,
                    j,
                ),
            n == text@.len(),
    {
        let ghost t0 = self.text@;
        let ghost s0 = self.states();
        let ghost raw0 = self.states@;
        let bef = self.text.len();
        for c in it: text.chars()
            invariant
                it.seq() == text@,
                self.text@ == t0 + it.seq().take(it.index() as int),
                self.states@ == raw0,
                s0 == raw0.map_values(|v: Vec<State<C>>| v@),
                raw0.len() == t0.len() + 1,
                old(self).wf(),
                s0 == old(self).states(),
                t0 == old(self).text(),
                self.end == old(self).end,
                self.cur == old(self).cur,
                self.base == old(self).base,
                self.dict == old(self).dict,
                self.written == old(self).written,
        {
            self.text.push(c);
            proof {
                assert(it.seq().take(it.index() + 1) =~= it.seq().take(it.index() as int).push(c));
            }
        }
        proof {
            assert(text@.take(text@.len() as int) =~= text@);
            assert(self.states().take(t0.len() as int + 1) =~= s0);
        }
        while self.states.len() <= self.text.len()
            invariant
                t0.len() + 1 <= self.states@.len() <= self.text@.len() + 1,
                self.states().take(t0.len() as int + 1) == s0,
                forall|p: int| t0.len() + 1 <= p < self.states@.len() ==> (#[trigger] self.states@[p])@.len() == 0,
                old(self).wf(),
                s0 == old(self).states(),
                t0 == old(self).text(),
                self.text@ == t0 + text@,
                self.end == old(self).end,
                self.cur == old(self).cur,
                self.base == old(self).base,
                self.dict == old(self).dict,
                self.written == old(self).written,
            decreases self.text@.len() + 1 - self.states@.len(),
        {
            self.states.push(Vec::new());
            proof {
                assert(self.states().take(t0.len() as int + 1) =~= s0);
            }
        }
        let aft = self.text.len();
        proof {
            let st = self.states();
            let text2 = self.text@;
            reveal(one_state_per_key);
            assert forall|p: int, k1: int, k2: int|
                0 <= p < st.len() && 0 <= k1 < k2 < st[p].len() implies !same_key(#[trigger] st[p][k1], #[trigger] st[p][k2]) by {
                assert(p <= t0.len());
                assert(st[p] == s0[p]);
            }
            assert forall|p: int| 0 <= p <= t0.len() implies #[trigger] st[p] == s0[p] by {
                assert(st.take(t0.len() as int + 1)[p] == st[p]);
            }
            assert forall|p: int| self.end < p <= text2.len() implies (#[trigger] st[p]).len() == 0 by {
                if p > t0.len() {
                    assert(st[p] == self.states@[p]@);
                } else {
                    assert(st[p] == s0[p]);
                    assert(s0[p].len() == 0);
                }
            }
            assert forall|p: int, k: int|
                1 <= p <= text2.len() && 0 <= k < st[p].len() implies state_ok(*self.dict, text2, st, p, #[trigger] st[p][k]) by {
                assert(p <= t0.len());
                assert(st[p] == s0[p]);
                let s = st[p][k];
                assert(s == s0[p][k]);
                assert(state_ok(*self.dict, t0, s0, p, s));
                assert(text2.subrange(p - s.back, p) =~= t0.subrange(p - s.back, p));
                assert(text2[p - 1] == t0[p - 1]);
            }
        }
        proof {
            let st = self.states();
            let text2 = self.text@;
            let dict = *self.dict;
            if old(self).explored() && old(self).sealed() {
                assert(old(self).dict() == dict);
                assert(old(self).text() == t0);
                assert(old(self).states() == s0);
                assert(old(self).cur() == self.cur);
                assert forall|q: int| 0 <= q < self.cur implies #[trigger] sealed_at(dict, text2, q) by {
                    assert(sealed_at(old(self).dict(), old(self).text(), q));
                    if text@.len() == 0 {
                        assert(text2 =~= t0);
                    } else if has_path(dict.word_paths(), text2.subrange(q, text2.len() as int)) {
                        assert(text2.subrange(q, text2.len() as int) == (t0 + text@).subrange(q, text2.len() as int));
                        lemma_sealed_extend(dict, t0, text@, q, text2.len() as int);
                    }
                }
                assert forall|q: int| 0 <= q < self.cur implies #[trigger] explored_at(dict, text2, st, q) by {
                    assert(explored_at(old(self).dict(), old(self).text(), old(self).states(), q));
                    assert(sealed_at(old(self).dict(), old(self).text(), q));
                    assert(st[q] == s0[q]);
                    if st[q].len() > 0 {
                        assert forall|n: int, t: int, l: int|
                            1 <= l <= text2.len() - q && 0 <= n < dict.word_paths().len() && dict.word_paths()[n]
                                == text2.subrange(q, q + l) && 0 <= t < dict.info_codes(n).len() implies #[trigger] has_key(
                                st[q + l],
                                code_key(dict, n, t),
                            ) by {
                            if q + l <= t0.len() {
                                assert(text2.subrange(q, q + l) =~= t0.subrange(q, q + l));
                                assert(has_key(s0[q + l], code_key(dict, n, t)));
                                assert(st[q + l] == s0[q + l]);
                            } else {
                                assert(has_path(dict.word_paths(), text2.subrange(q, q + l)));
                                assert(text2.subrange(q, q + l) == (t0 + text@).subrange(q, q + l));
                                lemma_sealed_extend(dict, t0, text@, q, q + l);
                            }
                        }
                    }
                }
            }
        }
        proof {
            let st = self.states();
            let dict = *self.dict;
            assert forall|p: int, j: int| 0 <= p <= t0.len() implies #[trigger] self.whole_render(p, j)
                == old(self).whole_render(p, j) by {
                assert(old(self).states() == s0 && old(self).text() == t0);
                lemma_chain_agree(s0, st, p, j);
                lemma_chain_positions(s0, p, j);
                let c = chain(s0, p, j);
                assert forall|k: int| 0 <= k < c.len() implies st[(#[trigger] c[k]).0] == s0[c[k].0] by {
                    assert(0 < c[k].0 <= p);
                }
                lemma_render_agree(dict, self.text@, s0, st, c);
                assert(self.text@.take(t0.len() as int) =~= t0.take(t0.len() as int));
                assert(forall|k: int| 0 <= k < c.len() ==> 0 < (#[trigger] c[k]).0 <= t0.len());
                lemma_render_text(dict, t0, self.text@, s0, c, t0.len() as int);
                assert(st[0] == s0[0]);
            }
        }
        (aft - bef) as u64
    }

    /// Drops the settled part of the chunk: the text before `base` and its
    /// states. The state at `base` becomes the root of what is left.
    #[verifier::rlimit(40)]
    pub fn shrink(&mut self)
        requires
            old(self).wf(),
        ensures
            final(self).wf(),
            final(self).dict() == old(self).dict(),
            final(self).text() == old(self).text().skip(old(self).base()),
            final(self).base() == 0,
            final(self).cur() == old(self).cur() - old(self).base(),
            final(self).end() == old(self).end() - old(self).base(),
            final(self).states().len() == old(self).states().len() - old(self).base(),
            forall|p: int|
                0 < p < final(self).states().len() ==> #[trigger] final(self).states()[p] == old(self).states()[p
                    + old(self).base()],
            old(self).base() == 0 ==> final(self).states() == old(self).states() && final(self).written()
                == old(self).written(),
            old(self).base() > 0 ==> final(self).states()[0] == seq![rooted(old(self).states()[old(self).base()][0])]
                && final(self).written() == old(self).written() + old(self).settled(),
            forall|p: int, j: int|
                0 <= p <= final(self).text().len() && 0 <= j < final(self).states()[p].len()
                    ==> #[trigger] final(self).whole_render(p, j) == old(self).whole_render(p + old(self).base(), j),
            old(self).explored() ==> final(self).explored(),
            old(self).sealed() ==> final(self).sealed(),
    {
        if self.base == 0 {
            proof {
                assert(self.text@.skip(0) =~= self.text@);
            }
            return;
        }
        let b = self.base;
        let ghost e0: Encoder<'a, C> = *self;
        let ghost t0 = self.text@;
        let ghost s0 = self.states();
        self.written = Ghost(self.written@ + e0.settled());
        let tail_text = self.text.split_off(b);
        self.text = tail_text;
        let tail_states = self.states.split_off(b);
        self.states = tail_states;
        let mut r = self.states[0][0];
        r.back = 0;
        r.trail = false;
        self.states[0].set(0, r);
        self.cur = self.cur - b;
        self.end = self.end - b;
        self.base = 0;
        proof {
            let st = self.states();
            let text = self.text@;
            let dict = *self.dict;
            reveal(one_state_per_key);
            assert(text =~= t0.skip(b as int));
            assert forall|p: int| 0 < p <= text.len() implies #[trigger] st[p] == s0[p + b] by {}
            assert(st[0].len() == s0[b as int].len());
            assert(st[0][0].node == s0[b as int][0].node);
            assert forall|p: int| 0 <= p <= text.len() implies (#[trigger] st[p]).len() == s0[p + b].len() by {}
            assert forall|p: int, k: int| 0 <= p <= text.len() && 0 <= k < st[p].len() implies (#[trigger] st[p][k]).node
                == s0[p + b][k].node by {
                if p == 0 && k == 0 {
                } else if p == 0 {
                    assert(st[0] == s0[b as int].update(0, r));
                } else {
                }
            }
            assert forall|p: int| self.end < p <= text.len() implies (#[trigger] st[p]).len() == 0 by {
                assert(st[p] == s0[p + b]);
            }
            assert forall|p: int, k1: int, k2: int|
                0 <= p < st.len() && 0 <= k1 < k2 < st[p].len() implies !same_key(#[trigger] st[p][k1], #[trigger] st[p][k2]) by {
                assert(p > 0);
                assert(st[p] == s0[p + b]);
            }
            assert forall|p: int, k: int|
                1 <= p <= text.len() && 0 <= k < st[p].len() implies state_ok(dict, text, st, p, #[trigger] st[p][k]) by {
                let q = p + b;
                let s = s0[q][k];
                assert(st[p][k] == s);
                assert(state_ok(dict, t0, s0, q, s));
                assert(q - s.back >= b);
                let pp = p - s.back;
                assert(st[pp].len() == s0[q - s.back].len());
                assert(st[pp][s.from as int].node == s0[q - s.back][s.from as int].node);
                assert(text.subrange(pp, p) =~= t0.subrange(q - s.back, q));
                assert(text[p - 1] == t0[q - 1]);
                assert(piece_text(dict, text, p, s) == piece_text(dict, t0, q, s));
            }
            assert forall|p: int, k: int|
                self.cur < p <= text.len() && 0 <= k < st[p].len() implies p - (#[trigger] st[p][k]).back <= self.cur by {
                assert(st[p][k] == s0[p + b][k]);
            }
            assert forall|p: int, k: int|
                0 < p <= text.len() && 0 <= k < st[p].len() implies p - (#[trigger] st[p][k]).back >= 0 by {
                assert(st[p][k] == s0[p + b][k]);
            }
        }
        proof {
            let st = self.states();
            let text = self.text@;
            let dict = *self.dict;
            assert(old(self).dict() == dict && old(self).text() == t0 && old(self).states() == s0);
            assert(old(self).cur() == self.cur + b && old(self).base() == b);
            if old(self).sealed() {
                assert forall|q: int| 0 <= q < self.cur implies #[trigger] sealed_at(dict, text, q) by {
                    assert(sealed_at(dict, t0, q + b));
                    assert(text.subrange(q, text.len() as int) =~= t0.subrange(q + b, t0.len() as int));
                }
            }
            if old(self).explored() {
                assert forall|q: int| 0 <= q < self.cur implies #[trigger] explored_at(dict, text, st, q) by {
                    assert(explored_at(dict, t0, s0, q + b));
                    if st[q].len() > 0 {
                        assert(s0[q + b].len() > 0);
                        assert forall|n: int, t: int, l: int|
                            1 <= l <= text.len() - q && 0 <= n < dict.word_paths().len() && dict.word_paths()[n]
                                == text.subrange(q, q + l) && 0 <= t < dict.info_codes(n).len() implies #[trigger] has_key(
                                st[q + l],
                                code_key(dict, n, t),
                            ) by {
                            assert(text.subrange(q, q + l) =~= t0.subrange(q + b, q + b + l));
                            assert(has_key(s0[q + b + l], code_key(dict, n, t)));
                            assert(st[q + l] == s0[q + l + b]);
                        }
                    }
                }
            }
        }
        proof {
            assert(!self.states()[0][0].trail);
            Self::lemma_shrink_whole(&e0, self);
        }
    }

    /// The typing of the settled text, before `base`: the closing space of
    /// the text if it ended at the chunk's first position, then the steps of
    /// the state at `base`, from the first, each with its spaces.
    #[verifier::rlimit(40)]
    pub fn build_encoding(&self) -> (r: String)
        requires
            self.wf(),
        ensures
            r@ == self.settled(),
            r@ == root_trail(self.states()) + render(self.dict(), self.text(), self.states(), chain(self.states(), self.base(), 0)),
    {
        let ghost st = self.states();
        let ghost full = chain(st, self.base as int, 0);
        let mut links: Vec<(usize, usize)> = Vec::new();
        let mut i: usize = self.base;
        let mut j: usize = 0;
        let ghost mut rest: Seq<(int, int)> = Seq::empty();
        proof {
            assert(full == chain(st, i as int, j as int) + rest);
        }
        while self.states[i][j].back > 0
            invariant
                self.wf(),
                st == self.states(),
                full == chain(st, self.base as int, 0),
                i <= self.text@.len(),
                j < st[i as int].len(),
                full == chain(st, i as int, j as int) + rest,
                rest.len() == links@.len(),
                forall|m: int| 0 <= m < rest.len() ==> #[trigger] rest[m] == (links@[rest.len() - 1 - m].0 as int, links@[rest.len() - 1 - m].1 as int),
                forall|m: int| 0 <= m < rest.len() ==> 1 <= #[trigger] rest[m].0 <= self.text@.len() && 0 <= rest[m].1 < st[rest[m].0].len(),
            decreases i,
        {
            let s = self.states[i][j];
            proof {
                assert(st[i as int][j as int] == s);
                if i == 0 {
                    assert(st[0][0].back == 0);
                }
                assert(state_ok(*self.dict, self.text@, st, i as int, s));
                assert(chain(st, i as int, j as int) == chain(st, i - s.back, s.from as int).push((i as int, j as int)));
                assert(chain(st, i - s.back, s.from as int).push((i as int, j as int)) + rest =~= chain(st, i - s.back, s.from as int) + (seq![(i as int, j as int)] + rest));
            }
            links.push((i, j));
            proof {
                rest = seq![(i as int, j as int)] + rest;
            }
            i = i - s.back;
            j = s.from;
        }
        proof {
            if i > 0 {
                assert(state_ok(*self.dict, self.text@, st, i as int, st[i as int][j as int]));
            }
            assert(chain(st, i as int, j as int) =~= Seq::<(int, int)>::empty());
            assert(full =~= rest);
        }
        let mut out: Vec<char> = Vec::new();
        if self.states[0][0].trail {
            out.push(' ');
        }
        let ghost lead = out@;
        let mut m: usize = links.len();
        proof {
            assert(full.take(0) =~= Seq::<(int, int)>::empty());
            assert(lead =~= root_trail(st));
            assert(out@ =~= lead + render(*self.dict, self.text@, st, full.take(0)));
        }
        while m > 0
            invariant
                self.wf(),
                st == self.states(),
                full == rest,
                rest.len() == links@.len(),
                m <= links@.len(),
                forall|q: int| 0 <= q < rest.len() ==> #[trigger] rest[q] == (links@[rest.len() - 1 - q].0 as int, links@[rest.len() - 1 - q].1 as int),
                forall|q: int| 0 <= q < rest.len() ==> 1 <= #[trigger] rest[q].0 <= self.text@.len() && 0 <= rest[q].1 < st[rest[q].0].len(),
                lead == root_trail(st),
                out@ == lead + render(*self.dict, self.text@, st, full.take(links@.len() - m)),
            decreases m,
        {
            m = m - 1;
            let (p, j) = links[m];
            let ghost q = links@.len() - 1 - m;
            proof {
                assert(rest[q] == (p as int, j as int));
                assert(full.take(q + 1).drop_last() =~= full.take(q));
                assert(full.take(q + 1).last() == (p as int, j as int));
            }
            let s = self.states[p][j];
            proof {
                assert(st[p as int][j as int] == s);
                assert(state_ok(*self.dict, self.text@, st, p as int, s));
            }
            let ghost before = out@;
            if s.space {
                out.push(' ');
            }
            match s.piece {
                Piece::Raw => {
                    out.push(self.text[p - 1]);
                },
                Piece::Code(n, t) => {
                    let code = chars_of(self.dict.info(n, t).code.as_str());
                    let mut k: usize = 0;
                    let ghost mid = out@;
                    while k < code.len()
                        invariant
                            out@ == mid + code@.take(k as int),
                            k <= code.len(),
                        decreases code.len() - k,
                    {
                        out.push(code[k]);
                        proof {
                            assert(code@.take(k + 1) =~= code@.take(k as int).push(code@[k as int]));
                        }
                        k += 1;
                    }
                    proof {
                        assert(code@.take(k as int) =~= code@);
                    }
                },
            }
            if s.trail {
                out.push(' ');
            }
            proof {
                assert(out@ =~= before + step_text(*self.dict, self.text@, st, (p as int, j as int)));
                assert(out@ =~= lead + render(*self.dict, self.text@, st, full.take(q + 1)));
            }
        }
        proof {
            assert(full.take(links@.len() as int) =~= full);
        }
        string_from_chars(out.as_slice())
    }

    /// Puts `st`, a step from `cur` to `p`, among the states at `p`: a state
    /// there with the same key is replaced when `st` is cheaper; without one,
    /// `st` is added.
    fn place<M: CostModel<Cost = C>>(&mut self, model: &M, p: usize, st: State<C>)
        requires
            old(self).states_ok(),
            old(self).cur < p <= old(self).text().len(),
            p - st.back == old(self).cur,
            state_ok(old(self).dict(), old(self).text(), old(self).states(), p as int, st),
        ensures
            final(self).states_ok(),
            final(self).dict() == old(self).dict(),
            final(self).written() == old(self).written(),
            final(self).text() == old(self).text(),
            final(self).base() == old(self).base(),
            final(self).cur() == old(self).cur(),
            final(self).end() == old(self).end(),
            final(self).states() == old(self).states().update(p as int, final(self).states()[p as int]),
            final(self).states()[p as int].len() >= 1,
            forall|j: int|
                0 <= j < final(self).states()[p as int].len() ==> #[trigger] final(self).states()[p as int][j] == st
                    || (j < old(self).states()[p as int].len() && final(self).states()[p as int][j] == old(
                    self,
                ).states()[p as int][j]),
            keys_grow(old(self).states(), final(self).states()),
            has_key(final(self).states()[p as int], (st.last, st.node)),
            final(self).states()[p as int] == placed(model, old(self).states()[p as int], st),
            old(self).costs_follow(model) && cost_ok(
                model,
                old(self).dict(),
                old(self).text(),
                old(self).states(),
                p as int,
                st,
            ) ==> final(self).costs_follow(model),
            order_laws(model) ==> keys_improve(model, old(self).states(), final(self).states()),
            order_laws(model) ==> has_key_within(model, final(self).states()[p as int], (st.last, st.node), st.cost),
    {
        let ghost s0 = self.states();
        let len = self.states[p].len();
        let mut k: usize = 0;
        while k < len && !(self.states[p][k].last == st.last && self.states[p][k].node == st.node)
            invariant
                self.states() == s0,
                len == s0[p as int].len(),
                p < s0.len(),
                k <= len,
                forall|m: int| 0 <= m < k ==> !same_key(#[trigger] s0[p as int][m], st),
            decreases len - k,
        {
            k += 1;
        }
        if k < len {
            if model.less(st.cost, self.states[p][k].cost) {
                self.states[p].set(k, st);
            }
        } else {
            self.states[p].push(st);
        }
        proof {
            let s1 = self.states();
            let text = self.text@;
            let dict = *self.dict;
            reveal(one_state_per_key);
            assert(s1 == s0.update(p as int, s1[p as int]));
            let v = s0[p as int];
            if k < len {
                assert(same_key(v[k as int], st));
                let kk = choose|kk: int| 0 <= kk < v.len() && same_key(#[trigger] v[kk], st);
                if kk != k as int {
                    assert(same_key(v[kk], v[k as int]));
                    if kk < k {
                        assert(!same_key(v[kk], v[k as int]));
                    } else {
                        assert(!same_key(v[k as int], v[kk]));
                    }
                }
                assert(s1[p as int] =~= placed(model, v, st));
            } else {
                assert(!(exists|kk: int| 0 <= kk < v.len() && same_key(#[trigger] v[kk], st)));
                assert(s1[p as int] =~= placed(model, v, st));
            }
            assert forall|q: int, key: (char, usize)| 0 <= q < s0.len() && #[trigger] has_key(s0[q], key) implies has_key(s1[q], key) by {
                if q == p {
                    let w = choose|w: int| 0 <= w < s0[q].len() && (#[trigger] s0[q][w]).last == key.0 && s0[q][w].node == key.1;
                    assert(s1[q][w] == s0[q][w] || (w == k && same_key(s1[q][w], s0[q][w])));
                } else {
                    assert(s1[q] == s0[q]);
                }
            }
            if k < len {
                assert(same_key(s1[p as int][k as int], st));
            } else {
                assert(s1[p as int][len as int] == st);
            }
            assert forall|q: int, k1: int, k2: int|
                0 <= q < s1.len() && 0 <= k1 < k2 < s1[q].len() implies !same_key(#[trigger] s1[q][k1], #[trigger] s1[q][k2]) by {
                if q != p {
                    assert(s1[q] == s0[q]);
                } else if k < len {
                    assert(s1[q][k1] == s0[q][k1] || (k1 == k && same_key(s1[q][k1], s0[q][k1])));
                    assert(s1[q][k2] == s0[q][k2] || (k2 == k && same_key(s1[q][k2], s0[q][k2])));
                    assert(!same_key(s0[q][k1], s0[q][k2]));
                } else {
                    if k2 == len {
                        assert(s1[q][k1] == s0[q][k1]);
                        assert(!same_key(s0[q][k1], st));
                    } else {
                        assert(s1[q][k1] == s0[q][k1] && s1[q][k2] == s0[q][k2]);
                    }
                }
            }
            assert forall|q: int| 0 <= q < s1.len() && q != p implies #[trigger] s1[q] == s0[q] by {}
            assert(s1[p as int].len() >= s0[p as int].len());
            assert forall|j: int| 0 <= j < s1[p as int].len() implies #[trigger] s1[p as int][j] == st || (j < s0[p as int].len() && s1[p as int][j] == s0[p as int][j]) by {}
            assert forall|q: int, j: int|
                1 <= q <= text.len() && 0 <= j < s1[q].len() implies state_ok(dict, text, s1, q, #[trigger] s1[q][j]) by {
                let s = s1[q][j];
                if q != p || s != st {
                    if q == p {
                        assert(j < s0[p as int].len() && s == s0[p as int][j]);
                    } else {
                        assert(s == s0[q][j]);
                    }
                    assert(state_ok(dict, text, s0, q, s));
                    if q <= self.cur {
                        assert(q - s.back < p);
                    } else {
                        assert(q - s.back <= self.cur);
                    }
                    assert(s1[q - s.back] == s0[q - s.back]);
                } else {
                    assert(s1[p - st.back] == s0[p - st.back]);
                }
            }
            assert forall|q: int, j: int|
                self.base < q <= text.len() && 0 <= j < s1[q].len() implies q - (#[trigger] s1[q][j]).back >= self.base by {
                if q != p {
                    assert(s1[q][j] == s0[q][j]);
                } else if s1[q][j] != st {
                    assert(s1[q][j] == s0[q][j]);
                }
            }
            assert forall|q: int, j: int|
                self.cur < q <= text.len() && 0 <= j < s1[q].len() implies q - (#[trigger] s1[q][j]).back <= self.cur by {
                if q != p {
                    assert(s1[q][j] == s0[q][j]);
                } else if s1[q][j] != st {
                    assert(s1[q][j] == s0[q][j]);
                }
            }
        }
        proof {
            let s1 = self.states();
            let text = self.text@;
            let dict = *self.dict;
            if costs_ok(model, dict, text, s0) && cost_ok(model, dict, text, s0, p as int, st) {
                assert forall|q: int, k2: int| 1 <= q < s1.len() && 0 <= k2 < s1[q].len() implies #[trigger] cost_ok(
                    model,
                    dict,
                    text,
                    s1,
                    q,
                    s1[q][k2],
                ) by {
                    let x = s1[q][k2];
                    assert(state_ok(dict, text, s1, q, x));
                    if q > self.cur {
                        assert(q - x.back <= self.cur);
                    }
                    assert(s1[q - x.back] == s0[q - x.back]);
                    assert(step_cost(model, dict, text, s1, q, x) == step_cost(model, dict, text, s0, q, x));
                    if q != p {
                        assert(s1[q] == s0[q]);
                        assert(cost_ok(model, dict, text, s0, q, s0[q][k2]));
                    } else if x != st {
                        assert(k2 < s0[q].len() && x == s0[q][k2]);
                        assert(cost_ok(model, dict, text, s0, q, s0[q][k2]));
                    }
                }
            }
        }
        proof {
            let s1 = self.states();
            if order_laws(model) {
                assert forall|q: int, key: (char, usize), c: C| 0 <= q < s0.len() && #[trigger] has_key_within(model, s0[q], key, c)
                    implies has_key_within(model, s1[q], key, c) by {
                    if q == p {
                        let w = choose|w: int| 0 <= w < s0[q].len() && (#[trigger] s0[q][w]).last == key.0 && s0[q][w].node == key.1
                            && !model.spec_less(c, s0[q][w].cost);
                        if s1[q][w] != s0[q][w] {
                            assert(w == k && s1[q][w] == st);
                            assert(model.spec_less(st.cost, s0[q][w].cost));
                            if model.spec_less(c, st.cost) {
                                assert(model.spec_less(c, s0[q][w].cost));
                            }
                        }
                        assert(s1[q][w].last == key.0 && s1[q][w].node == key.1 && !model.spec_less(c, s1[q][w].cost));
                    } else {
                        assert(s1[q] == s0[q]);
                    }
                }
                lemma_placed_no_costlier(model, s0[p as int], st);
            }
        }
    }

    /// Steps from every state at `cur` with the `t`-th code of word node
    /// `node`, whose word is the next `wl` characters of the text.
    fn relax<M: CostModel<Cost = C>>(&mut self, model: &M, wl: usize, node: usize, t: usize)
        requires
            old(self).states_ok(),
            1 <= wl,
            old(self).cur + wl <= old(self).text().len(),
            node < old(self).dict().word_paths().len(),
            old(self).dict().word_paths()[node as int] == old(self).text().subrange(
                old(self).cur(),
                old(self).cur() + wl,
            ),
            t < old(self).dict().info_codes(node as int).len(),
        ensures
            final(self).states_ok(),
            final(self).dict() == old(self).dict(),
            final(self).written() == old(self).written(),
            final(self).text() == old(self).text(),
            final(self).base() == old(self).base(),
            final(self).cur() == old(self).cur(),
            final(self).end() == old(self).end(),
            final(self).states() == old(self).states().update(
                old(self).cur() + wl,
                final(self).states()[old(self).cur() + wl],
            ),
            old(self).states()[old(self).cur()].len() > 0 ==> final(self).states()[old(self).cur() + wl].len() >= 1,
            grown_from(old(self).states(), final(self).states(), old(self).cur()),
            keys_grow(old(self).states(), final(self).states()),
            old(self).states()[old(self).cur()].len() > 0 ==> has_key(
                final(self).states()[old(self).cur() + wl],
                code_key(old(self).dict(), node as int, t as int),
            ),
            final(self).states()[old(self).cur() + wl] == placed_all(
                model,
                old(self).states()[old(self).cur() + wl],
                Seq::new(
                    old(self).states()[old(self).cur()].len(),
                    |i: int| code_step(model, old(self).dict(), old(self).states(), old(self).cur(), wl as int, node as int, t as int, i),
                ),
            ),
            old(self).costs_follow(model) ==> final(self).costs_follow(model),
            order_laws(model) ==> keys_improve(model, old(self).states(), final(self).states()),
            order_laws(model) ==> forall|i: int|
                0 <= i < old(self).states()[old(self).cur()].len() ==> #[trigger] has_key_within(
                    model,
                    final(self).states()[old(self).cur() + wl],
                    code_key(old(self).dict(), node as int, t as int),
                    code_step(model, old(self).dict(), old(self).states(), old(self).cur(), wl as int, node as int, t as int, i).cost,
                ),
    {
        let dict: &'a TrieDict<C> = self.dict;
        let info = dict.info(node, t);
        let tl = self.text.len();
        proof {
            dict.lemma_infos(node as int, t as int);
        }
        let p = self.cur + wl;
        let n = self.states[self.cur].len();
        let ghost s0 = self.states();
        let ghost steps = Seq::new(
            n as nat,
            |j: int| code_step(model, *dict, s0, self.cur as int, wl as int, node as int, t as int, j),
        );
        let mut i: usize = 0;
        proof {
            assert(s0 =~= s0.update(p as int, s0[p as int]));
            lemma_grown_refl(s0, self.cur as int);
            assert(steps.take(0) =~= Seq::<State<C>>::empty());
            assert(dict.info_costs(node as int)[t as int] == info.cost);
        }
        while i < n
            invariant
                self.states_ok(),
                self.dict == dict,
                self.written == old(self).written,
                self.text@ == old(self).text@,
                self.base == old(self).base,
                self.cur == old(self).cur,
                self.end == old(self).end,
                p == self.cur + wl,
                1 <= wl,
                p <= self.text@.len(),
                node < dict.word_paths().len(),
                dict.word_paths()[node as int] == self.text@.subrange(self.cur as int, p as int),
                t < dict.info_codes(node as int).len(),
                info.code@ == dict.info_codes(node as int)[t as int],
                info.code@.len() > 0,
                info.first == info.code@[0],
                info.last == info.code@.last(),
                info.c_node == dict.info_nodes(node as int)[t as int],
                info.c_node < dict.code_paths().len(),
                s0 == old(self).states(),
                s0.len() == self.text@.len() + 1,
                self.states() == s0.update(p as int, self.states()[p as int]),
                n == s0[self.cur as int].len(),
                i <= n,
                i > 0 ==> self.states()[p as int].len() >= 1,
                grown_from(s0, self.states(), self.cur as int),
                keys_grow(s0, self.states()),
                i > 0 ==> has_key(self.states()[p as int], code_key(*dict, node as int, t as int)),
                steps == Seq::new(
                    n as nat,
                    |j: int| code_step(model, *dict, s0, self.cur as int, wl as int, node as int, t as int, j),
                ),
                self.states()[p as int] == placed_all(model, s0[p as int], steps.take(i as int)),
                info.cost == dict.info_costs(node as int)[t as int],
                costs_ok(model, *dict, self.text@, s0) ==> costs_ok(model, *dict, self.text@, self.states()),
                order_laws(model) ==> keys_improve(model, s0, self.states()),
                order_laws(model) ==> forall|i2: int|
                    0 <= i2 < i ==> #[trigger] has_key_within(
                        model,
                        self.states()[p as int],
                        code_key(*dict, node as int, t as int),
                        steps[i2].cost,
                    ),
            decreases n - i,
        {
            proof {
                assert(p != self.cur);
                assert(s0.update(p as int, self.states()[p as int])[self.cur as int] == s0[self.cur as int]);
                assert(self.states()[self.cur as int] == s0[self.cur as int]);
                assert(self.states@[self.cur as int]@ == self.states()[self.cur as int]);
            }
            let s = self.states[self.cur][i];
            proof {
                assert(self.states()[self.cur as int][i as int] == s);
                if self.cur > 0 {
                    assert(state_ok(*self.dict, self.text@, self.states(), self.cur as int, s));
                }
            }
            let space = s.node > 0 && dict.need_space(s.node, info.first);
            let cost = model.add(model.add(s.cost, delta(model, s.last, info.first, space)), info.cost);
            let st = State {
                back: wl,
                from: i,
                last: info.last,
                node: info.c_node,
                piece: Piece::Code(node, t),
                space,
                trail: false,
                cost,
            };
            proof {
                assert(piece_text(*dict, self.text@, p as int, st)[0] == info.first);
                assert(p - wl == self.cur);
            }
            let ghost before = self.states();
            proof {
                assert(before[p - st.back] == s0[self.cur as int]);
                assert(cost_ok(model, *dict, self.text@, before, p as int, st));
            }
            self.place(model, p, st);
            proof {
                lemma_place_grown(before, self.states(), p as int, st, self.cur as int);
                lemma_grown_trans(s0, before, self.states(), self.cur as int, self.cur as int);
                lemma_keys_grow_trans(s0, before, self.states());
                if i > 0 {
                    assert(has_key(before[p as int], code_key(*dict, node as int, t as int)));
                }
                assert(has_key(self.states()[p as int], (st.last, st.node)));
                assert(st == steps[i as int]);
                assert(steps.take(i + 1).drop_last() =~= steps.take(i as int));
                assert(steps.take(i + 1).last() == steps[i as int]);
                if order_laws(model) {
                    lemma_keys_improve_trans(model, s0, before, self.states());
                    assert(code_key(*dict, node as int, t as int) == (st.last, st.node));
                    assert forall|i2: int| 0 <= i2 < i + 1 implies #[trigger] has_key_within(
                        model,
                        self.states()[p as int],
                        code_key(*dict, node as int, t as int),
                        steps[i2].cost,
                    ) by {
                        if i2 < i {
                            assert(has_key_within(model, before[p as int], code_key(*dict, node as int, t as int), steps[i2].cost));
                        }
                    }
                }
            }
            i += 1;
        }
        proof {
            assert(steps.take(n as int) =~= steps);
            if order_laws(model) {
                assert forall|i2: int| 0 <= i2 < n implies #[trigger] has_key_within(
                    model,
                    self.states()[p as int],
                    code_key(*dict, node as int, t as int),
                    code_step(model, *dict, s0, self.cur as int, wl as int, node as int, t as int, i2).cost,
                ) by {
                    assert(steps[i2] == code_step(model, *dict, s0, self.cur as int, wl as int, node as int, t as int, i2));
                }
            }
        }
    }

    /// Nothing reaches past `cur`: steps over the next character as it is,
    /// from the state at `cur` that makes it cheapest.
    fn fallback<M: CostModel<Cost = C>>(&mut self, model: &M)
        requires
            old(self).wf(),
            old(self).cur() == old(self).end(),
            old(self).cur() < old(self).text().len(),
        ensures
            final(self).wf(),
            final(self).dict() == old(self).dict(),
            final(self).written() == old(self).written(),
            final(self).text() == old(self).text(),
            final(self).base() == old(self).base(),
            final(self).cur() == old(self).cur(),
            final(self).end() == old(self).end() + 1,
            final(self).states() == old(self).states().update(old(self).cur() + 1, final(self).states()[old(self).cur() + 1]),
            grown_from(old(self).states(), final(self).states(), old(self).cur()),
            keys_grow(old(self).states(), final(self).states()),
            final(self).states()[old(self).cur() + 1] == seq![
                raw_step(model, old(self).dict(), old(self).states()[old(self).cur()], old(self).text()[old(self).cur()]),
            ],
            old(self).costs_follow(model) ==> final(self).costs_follow(model),
            order_laws(model) ==> keys_improve(model, old(self).states(), final(self).states()),
    {
        let dict: &'a TrieDict<C> = self.dict;
        let c1 = self.text[self.cur];
        let ghost v = self.states()[self.cur as int];
        let n = self.states[self.cur].len();
        let mut best_i: usize = 0;
        let mut min_cost = model.infinity();
        let mut i: usize = 0;
        while i < n
            invariant
                self.wf(),
                self.dict == dict,
                self.written == old(self).written,
                n == self.states()[self.cur as int].len(),
                n >= 1,
                i <= n,
                best_i < n,
                v == self.states()[self.cur as int],
                c1 == self.text@[self.cur as int],
                (best_i as int, min_cost) == raw_choice(model, *dict, v.take(i as int), c1),
            decreases n - i,
        {
            let s = self.states[self.cur][i];
            proof {
                if self.cur > 0 {
                    assert(state_ok(*self.dict, self.text@, self.states(), self.cur as int, self.states()[self.cur as int][i as int]));
                }
            }
            let sp = s.node > 0 && dict.need_space(s.node, c1);
            let cost = model.add(s.cost, delta(model, s.last, c1, sp));
            proof {
                assert(v.take(i + 1).drop_last() =~= v.take(i as int));
                assert(v.take(i + 1).last() == s);
            }
            if model.less(cost, min_cost) {
                best_i = i;
                min_cost = cost;
            }
            i += 1;
        }
        let b = self.states[self.cur][best_i];
        proof {
            assert(v.take(n as int) =~= v);
            if self.cur > 0 {
                assert(state_ok(*self.dict, self.text@, self.states(), self.cur as int, self.states()[self.cur as int][best_i as int]));
            }
        }
        let space = b.node > 0 && dict.need_space(b.node, c1);
        let st = State {
            back: 1,
            from: best_i,
            last: c1,
            node: 0,
            piece: Piece::Raw,
            space,
            trail: false,
            cost: min_cost,
        };
        let tl = self.text.len();
        assert(self.cur < tl);
        let p = self.cur + 1;
        let ghost s0 = self.states();
        proof {
            code_root(*dict);
            assert(piece_text(*dict, self.text@, p as int, st) == seq![c1]);
            assert(self.text@[p - 1] == c1);
            lemma_raw_choice_shape(model, *dict, v, c1);
            assert(st == raw_step(model, *dict, v, c1));
            assert(s0[p - st.back] == v);
            assert(cost_ok(model, *dict, self.text@, s0, p as int, st));
        }
        self.place(model, p, st);
        self.end = self.end + 1;
        proof {
            lemma_place_grown(s0, self.states(), p as int, st, self.cur as int);
            let s1 = self.states();
            assert forall|q: int| self.end < q <= self.text@.len() implies (#[trigger] s1[q]).len() == 0 by {
                assert(s1[q] == s0[q]);
            }
            assert(s0[p as int].len() == 0);
            assert(st == raw_step(model, *dict, v, c1));
            assert(placed(model, s0[p as int], st) =~= seq![st]);
        }
    }

    /// Steps from every state at `cur` with every code of every word in
    /// `heads`: the word nodes of the text from `cur` on, by length.
    fn explore<M: CostModel<Cost = C>>(&mut self, model: &M, heads: &Vec<usize>)
        requires
            old(self).wf(),
            old(self).cur() < old(self).text().len(),
            old(self).states()[old(self).cur()].len() > 0,
            heads@.len() <= old(self).text().len() - old(self).cur(),
            forall|j: int|
                0 <= j < heads@.len() ==> #[trigger] heads@[j] < old(self).dict().word_paths().len()
                    && old(self).dict().word_paths()[heads@[j] as int] == old(self).text().subrange(
                    old(self).cur(),
                    old(self).cur() + j + 1,
                ),
        ensures
            final(self).wf(),
            final(self).dict() == old(self).dict(),
            final(self).written() == old(self).written(),
            final(self).text() == old(self).text(),
            final(self).base() == old(self).base(),
            final(self).cur() == old(self).cur(),
            final(self).end() >= old(self).end(),
            forall|q: int| 0 <= q <= old(self).cur() ==> #[trigger] final(self).states()[q] == old(self).states()[q],
            grown_from(old(self).states(), final(self).states(), old(self).cur()),
            keys_grow(old(self).states(), final(self).states()),
            forall|h: int, t: int|
                0 <= h < heads@.len() && 0 <= t < old(self).dict().info_codes(heads@[h] as int).len() ==> #[trigger] has_key(
                    final(self).states()[old(self).cur() + h + 1],
                    code_key(old(self).dict(), heads@[h] as int, t),
                ),
            old(self).costs_follow(model) ==> final(self).costs_follow(model),
            order_laws(model) ==> keys_improve(model, old(self).states(), final(self).states()),
            order_laws(model) ==> forall|h: int, t: int, i: int|
                0 <= h < heads@.len() && 0 <= t < old(self).dict().info_codes(heads@[h] as int).len() && 0 <= i
                    < old(self).states()[old(self).cur()].len() ==> #[trigger] has_key_within(
                    model,
                    final(self).states()[old(self).cur() + h + 1],
                    code_key(old(self).dict(), heads@[h] as int, t),
                    code_step(model, old(self).dict(), old(self).states(), old(self).cur(), h + 1, heads@[h] as int, t, i).cost,
                ),
    {
        let dict: &'a TrieDict<C> = self.dict;
        let ghost s0 = self.states();
        let tl = self.text.len();
        let mut h: usize = 0;
        while h < heads.len()
            invariant
                tl == self.text@.len(),
                self.wf(),
                self.dict == dict,
                self.written == old(self).written,
                self.text@ == old(self).text@,
                self.base == old(self).base,
                self.cur == old(self).cur,
                self.end >= old(self).end,
                self.cur < self.text@.len(),
                s0 == old(self).states(),
                self.states()[self.cur as int].len() > 0,
                forall|q: int| 0 <= q <= self.cur ==> #[trigger] self.states()[q] == s0[q],
                grown_from(s0, self.states(), self.cur as int),
                keys_grow(s0, self.states()),
                costs_ok(model, *dict, self.text@, s0) ==> costs_ok(model, *dict, self.text@, self.states()),
                order_laws(model) ==> keys_improve(model, s0, self.states()),
                order_laws(model) ==> forall|h2: int, t2: int, i2: int|
                    0 <= h2 < h && 0 <= t2 < dict.info_codes(heads@[h2] as int).len() && 0 <= i2 < s0[self.cur as int].len()
                        ==> #[trigger] has_key_within(
                        model,
                        self.states()[self.cur + h2 + 1],
                        code_key(*dict, heads@[h2] as int, t2),
                        code_step(model, *dict, s0, self.cur as int, h2 + 1, heads@[h2] as int, t2, i2).cost,
                    ),
                h <= heads@.len(),
                heads@.len() <= self.text@.len() - self.cur,
                forall|j: int|
                    0 <= j < heads@.len() ==> #[trigger] heads@[j] < dict.word_paths().len()
                        && dict.word_paths()[heads@[j] as int] == self.text@.subrange(self.cur as int, self.cur + j + 1),
                forall|h2: int, t2: int|
                    0 <= h2 < h && 0 <= t2 < dict.info_codes(heads@[h2] as int).len() ==> #[trigger] has_key(
                        self.states()[self.cur + h2 + 1],
                        code_key(*dict, heads@[h2] as int, t2),
                    ),
            decreases heads@.len() - h,
        {
            let node = heads[h];
            let wl = h + 1;
            let cnt = dict.info_count(node);
            let mut t: usize = 0;
            let ghost end0 = self.end as int;
            while t < cnt
                invariant
                    tl == self.text@.len(),
                    self.states_ok(),
                    self.dict == dict,
                    self.written == old(self).written,
                    self.text@ == old(self).text@,
                    self.base == old(self).base,
                    self.cur == old(self).cur,
                    self.cur < self.text@.len(),
                    self.cur <= self.end <= self.text@.len(),
                    self.end == end0,
                    end0 >= old(self).end,
                    s0 == old(self).states(),
                    self.states()[self.end as int].len() >= 1,
                    self.states()[self.cur as int].len() > 0,
                    self.cur + wl <= self.text@.len(),
                    1 <= wl,
                    wl == h + 1,
                    h < heads@.len(),
                    node == heads@[h as int],
                    node < dict.word_paths().len(),
                    dict.word_paths()[node as int] == self.text@.subrange(self.cur as int, self.cur + wl),
                    cnt == dict.info_codes(node as int).len(),
                    t <= cnt,
                    forall|q: int| 0 <= q <= self.cur ==> #[trigger] self.states()[q] == s0[q],
                    grown_from(s0, self.states(), self.cur as int),
                    keys_grow(s0, self.states()),
                    costs_ok(model, *dict, self.text@, s0) ==> costs_ok(model, *dict, self.text@, self.states()),
                    order_laws(model) ==> keys_improve(model, s0, self.states()),
                    order_laws(model) ==> forall|h2: int, t2: int, i2: int|
                        0 <= h2 < h && 0 <= t2 < dict.info_codes(heads@[h2] as int).len() && 0 <= i2 < s0[self.cur as int].len()
                            ==> #[trigger] has_key_within(
                            model,
                            self.states()[self.cur + h2 + 1],
                            code_key(*dict, heads@[h2] as int, t2),
                            code_step(model, *dict, s0, self.cur as int, h2 + 1, heads@[h2] as int, t2, i2).cost,
                        ),
                    order_laws(model) ==> forall|t2: int, i2: int|
                        0 <= t2 < t && 0 <= i2 < s0[self.cur as int].len() ==> #[trigger] has_key_within(
                            model,
                            self.states()[self.cur + wl],
                            code_key(*dict, node as int, t2),
                            code_step(model, *dict, s0, self.cur as int, wl as int, node as int, t2, i2).cost,
                        ),
                    t > 0 ==> self.states()[self.cur + wl].len() >= 1,
                    (t == 0 && self.end < self.cur + wl) ==> self.states()[self.cur + wl].len() == 0,
                    forall|q: int| self.end < q <= self.text@.len() && q != self.cur + wl ==> (#[trigger] self.states()[q]).len() == 0,
                    forall|h2: int, t2: int|
                        0 <= h2 < h && 0 <= t2 < dict.info_codes(heads@[h2] as int).len() ==> #[trigger] has_key(
                            self.states()[self.cur + h2 + 1],
                            code_key(*dict, heads@[h2] as int, t2),
                        ),
                    forall|t2: int|
                        0 <= t2 < t ==> #[trigger] has_key(self.states()[self.cur + wl], code_key(*dict, node as int, t2)),
                decreases cnt - t,
            {
                let ghost before = self.states();
                self.relax(model, wl, node, t);
                proof {
                    let after = self.states();
                    lemma_grown_trans(s0, before, after, self.cur as int, self.cur as int);
                    lemma_keys_grow_trans(s0, before, after);
                    assert forall|q: int| 0 <= q <= self.cur implies #[trigger] after[q] == s0[q] by {
                        assert(after[q] == before[q]);
                    }
                    assert forall|q: int| self.end < q <= self.text@.len() && q != self.cur + wl implies (#[trigger] after[q]).len() == 0 by {
                        assert(after[q] == before[q]);
                    }
                    assert(after[self.end as int] == before[self.end as int] || self.end == self.cur + wl);
                    assert(after[self.cur as int] == before[self.cur as int]);
                    assert forall|h2: int, t2: int|
                        0 <= h2 < h && 0 <= t2 < dict.info_codes(heads@[h2] as int).len() implies #[trigger] has_key(
                            after[self.cur + h2 + 1],
                            code_key(*dict, heads@[h2] as int, t2),
                        ) by {
                        assert(has_key(before[self.cur + h2 + 1], code_key(*dict, heads@[h2] as int, t2)));
                    }
                    assert forall|t2: int| 0 <= t2 < t + 1 implies #[trigger] has_key(after[self.cur + wl], code_key(*dict, node as int, t2)) by {
                        if t2 < t {
                            assert(has_key(before[self.cur + wl], code_key(*dict, node as int, t2)));
                        }
                    }
                    if order_laws(model) {
                        lemma_keys_improve_trans(model, s0, before, after);
                        assert(before[self.cur as int] == s0[self.cur as int]);
                        assert forall|h2: int, t2: int, i2: int|
                            0 <= h2 < h && 0 <= t2 < dict.info_codes(heads@[h2] as int).len() && 0 <= i2 < s0[self.cur as int].len()
                                implies #[trigger] has_key_within(
                                model,
                                after[self.cur + h2 + 1],
                                code_key(*dict, heads@[h2] as int, t2),
                                code_step(model, *dict, s0, self.cur as int, h2 + 1, heads@[h2] as int, t2, i2).cost,
                            ) by {
                            assert(has_key_within(
                                model,
                                before[self.cur + h2 + 1],
                                code_key(*dict, heads@[h2] as int, t2),
                                code_step(model, *dict, s0, self.cur as int, h2 + 1, heads@[h2] as int, t2, i2).cost,
                            ));
                        }
                        assert forall|t2: int, i2: int|
                            0 <= t2 < t + 1 && 0 <= i2 < s0[self.cur as int].len() implies #[trigger] has_key_within(
                                model,
                                after[self.cur + wl],
                                code_key(*dict, node as int, t2),
                                code_step(model, *dict, s0, self.cur as int, wl as int, node as int, t2, i2).cost,
                            ) by {
                            if t2 < t {
                                assert(has_key_within(
                                    model,
                                    before[self.cur + wl],
                                    code_key(*dict, node as int, t2),
                                    code_step(model, *dict, s0, self.cur as int, wl as int, node as int, t2, i2).cost,
                                ));
                            } else {
                                assert(code_step(model, *dict, s0, self.cur as int, wl as int, node as int, t2, i2)
                                    == code_step(model, *dict, before, self.cur as int, wl as int, node as int, t2, i2));
                            }
                        }
                    }
                }
                t += 1;
            }
            proof {
                assert(self.cur + wl <= self.text@.len());
            }
            if cnt > 0 && self.end < self.cur + wl {
                self.end = self.cur + wl;
            }
            proof {
                let st = self.states();
                assert forall|q: int| self.end < q <= self.text@.len() implies (#[trigger] st[q]).len() == 0 by {
                    if q == self.cur + wl {
                        assert(cnt == 0 || self.end >= self.cur + wl);
                        if cnt == 0 {
                            assert(t == 0);
                        }
                    }
                }
                assert forall|h2: int, t2: int|
                    0 <= h2 < h + 1 && 0 <= t2 < dict.info_codes(heads@[h2] as int).len() implies #[trigger] has_key(
                        st[self.cur + h2 + 1],
                        code_key(*dict, heads@[h2] as int, t2),
                    ) by {
                    if h2 == h {
                        assert(has_key(st[self.cur + wl], code_key(*dict, node as int, t2)));
                    }
                }
                if order_laws(model) {
                    assert forall|h2: int, t2: int, i2: int|
                        0 <= h2 < h + 1 && 0 <= t2 < dict.info_codes(heads@[h2] as int).len() && 0 <= i2 < s0[self.cur as int].len()
                            implies #[trigger] has_key_within(
                            model,
                            st[self.cur + h2 + 1],
                            code_key(*dict, heads@[h2] as int, t2),
                            code_step(model, *dict, s0, self.cur as int, h2 + 1, heads@[h2] as int, t2, i2).cost,
                        ) by {
                        if h2 == h {
                            assert(has_key_within(
                                model,
                                st[self.cur + wl],
                                code_key(*dict, node as int, t2),
                                code_step(model, *dict, s0, self.cur as int, wl as int, node as int, t2, i2).cost,
                            ));
                        }
                    }
                }
            }
            h += 1;
        }
    }

    /// Works on position `cur`: steps from its states with every code of
    /// every dictionary word that starts there; with `break_on_trunc`, stops
    /// (returns `true`) where such a word may go on past the end of the
    /// chunk; where nothing reaches past `cur`, steps over its character as
    /// it is; then moves on, and settles the new position when all typings
    /// pass through it.
    #[verifier::spinoff_prover]
    fn step_position<M: CostModel<Cost = C>>(&mut self, model: &M, break_on_trunc: bool) -> (stop: bool)
        requires
            old(self).wf(),
            old(self).cur() < old(self).text().len(),
        ensures
            final(self).wf(),
            final(self).dict() == old(self).dict(),
            final(self).written() == old(self).written(),
            final(self).text() == old(self).text(),
            old(self).base() <= final(self).base(),
            old(self).end() <= final(self).end(),
            stop ==> final(self).cur() == old(self).cur() && final(self).base() == old(self).base(),
            !stop ==> final(self).cur() == old(self).cur() + 1,
            !stop && final(self).cur() == final(self).end() && final(self).states()[final(self).cur()].len() == 1
                ==> final(self).base() == final(self).cur(),
            old(self).states()[old(self).cur()].len() == 0 ==> final(self).states() == old(self).states()
                && final(self).end() == old(self).end(),
            !stop ==> final(self).end() > old(self).cur(),
            forall|q: int| 0 <= q <= old(self).cur() ==> #[trigger] final(self).states()[q] == old(self).states()[q],
            grown_from(old(self).states(), final(self).states(), old(self).cur()),
            keys_grow(old(self).states(), final(self).states()),
            !stop ==> explored_at(final(self).dict(), final(self).text(), final(self).states(), old(self).cur()),
            !stop && break_on_trunc ==> sealed_at(final(self).dict(), final(self).text(), old(self).cur()),
            stop ==> {
                &&& break_on_trunc
                &&& has_path(
                    final(self).dict().word_paths(),
                    final(self).text().subrange(final(self).cur(), final(self).text().len() as int),
                )
                &&& exists|c: char|
                    has_path(
                        final(self).dict().word_paths(),
                        #[trigger] final(self).text().subrange(final(self).cur(), final(self).text().len() as int).push(c),
                    )
            },
            old(self).costs_follow(model) ==> final(self).costs_follow(model),
            order_laws(model) ==> keys_improve(model, old(self).states(), final(self).states()),
            order_laws(model) && !stop ==> relaxed_at(model, final(self).dict(), final(self).text(), final(self).states(), old(self).cur()),
    {
        let dict: &'a TrieDict<C> = self.dict;
        let ghost s0 = self.states();
        let ghost text = self.text@;
        let ghost c0 = self.cur as int;
        let (heads, truncated) = dict.heads(self.text.as_slice(), self.cur);
        if self.states[self.cur].len() > 0 {
            self.explore(model, &heads);
        }
        let ghost s1 = self.states();
        proof {
            if s0[c0].len() == 0 {
                assert(s1 == s0);
            }
        }
        if truncated && break_on_trunc {
            proof {
                let k = heads@.len() - 1;
                assert(dict.word_paths()[heads@[k] as int] == text.subrange(c0, c0 + k + 1));
                assert(has_path(dict.word_paths(), text.subrange(c0, text.len() as int)));
            }
            return true;
        }
        if self.cur == self.end {
            self.fallback(model);
            proof {
                lemma_grown_trans(s0, s1, self.states(), c0, c0);
                lemma_keys_grow_trans(s0, s1, self.states());
                if order_laws(model) {
                    lemma_keys_improve_trans(model, s0, s1, self.states());
                }
            }
        }
        let ghost s2 = self.states();
        proof {
            let wp = dict.word_paths();
            // every word that starts at `cur` is one of the heads
            assert forall|n: int, t: int, l: int|
                1 <= l <= text.len() - c0 && 0 <= n < wp.len() && wp[n] == text.subrange(c0, c0 + l) && 0 <= t
                    < dict.info_codes(n).len() && s2[c0].len() > 0 implies #[trigger] has_key(s2[c0 + l], code_key(*dict, n, t)) by {
                assert(has_path(wp, text.subrange(c0, c0 + l)));
                if l > heads@.len() {
                    dict.lemma_word_paths(text.subrange(c0, c0 + l), (heads@.len() + 1) as int);
                    assert(text.subrange(c0, c0 + l).take((heads@.len() + 1) as int) =~= text.subrange(c0, c0 + heads@.len() + 1));
                    assert(false);
                }
                let h = l - 1;
                assert(wp[heads@[h] as int] == text.subrange(c0, c0 + h + 1));
                dict.lemma_word_paths(text.subrange(c0, c0 + l), 0);
                assert(heads@[h] as int == n);
                assert(s0[c0].len() > 0);
                assert(has_key(s1[c0 + h + 1], code_key(*dict, heads@[h] as int, t)));
            }
            assert(explored_at(*dict, text, s2, c0));
            if order_laws(model) {
                assert forall|i: int, n: int, t: int, l: int|
                    0 <= i < s2[c0].len() && 1 <= l <= text.len() - c0 && 0 <= n < wp.len() && wp[n] == text.subrange(c0, c0 + l)
                        && 0 <= t < dict.info_codes(n).len() implies #[trigger] has_key_within(
                        model,
                        s2[c0 + l],
                        code_key(*dict, n, t),
                        code_step(model, *dict, s2, c0, l, n, t, i).cost,
                    ) by {
                    assert(has_path(wp, text.subrange(c0, c0 + l)));
                    if l > heads@.len() {
                        dict.lemma_word_paths(text.subrange(c0, c0 + l), (heads@.len() + 1) as int);
                        assert(text.subrange(c0, c0 + l).take((heads@.len() + 1) as int) =~= text.subrange(c0, c0 + heads@.len() + 1));
                        assert(false);
                    }
                    let h = l - 1;
                    assert(wp[heads@[h] as int] == text.subrange(c0, c0 + h + 1));
                    dict.lemma_word_paths(text.subrange(c0, c0 + l), 0);
                    assert(heads@[h] as int == n);
                    assert(s2[c0] == s0[c0]);
                    assert(s0[c0].len() > 0);
                    assert(code_step(model, *dict, s2, c0, l, n, t, i) == code_step(model, *dict, s0, c0, l, n, t, i));
                    assert(has_key_within(model, s1[c0 + h + 1], code_key(*dict, heads@[h] as int, t), code_step(model, *dict, s0, c0, h + 1, heads@[h] as int, t, i).cost));
                }
                assert(relaxed_at(model, *dict, text, s2, c0));
            }
            if break_on_trunc {
                assert(!truncated);
                if has_path(wp, text.subrange(c0, text.len() as int)) && heads@.len() < text.len() - c0 {
                    dict.lemma_word_paths(text.subrange(c0, text.len() as int), (heads@.len() + 1) as int);
                    assert(text.subrange(c0, text.len() as int).take((heads@.len() + 1) as int) =~= text.subrange(
                        c0,
                        c0 + heads@.len() + 1,
                    ));
                }
                assert(sealed_at(*dict, text, c0));
            }
        }
        self.cur = self.cur + 1;
        if self.cur == self.end && self.states[self.cur].len() == 1 {
            self.base = self.cur;
        }
        false
    }

    /// Works through the positions from `cur` to the end of the chunk: from
    /// each position reached, steps with every code of every dictionary word
    /// that starts there (a word that starts where no typing arrives is not
    /// taken, and moves nothing); where no state lies beyond a position,
    /// steps over its character as it is, from the state that makes that
    /// cheapest; a position that all typings pass through becomes the new
    /// `base`. With `break_on_trunc`, stops at a position
    /// where a dictionary word may go on past the end of the chunk.
    pub fn proc_chunk<M: CostModel<Cost = C>>(&mut self, model: &M, break_on_trunc: bool)
        requires
            old(self).wf(),
        ensures
            final(self).wf(),
            final(self).dict() == old(self).dict(),
            final(self).written() == old(self).written(),
            final(self).text() == old(self).text(),
            old(self).cur() <= final(self).cur(),
            old(self).base() <= final(self).base(),
            forall|q: int| 0 <= q <= old(self).cur() ==> #[trigger] final(self).states()[q] == old(self).states()[q],
            grown_from(old(self).states(), final(self).states(), old(self).cur()),
            keys_grow(old(self).states(), final(self).states()),
            old(self).explored() ==> final(self).explored(),
            break_on_trunc && old(self).sealed() ==> final(self).sealed(),
            forall|q: int|
                old(self).cur() <= q < final(self).cur() ==> #[trigger] explored_at(
                    final(self).dict(),
                    final(self).text(),
                    final(self).states(),
                    q,
                ),
            break_on_trunc ==> forall|q: int|
                old(self).cur() <= q < final(self).cur() ==> #[trigger] sealed_at(final(self).dict(), final(self).text(), q),
            old(self).cur() < final(self).cur() && final(self).cur() == final(self).end()
                && final(self).states()[final(self).cur()].len() == 1 ==> final(self).base() == final(self).cur(),
            old(self).settled().is_prefix_of(final(self).settled()),
            forall|p: int, j: int|
                0 <= p <= old(self).cur() ==> #[trigger] final(self).whole_render(p, j) == old(self).whole_render(p, j),
            render(old(self).dict(), old(self).text(), old(self).states(), chain(old(self).states(), old(self).base(), 0))
                .is_prefix_of(
                render(final(self).dict(), final(self).text(), final(self).states(), chain(final(self).states(), final(self).base(), 0)),
            ),
            !break_on_trunc ==> final(self).cur() == final(self).text().len(),
            final(self).cur() < final(self).text().len() ==> {
                &&& break_on_trunc
                &&& has_path(
                    final(self).dict().word_paths(),
                    final(self).text().subrange(final(self).cur(), final(self).text().len() as int),
                )
                &&& exists|c: char|
                    has_path(
                        final(self).dict().word_paths(),
                        #[trigger] final(self).text().subrange(final(self).cur(), final(self).text().len() as int).push(c),
                    )
            },
            old(self).costs_follow(model) ==> final(self).costs_follow(model),
            order_laws(model) ==> keys_improve(model, old(self).states(), final(self).states()),
            order_laws(model) ==> forall|q: int|
                old(self).cur() <= q < final(self).cur() ==> #[trigger] relaxed_at(
                    model,
                    final(self).dict(),
                    final(self).text(),
                    final(self).states(),
                    q,
                ),
            order_laws(model) && old(self).relaxed(model) ==> final(self).relaxed(model),
    {
        let ghost e0: Encoder<'a, C> = *self;
        let ghost ex0 = self.explored();
        let ghost rx0 = self.relaxed(model);
        let ghost sd0 = self.sealed();
        let ghost dict = *self.dict;
        let ghost text = self.text@;
        loop
            invariant
                self.wf(),
                self.dict == e0.dict,
                self.written == old(self).written,
                *self.dict == dict,
                self.text@ == text,
                e0.text@ == text,
                e0.wf(),
                e0.cur <= self.cur,
                e0.base <= self.base,
                forall|q: int| 0 <= q <= e0.cur ==> #[trigger] self.states()[q] == e0.states()[q],
                grown_from(e0.states(), self.states(), e0.cur as int),
                keys_grow(e0.states(), self.states()),
                costs_ok(model, dict, text, e0.states()) ==> costs_ok(model, dict, text, self.states()),
                order_laws(model) ==> keys_improve(model, e0.states(), self.states()),
                order_laws(model) ==> forall|q: int| e0.cur <= q < self.cur ==> #[trigger] relaxed_at(model, dict, text, self.states(), q),
                order_laws(model) && rx0 ==> forall|q: int| 0 <= q < self.cur ==> #[trigger] relaxed_at(model, dict, text, self.states(), q),
                ex0 ==> forall|q: int| 0 <= q < self.cur ==> #[trigger] explored_at(dict, text, self.states(), q),
                break_on_trunc && sd0 ==> forall|q: int| 0 <= q < self.cur ==> #[trigger] sealed_at(dict, text, q),
                forall|q: int| e0.cur <= q < self.cur ==> #[trigger] explored_at(dict, text, self.states(), q),
                break_on_trunc ==> forall|q: int| e0.cur <= q < self.cur ==> #[trigger] sealed_at(dict, text, q),
                self.cur > e0.cur && self.cur == self.end && self.states()[self.cur as int].len() == 1 ==> self.base
                    == self.cur,
            ensures
                self.wf(),
                self.dict == e0.dict,
                self.written == old(self).written,
                self.text@ == text,
                e0.cur <= self.cur,
                e0.base <= self.base,
                forall|q: int| 0 <= q <= e0.cur ==> #[trigger] self.states()[q] == e0.states()[q],
                grown_from(e0.states(), self.states(), e0.cur as int),
                keys_grow(e0.states(), self.states()),
                costs_ok(model, dict, text, e0.states()) ==> costs_ok(model, dict, text, self.states()),
                order_laws(model) ==> keys_improve(model, e0.states(), self.states()),
                order_laws(model) ==> forall|q: int| e0.cur <= q < self.cur ==> #[trigger] relaxed_at(model, dict, text, self.states(), q),
                order_laws(model) && rx0 ==> forall|q: int| 0 <= q < self.cur ==> #[trigger] relaxed_at(model, dict, text, self.states(), q),
                ex0 ==> forall|q: int| 0 <= q < self.cur ==> #[trigger] explored_at(dict, text, self.states(), q),
                break_on_trunc && sd0 ==> forall|q: int| 0 <= q < self.cur ==> #[trigger] sealed_at(dict, text, q),
                forall|q: int| e0.cur <= q < self.cur ==> #[trigger] explored_at(dict, text, self.states(), q),
                break_on_trunc ==> forall|q: int| e0.cur <= q < self.cur ==> #[trigger] sealed_at(dict, text, q),
                self.cur > e0.cur && self.cur == self.end && self.states()[self.cur as int].len() == 1 ==> self.base
                    == self.cur,
                !break_on_trunc ==> self.cur == text.len(),
                self.cur < text.len() ==> {
                    &&& break_on_trunc
                    &&& has_path(dict.word_paths(), text.subrange(self.cur as int, text.len() as int))
                    &&& exists|c: char|
                        has_path(dict.word_paths(), #[trigger] text.subrange(self.cur as int, text.len() as int).push(c))
                },
            decreases text.len() - self.cur,
        {
            if self.cur >= self.text.len() {
                break;
            }
            let ghost before = self.states();
            let ghost c = self.cur as int;
            let stop = self.step_position(model, break_on_trunc);
            proof {
                let after = self.states();
                lemma_keys_grow_trans(e0.states(), before, after);
                lemma_grown_trans(e0.states(), before, after, e0.cur as int, c);
                assert forall|q: int| 0 <= q <= e0.cur implies #[trigger] after[q] == e0.states()[q] by {
                    assert(after[q] == before[q]);
                }
                if order_laws(model) {
                    lemma_keys_improve_trans(model, e0.states(), before, after);
                    assert forall|q: int| e0.cur <= q < self.cur implies #[trigger] relaxed_at(model, dict, text, after, q) by {
                        if q < c {
                            assert(relaxed_at(model, dict, text, before, q));
                            assert(after[q] == before[q]);
                            lemma_relaxed_grow(model, dict, text, before, after, q);
                        }
                    }
                    if rx0 {
                        assert forall|q: int| 0 <= q < self.cur implies #[trigger] relaxed_at(model, dict, text, after, q) by {
                            if q < c {
                                assert(relaxed_at(model, dict, text, before, q));
                                assert(after[q] == before[q]);
                                lemma_relaxed_grow(model, dict, text, before, after, q);
                            }
                        }
                    }
                }
                assert forall|q: int| e0.cur <= q < self.cur implies #[trigger] explored_at(dict, text, after, q) by {
                    if q < c {
                        assert(explored_at(dict, text, before, q));
                        assert(after[q] == before[q]);
                        lemma_explored_grow(dict, text, before, after, q);
                    }
                }
                if ex0 {
                    assert forall|q: int| 0 <= q < self.cur implies #[trigger] explored_at(dict, text, after, q) by {
                        if q < c {
                            assert(explored_at(dict, text, before, q));
                            assert(after[q] == before[q]);
                            lemma_explored_grow(dict, text, before, after, q);
                        }
                    }
                }
            }
            if stop {
                break;
            }
        }
        proof {
            let s0 = e0.states();
            let s1 = self.states();
            assert forall|q: int, k: int|
                e0.base() < q <= self.text@.len() && 0 <= k < s1[q].len() implies q - (#[trigger] s1[q][k]).back
                    >= e0.base() by {
                if k < s0[q].len() && s1[q][k] == s0[q][k] {
                    assert(q - s0[q][k].back >= e0.base());
                }
            }
            Self::lemma_settled_prefix(&e0, self);
            let t = root_trail(s0);
            assert(root_trail(s1) == t);
            let r0 = render(dict, text, s0, chain(s0, e0.base(), 0));
            let r1 = render(dict, text, s1, chain(s1, self.base(), 0));
            assert(r0 =~= r1.subrange(0, r0.len() as int));
            assert((t + r0) =~= (t + r1).subrange(0, (t + r0).len() as int));
            assert forall|p: int, j: int| 0 <= p <= e0.cur implies #[trigger] self.whole_render(p, j) == e0.whole_render(p, j) by {
                lemma_chain_agree(s0, s1, p, j);
                lemma_chain_positions(s0, p, j);
                let c0 = chain(s0, p, j);
                assert forall|k: int| 0 <= k < c0.len() implies s1[(#[trigger] c0[k]).0] == s0[c0[k].0] by {
                    assert(0 < c0[k].0 <= p);
                }
                lemma_render_agree(dict, text, s0, s1, c0);
            }
        }
    }

    /// Ends the text: a state whose step typed a code that does not end in
    /// a digit must confirm it with a space, which is added to its cost and
    /// its typing; the cheapest state at the end of the text is kept alone
    /// and settled; its cost is returned.
    pub fn proc_end<M: CostModel<Cost = C>>(&mut self, model: &M) -> (cost: C)
        requires
            old(self).wf(),
            old(self).cur() == old(self).text().len(),
        ensures
            final(self).wf(),
            final(self).dict() == old(self).dict(),
            final(self).written() == old(self).written(),
            final(self).text() == old(self).text(),
            final(self).cur() == old(self).cur(),
            final(self).base() == old(self).cur(),
            final(self).end() == old(self).end(),
            final(self).states().len() == old(self).states().len(),
            forall|p: int| 0 <= p < old(self).cur() ==> #[trigger] final(self).states()[p] == old(self).states()[p],
            final(self).states()[old(self).cur()].len() == 1,
            exists|j: int|
                0 <= j < old(self).states()[old(self).cur()].len() && #[trigger] ended(
                    old(self).states()[old(self).cur()][j],
                    final(self).states()[old(self).cur()][0],
                ),
            final(self).written() + final(self).settled() == final(self).whole_render(final(self).text().len() as int, 0),
            final(self).states()[old(self).cur()][0] == closed(
                model,
                old(self).states()[old(self).cur()][end_choice(model, old(self).states()[old(self).cur()])],
            ),
            cost == final(self).states()[old(self).cur()][0].cost,
            old(self).costs_follow(model) && (forall|k: int|
                0 <= k < old(self).states()[old(self).cur()].len() ==> !(#[trigger] old(self).states()[old(
                    self,
                ).cur()][k]).trail) ==> final(self).costs_follow(model),
    {
        let p = self.cur;
        let n = self.states[p].len();
        let ghost s0 = self.states();
        let first = self.states[p][0];
        let mut best = first;
        let mut best_j: usize = 0;
        best.trail = needs_trail(first.last, first.node);
        if best.trail {
            best.cost = model.add(first.cost, model.pair(first.last, ' '));
        }
        let mut j: usize = 1;
        proof {
            assert(best == closed(model, first));
            assert(s0[p as int].take(1).len() == 1);
        }
        while j < n
            invariant
                self.wf(),
                self.states() == s0,
                p == self.cur,
                n == s0[p as int].len(),
                1 <= j <= n,
                best_j < n,
                ended(s0[p as int][best_j as int], best),
                best == closed(model, s0[p as int][best_j as int]),
                best_j == end_choice(model, s0[p as int].take(j as int)),
                best_j < j,
            decreases n - j,
        {
            let mut s = self.states[p][j];
            s.trail = needs_trail(s.last, s.node);
            if s.trail {
                s.cost = model.add(s.cost, model.pair(s.last, ' '));
            }
            proof {
                assert(ended(s0[p as int][j as int], s));
                assert(s == closed(model, s0[p as int][j as int]));
                let v = s0[p as int].take(j + 1);
                assert(v.drop_last() =~= s0[p as int].take(j as int));
                assert(v.last() == s0[p as int][j as int]);
                assert(v[best_j as int] == s0[p as int][best_j as int]);
            }
            if model.total_less(s.cost, best.cost) {
                best = s;
                best_j = j;
            }
            j += 1;
        }
        proof {
            assert(s0[p as int].take(n as int) =~= s0[p as int]);
        }
        let mut one: Vec<State<C>> = Vec::new();
        one.push(best);
        self.states.set(p, one);
        self.base = p;
        proof {
            let s1 = self.states();
            let text = self.text@;
            let dict = *self.dict;
            reveal(one_state_per_key);
            assert forall|q: int, k1: int, k2: int|
                0 <= q < s1.len() && 0 <= k1 < k2 < s1[q].len() implies !same_key(#[trigger] s1[q][k1], #[trigger] s1[q][k2]) by {
                if q != p {
                    assert(s1[q] == s0[q]);
                }
            }
            assert(s1 == s0.update(p as int, seq![best]));
            assert forall|q: int| 0 <= q < s1.len() && q != p implies #[trigger] s1[q] == s0[q] by {}
            assert(s1[p as int][0] == best);
            if p > 0 {
                assert(state_ok(dict, text, s0, p as int, s0[p as int][best_j as int]));
                assert(s1[p - best.back] == s0[p - best.back]);
                assert(piece_text(dict, text, p as int, best) == piece_text(dict, text, p as int, s0[p as int][best_j as int]));
            } else {
                assert(best.back == 0);
            }
            assert forall|q: int, k: int|
                1 <= q <= text.len() && 0 <= k < s1[q].len() implies state_ok(dict, text, s1, q, #[trigger] s1[q][k]) by {
                if q != p {
                    assert(s1[q] == s0[q]);
                    assert(state_ok(dict, text, s0, q, s0[q][k]));
                    assert(s1[q - s0[q][k].back] == s0[q - s0[q][k].back]);
                }
            }
            assert(ended(s0[p as int][best_j as int], s1[p as int][0]));
            if costs_ok(model, dict, text, s0) && (forall|k: int| 0 <= k < s0[p as int].len() ==> !(#[trigger] s0[p as int][k]).trail) {
                assert forall|q: int, k: int| 1 <= q < s1.len() && 0 <= k < s1[q].len() implies #[trigger] cost_ok(
                    model,
                    dict,
                    text,
                    s1,
                    q,
                    s1[q][k],
                ) by {
                    let x = s1[q][k];
                    assert(state_ok(dict, text, s1, q, x));
                    assert(s1[q - x.back] == s0[q - x.back]);
                    if q != p {
                        assert(s1[q] == s0[q]);
                        assert(cost_ok(model, dict, text, s0, q, s0[q][k]));
                        assert(step_cost(model, dict, text, s1, q, x) == step_cost(model, dict, text, s0, q, x));
                    } else {
                        let o = s0[p as int][best_j as int];
                        assert(cost_ok(model, dict, text, s0, q, o));
                        assert(x == closed(model, o));
                        assert(!o.trail);
                        assert(step_cost(model, dict, text, s1, q, State { trail: false, ..x }) == step_cost(model, dict, text, s0, q, o));
                    }
                }
            }
        }
        best.cost
    }

    /// What is settled stays settled: a later state of the encoder, on the
    /// same dictionary and text, that keeps the states up to the earlier
    /// `base` and whose steps after it do not go back over it, settles a
    /// typing whose keys begin with those settled before.
    pub proof fn lemma_settled_prefix(e1: &Self, e2: &Self)
        requires
            e1.wf(),
            e2.wf(),
            e1.dict() == e2.dict(),
            e1.text() == e2.text(),
            e1.base() <= e2.base(),
            forall|q: int| 0 <= q <= e1.base() ==> #[trigger] e2.states()[q] == e1.states()[q],
            forall|q: int, k: int|
                e1.base() < q <= e2.text().len() && 0 <= k < e2.states()[q].len() ==> q - (
                #[trigger] e2.states()[q][k]).back >= e1.base(),
        ensures
            render(e1.dict(), e1.text(), e1.states(), chain(e1.states(), e1.base(), 0)).is_prefix_of(
                render(e2.dict(), e2.text(), e2.states(), chain(e2.states(), e2.base(), 0)),
            ),
    {
        let s1 = e1.states();
        let s2 = e2.states();
        let dict = e1.dict();
        let text = e1.text();
        let b1 = e1.base();
        let b2 = e2.base();
        lemma_chain_agree(s1, s2, b1, 0);
        let c1 = chain(s1, b1, 0);
        assert(s2[b1].len() == 1);
        assert forall|q: int, k: int| b1 < q <= b2 && 0 <= k < s2[q].len() implies 1 <= (#[trigger] s2[q][k]).back
            && q - s2[q][k].back >= b1 && s2[q][k].from < s2[q - s2[q][k].back].len() by {
            assert(state_ok(dict, text, s2, q, s2[q][k]));
        }
        lemma_chain_through(s2, b1, b2, 0);
        let c2 = chain(s2, b2, 0);
        let rest = c2.skip(c1.len() as int);
        assert(c2 =~= c1 + rest);
        lemma_render_concat(dict, text, s2, c1, rest);
        lemma_chain_positions(s1, b1, 0);
        assert forall|k: int| 0 <= k < c1.len() implies s2[(#[trigger] c1[k]).0] == s1[c1[k].0] by {
            assert(0 < c1[k].0 <= b1);
        }
        lemma_render_agree(dict, text, s1, s2, c1);
        let r1 = render(dict, text, s1, c1);
        let r2 = render(dict, text, s2, c2);
        assert(r2 == r1 + render(dict, text, s2, rest));
        assert(r1 =~= r2.subrange(0, r1.len() as int));
    }

    /// Dropping the settled part loses nothing: where `e2` is `e1` without
    /// the text and states before `e1`'s `base`, the typing that ends with a
    /// state of `e2` is what the same state of `e1` types after the typing
    /// settled at that `base`.
    pub proof fn lemma_shrink_keeps_typings(e1: &Self, e2: &Self, p: int, j: int)
        requires
            e1.wf(),
            e2.wf(),
            e2.dict() == e1.dict(),
            e2.text() == e1.text().skip(e1.base()),
            e2.states().len() == e1.states().len() - e1.base(),
            forall|q: int| 0 < q < e2.states().len() ==> #[trigger] e2.states()[q] == e1.states()[q + e1.base()],
            0 <= p <= e2.text().len(),
            0 <= j < e2.states()[p].len(),
        ensures
            render(e1.dict(), e1.text(), e1.states(), chain(e1.states(), p + e1.base(), j)) == render(
                e1.dict(),
                e1.text(),
                e1.states(),
                chain(e1.states(), e1.base(), 0),
            ) + render(e2.dict(), e2.text(), e2.states(), chain(e2.states(), p, j)),
    {
        let s1 = e1.states();
        let s2 = e2.states();
        let b = e1.base();
        let dict = e1.dict();
        assert forall|q: int, k: int| 0 < q < s2.len() && 0 <= k < s2[q].len() implies 1 <= (#[trigger] s2[q][k]).back
            <= q && s2[q][k].from < s2[q - s2[q][k].back].len() by {
            assert(state_ok(dict, e2.text(), s2, q, s2[q][k]));
        }
        lemma_chain_shift(s1, s2, b, p, j);
        let c2 = chain(s2, p, j);
        lemma_chain_positions(s2, p, j);
        assert forall|k: int| 0 <= k < c2.len() implies 0 < (#[trigger] c2[k]).0 <= e2.text().len() && s2[c2[k].0]
            == s1[c2[k].0 + b] by {
            assert(0 < c2[k].0 <= p);
        }
        lemma_render_shift(dict, e1.text(), s1, e2.text(), s2, b, c2);
        lemma_render_concat(dict, e1.text(), s1, chain(s1, b, 0), shift_links(c2, b));
    }

    /// Shrinking keeps what every typing types from the start of the whole
    /// text: with `e2` the encoder after dropping what `e1` settled and
    /// handing it on, each state types the same keys from the start.
    pub proof fn lemma_shrink_whole(e1: &Self, e2: &Self)
        requires
            e1.wf(),
            e2.wf(),
            e2.dict() == e1.dict(),
            e2.text() == e1.text().skip(e1.base()),
            e2.states().len() == e1.states().len() - e1.base(),
            forall|q: int| 0 < q < e2.states().len() ==> #[trigger] e2.states()[q] == e1.states()[q + e1.base()],
            !e2.states()[0][0].trail,
            e2.written() == e1.written() + e1.settled(),
        ensures
            forall|p: int, j: int|
                0 <= p <= e2.text().len() && 0 <= j < e2.states()[p].len() ==> #[trigger] e2.whole_render(p, j)
                    == e1.whole_render(p + e1.base(), j),
    {
        let b = e1.base();
        assert forall|p: int, j: int|
            0 <= p <= e2.text().len() && 0 <= j < e2.states()[p].len() implies #[trigger] e2.whole_render(p, j)
                == e1.whole_render(p + b, j) by {
            Self::lemma_shrink_keeps_typings(e1, e2, p, j);
            assert(root_trail(e2.states()) =~= Seq::<char>::empty());
            let w = e1.written();
            let t = root_trail(e1.states());
            let r1 = render(e1.dict(), e1.text(), e1.states(), chain(e1.states(), b, 0));
            let r2 = render(e2.dict(), e2.text(), e2.states(), chain(e2.states(), p, j));
            assert(e2.whole_render(p, j) =~= w + (t + r1) + Seq::<char>::empty() + r2);
            assert(e1.whole_render(p + b, j) =~= w + t + (r1 + r2));
        }
    }

    /// `end` is the furthest position that a state reaches: a state lies
    /// there and none beyond it. A character is typed as it is exactly where
    /// `cur` has caught up with `end`, so a word that starts where no typing
    /// arrives moves nothing.
    pub proof fn lemma_end_is_furthest(&self)
        requires
            self.wf(),
        ensures
            self.cur() <= self.end() <= self.text().len(),
            self.states()[self.end()].len() >= 1,
            forall|q: int| self.end() < q <= self.text().len() ==> (#[trigger] self.states()[q]).len() == 0,
    {
    }

    /// Feeding more text keeps every state's cost what its step costs: the
    /// states and the text they cover are kept, and the new positions are
    /// empty.
    pub proof fn lemma_feed_keeps_costs<M: CostModel<Cost = C>>(model: &M, e1: &Self, e2: &Self)
        requires
            e1.wf(),
            e2.wf(),
            e2.dict() == e1.dict(),
            e1.text().len() <= e2.text().len(),
            e2.text().take(e1.text().len() as int) == e1.text(),
            forall|p: int| 0 <= p < e1.states().len() ==> #[trigger] e2.states()[p] == e1.states()[p],
            forall|p: int| e1.states().len() <= p < e2.states().len() ==> (#[trigger] e2.states()[p]).len() == 0,
            e1.costs_follow(model),
        ensures
            e2.costs_follow(model),
    {
        let (s1, s2, t1, t2, dict) = (e1.states(), e2.states(), e1.text(), e2.text(), e1.dict());
        assert forall|q: int, k: int| 1 <= q < s2.len() && 0 <= k < s2[q].len() implies #[trigger] cost_ok(
            model,
            dict,
            t2,
            s2,
            q,
            s2[q][k],
        ) by {
            assert(q < s1.len());
            let x = s2[q][k];
            assert(x == s1[q][k]);
            assert(state_ok(dict, t1, s1, q, x));
            assert(s2[q - x.back] == s1[q - x.back]);
            assert(t2.take(t1.len() as int)[q - 1] == t2[q - 1]);
            assert(step_cost(model, dict, t2, s2, q, x) == step_cost(model, dict, t1, s1, q, x));
            assert(cost_ok(model, dict, t1, s1, q, x));
        }
    }

    /// Dropping the settled part keeps every state's cost what its step
    /// costs: the settled state, made the root, keeps its cost and key.
    pub proof fn lemma_shrink_keeps_costs<M: CostModel<Cost = C>>(model: &M, e1: &Self, e2: &Self)
        requires
            e1.wf(),
            e2.wf(),
            e2.dict() == e1.dict(),
            e1.base() > 0,
            e2.text() == e1.text().skip(e1.base()),
            e2.states().len() == e1.states().len() - e1.base(),
            forall|q: int| 0 < q < e2.states().len() ==> #[trigger] e2.states()[q] == e1.states()[q + e1.base()],
            e2.states()[0] == seq![rooted(e1.states()[e1.base()][0])],
            e1.costs_follow(model),
        ensures
            e2.costs_follow(model),
    {
        let (s1, s2, t1, t2, dict, b) = (e1.states(), e2.states(), e1.text(), e2.text(), e1.dict(), e1.base());
        assert forall|q: int, k: int| 1 <= q < s2.len() && 0 <= k < s2[q].len() implies #[trigger] cost_ok(
            model,
            dict,
            t2,
            s2,
            q,
            s2[q][k],
        ) by {
            let x = s2[q][k];
            assert(x == s1[q + b][k]);
            assert(state_ok(dict, t2, s2, q, x));
            assert(state_ok(dict, t1, s1, q + b, x));
            let r2 = s2[q - x.back][x.from as int];
            let r1 = s1[q + b - x.back][x.from as int];
            if q - x.back > 0 {
                assert(s2[q - x.back] == s1[q - x.back + b]);
            } else {
                assert(x.from == 0);
                assert(r2 == rooted(s1[b as int][0]));
            }
            assert(r2.cost == r1.cost && r2.last == r1.last);
            assert(t2[q - 1] == t1[q + b - 1]);
            assert(step_cost(model, dict, t2, s2, q, x) == step_cost(model, dict, t1, s1, q + b, x));
            assert(cost_ok(model, dict, t1, s1, q + b, x));
        }
    }

    /// Feeding more text keeps every position relaxed, where no word from
    /// a position before `cur` could go on past the old end (the positions
    /// are sealed).
    pub proof fn lemma_feed_keeps_relaxed<M: CostModel<Cost = C>>(model: &M, e1: &Self, e2: &Self)
        requires
            e1.wf(),
            e2.wf(),
            e2.dict() == e1.dict(),
            e2.cur() == e1.cur(),
            e1.text().len() <= e2.text().len(),
            e2.text().take(e1.text().len() as int) == e1.text(),
            forall|p: int| 0 <= p < e1.states().len() ==> #[trigger] e2.states()[p] == e1.states()[p],
            e1.sealed(),
            e1.relaxed(model),
        ensures
            e2.relaxed(model),
    {
        let (s1, s2, t1, t2, dict) = (e1.states(), e2.states(), e1.text(), e2.text(), e1.dict());
        assert(t2 =~= t1 + t2.skip(t1.len() as int));
        assert forall|q: int| 0 <= q < e2.cur() implies #[trigger] relaxed_at(model, dict, t2, s2, q) by {
            assert(relaxed_at(model, dict, t1, s1, q));
            assert(sealed_at(dict, t1, q));
            assert forall|i: int, n: int, t: int, l: int|
                0 <= i < s2[q].len() && 1 <= l <= t2.len() - q && 0 <= n < dict.word_paths().len() && dict.word_paths()[n]
                    == t2.subrange(q, q + l) && 0 <= t < dict.info_codes(n).len() implies #[trigger] has_key_within(
                    model,
                    s2[q + l],
                    code_key(dict, n, t),
                    code_step(model, dict, s2, q, l, n, t, i).cost,
                ) by {
                assert(s2[q] == s1[q]);
                assert(code_step(model, dict, s2, q, l, n, t, i) == code_step(model, dict, s1, q, l, n, t, i));
                if q + l <= t1.len() {
                    assert(t2.subrange(q, q + l) =~= t1.subrange(q, q + l));
                    assert(has_key_within(model, s1[q + l], code_key(dict, n, t), code_step(model, dict, s1, q, l, n, t, i).cost));
                    assert(s2[q + l] == s1[q + l]);
                } else {
                    assert(has_path(dict.word_paths(), t2.subrange(q, q + l)));
                    lemma_sealed_extend(dict, t1, t2.skip(t1.len() as int), q, q + l);
                }
            }
        }
    }

    /// Dropping the settled part keeps every position relaxed.
    pub proof fn lemma_shrink_keeps_relaxed<M: CostModel<Cost = C>>(model: &M, e1: &Self, e2: &Self)
        requires
            e1.wf(),
            e2.wf(),
            e2.dict() == e1.dict(),
            e1.base() > 0,
            e2.cur() == e1.cur() - e1.base(),
            e2.text() == e1.text().skip(e1.base()),
            e2.states().len() == e1.states().len() - e1.base(),
            forall|q: int| 0 < q < e2.states().len() ==> #[trigger] e2.states()[q] == e1.states()[q + e1.base()],
            e2.states()[0] == seq![rooted(e1.states()[e1.base()][0])],
            e1.relaxed(model),
        ensures
            e2.relaxed(model),
    {
        let (s1, s2, t1, t2, dict, b) = (e1.states(), e2.states(), e1.text(), e2.text(), e1.dict(), e1.base());
        assert forall|q: int| 0 <= q < e2.cur() implies #[trigger] relaxed_at(model, dict, t2, s2, q) by {
            assert(relaxed_at(model, dict, t1, s1, q + b));
            assert forall|i: int, n: int, t: int, l: int|
                0 <= i < s2[q].len() && 1 <= l <= t2.len() - q && 0 <= n < dict.word_paths().len() && dict.word_paths()[n]
                    == t2.subrange(q, q + l) && 0 <= t < dict.info_codes(n).len() implies #[trigger] has_key_within(
                    model,
                    s2[q + l],
                    code_key(dict, n, t),
                    code_step(model, dict, s2, q, l, n, t, i).cost,
                ) by {
                if q == 0 {
                    assert(s1[b as int].len() == 1);
                    assert(s2[q][i] == rooted(s1[q + b][i]));
                } else {
                    assert(s2[q] == s1[q + b]);
                }
                assert(code_step(model, dict, s2, q, l, n, t, i) == code_step(model, dict, s1, q + b, l, n, t, i));
                assert(t2.subrange(q, q + l) =~= t1.subrange(q + b, q + b + l));
                assert(has_key_within(model, s1[q + b + l], code_key(dict, n, t), code_step(model, dict, s1, q + b, l, n, t, i).cost));
                assert(s2[q + l] == s1[q + l + b]);
            }
        }
    }

    /// The kept states are the cheapest: under a cost order that is total
    /// and kept by adding, no typing by dictionary codes from the state at
    /// position 0 to a position up to `cur` costs less than the state kept
    /// there with the same key.
    pub proof fn lemma_no_cheaper_typing<M: CostModel<Cost = C>>(&self, model: &M, steps: Seq<(int, int, int)>)
        requires
            self.wf(),
            monotone_order(model),
            self.relaxed(model),
            path_end(model, self.dict(), self.text(), self.states()[0][0], steps) is Some,
            path_end(model, self.dict(), self.text(), self.states()[0][0], steps).unwrap().0 <= self.cur(),
        ensures
            ({
                let (p, last, node, c) = path_end(model, self.dict(), self.text(), self.states()[0][0], steps)->0;
                &&& 0 <= p
                &&& has_key_within(model, self.states()[p], (last, node), c)
            }),
        decreases steps.len(),
    {
        let dict = self.dict();
        let text = self.text();
        let st = self.states();
        let r0 = st[0][0];
        if steps.len() == 0 {
            assert(st[0][0].last == r0.last && st[0][0].node == r0.node && !model.spec_less(r0.cost, st[0][0].cost));
        } else {
            let prev = path_end(model, dict, text, r0, steps.drop_last());
            let (q, last, node, c) = prev->0;
            let (n, t, l) = steps.last();
            self.lemma_no_cheaper_typing(model, steps.drop_last());
            let i = choose|k: int| 0 <= k < st[q].len() && (#[trigger] st[q][k]).last == last && st[q][k].node == node
                && !model.spec_less(c, st[q][k].cost);
            let r = st[q][i];
            assert(q < self.cur());
            assert(relaxed_at(model, dict, text, st, q));
            let cs = code_step(model, dict, st, q, l, n, t, i);
            assert(has_key_within(model, st[q + l], code_key(dict, n, t), cs.cost));
            let x = choose|k: int| 0 <= k < st[q + l].len() && (#[trigger] st[q + l][k]).last == code_key(dict, n, t).0
                && st[q + l][k].node == code_key(dict, n, t).1 && !model.spec_less(cs.cost, st[q + l][k].cost);
            let code = dict.info_codes(n)[t];
            let space = node > 0 && space_needed(dict, node, code[0]);
            let d = delta_cost(model, last, code[0], space);
            let pc = model.spec_add(model.spec_add(c, d), dict.info_costs(n)[t]);
            assert(!model.spec_less(model.spec_add(c, d), model.spec_add(r.cost, d)));
            assert(!model.spec_less(pc, cs.cost));
            let xc = st[q + l][x].cost;
            if model.spec_less(pc, xc) {
                if model.spec_less(xc, cs.cost) {
                    assert(model.spec_less(pc, cs.cost));
                } else if model.spec_less(cs.cost, xc) {
                } else {
                    assert(cs.cost == xc);
                }
            }
            assert(has_key_within(model, st[q + l], (code.last(), dict.info_nodes(n)[t]), pc));
        }
    }

    /// The text ends on the cheapest typing: where, besides the conditions
    /// of `lemma_no_cheaper_typing`, the model's total order is its `less`
    /// and the whole text has been worked through, no typing of the text by
    /// dictionary codes, closed with its space where one is needed, costs
    /// less than the state that `proc_end` keeps.
    pub proof fn lemma_end_no_cheaper_typing<M: CostModel<Cost = C>>(&self, model: &M, steps: Seq<(int, int, int)>)
        requires
            self.wf(),
            monotone_order(model),
            forall|a: C, b: C| #[trigger] model.spec_total_less(a, b) == model.spec_less(a, b),
            self.relaxed(model),
            self.cur() == self.text().len(),
            path_end(model, self.dict(), self.text(), self.states()[0][0], steps) is Some,
            path_end(model, self.dict(), self.text(), self.states()[0][0], steps).unwrap().0 == self.cur(),
        ensures
            ({
                let (p, last, node, c) = path_end(model, self.dict(), self.text(), self.states()[0][0], steps)->0;
                let cc = if trail_needed(last, node) {
                    model.spec_add(c, model.spec_pair(last, ' '))
                } else {
                    c
                };
                let v = self.states()[p];
                !model.spec_less(cc, closed(model, v[end_choice(model, v)]).cost)
            }),
    {
        self.lemma_no_cheaper_typing(model, steps);
        let (p, last, node, c) = path_end(model, self.dict(), self.text(), self.states()[0][0], steps)->0;
        let v = self.states()[p];
        let x = choose|k: int| 0 <= k < v.len() && (#[trigger] v[k]).last == last && v[k].node == node
            && !model.spec_less(c, v[k].cost);
        let cc = if trail_needed(last, node) {
            model.spec_add(c, model.spec_pair(last, ' '))
        } else {
            c
        };
        let cx = closed(model, v[x]).cost;
        assert(!model.spec_less(cc, cx));
        assert forall|a: C| !#[trigger] model.spec_total_less(a, a) by {
            assert(model.spec_total_less(a, a) == model.spec_less(a, a));
        }
        assert forall|a: C, b: C, d: C| #[trigger] model.spec_total_less(a, b) && #[trigger] model.spec_total_less(b, d)
            implies model.spec_total_less(a, d) by {
            assert(model.spec_total_less(a, b) == model.spec_less(a, b));
            assert(model.spec_total_less(b, d) == model.spec_less(b, d));
            assert(model.spec_total_less(a, d) == model.spec_less(a, d));
        }
        lemma_end_choice_least(model, v);
        let cb = closed(model, v[end_choice(model, v)]).cost;
        assert(!model.spec_total_less(cx, cb));
        assert(model.spec_total_less(cx, cb) == model.spec_less(cx, cb));
        if model.spec_less(cc, cb) {
            if model.spec_less(cx, cc) {
                assert(model.spec_less(cx, cb));
            } else if model.spec_less(cc, cx) {
            } else {
                assert(cx == cc);
            }
        }
    }

    /// One state per key: at every position, no two states share their last
    /// key and code node, so of the typings that reach a position and go on
    /// alike, one is kept.
    pub proof fn lemma_one_state_per_key(&self)
        requires
            self.wf(),
        ensures
            forall|p: int, k1: int, k2: int|
                0 <= p < self.states().len() && 0 <= k1 < k2 < self.states()[p].len() ==> !same_key(
                    #[trigger] self.states()[p][k1],
                    #[trigger] self.states()[p][k2],
                ),
    {
        reveal(one_state_per_key);
    }

    /// What the typing that ends with a state after position 0 types ends
    /// with the state's last key, when no closing space follows it.
    #[verifier::spinoff_prover]
    proof fn lemma_render_last(&self, q: int, i: int)
        requires
            self.wf(),
            1 <= q <= self.text().len(),
            0 <= i < self.states()[q].len(),
            !self.states()[q][i].trail,
        ensures
            render(self.dict(), self.text(), self.states(), chain(self.states(), q, i)).len() >= 1,
            render(self.dict(), self.text(), self.states(), chain(self.states(), q, i)).last()
                == self.states()[q][i].last,
    {
        let st = self.states();
        let dict = self.dict();
        let text = self.text();
        let s = st[q][i];
        assert(state_ok(dict, text, st, q, s));
        let links = chain(st, q, i);
        let prev = chain(st, q - s.back, s.from as int);
        assert(links == prev.push((q, i)));
        assert(links.drop_last() =~= prev);
        let pt = piece_text(dict, text, q, s);
        match s.piece {
            Piece::Raw => {},
            Piece::Code(n, t) => {
                dict.lemma_infos(n as int, t as int);
            },
        }
        let sp: Seq<char> = if s.space {
            seq![' ']
        } else {
            Seq::empty()
        };
        assert(step_text(dict, text, st, (q, i)) =~= sp + pt);
        let w = render(dict, text, st, links);
        assert(w == render(dict, text, st, prev) + (sp + pt));
        assert(w.last() == pt.last());
    }

    /// The cost of a typing is the sum of the pair costs of the successive
    /// keys it types, spaces included: where costs add up like numbers, the
    /// cost of every state is the cost of the root, then the costs of the
    /// successive key pairs of what its typing types, from the key the root
    /// ended with; a space typed between keys `a` and `b` costs the pairs
    /// `(a, ' ')` and `(' ', b)`, and the closing space after the last key
    /// `a` the pair `(a, ' ')`. From the start of a text, the cost is the
    /// sum of the pair costs over the typed keys alone. A typing that passes
    /// a raw step that no state could reach more cheaply than the model's
    /// infinity carries that infinity instead. This holds where the
    /// dictionary records its codes' costs under `model`, no key is the
    /// start marker `'\0'`, and no state before the position carries the
    /// closing space, which only ends a text.
    #[verifier::spinoff_prover]
    #[verifier::rlimit(40)]
    pub proof fn lemma_cost_is_pair_sum<M: CostModel<Cost = C>>(&self, model: &M, p: int, j: int)
        requires
            self.wf(),
            self.costs_follow(model),
            adds_up(model),
            costs_recorded(model, self.dict()),
            no_start_keys(self.dict(), self.text()),
            self.states()[0][0].last == '\0' ==> self.states()[0][0].node == 0,
            0 <= p <= self.text().len(),
            0 <= j < self.states()[p].len(),
            forall|q: int, k: int|
                0 <= q < p && 0 <= k < self.states()[q].len() ==> !(#[trigger] self.states()[q][k]).trail,
        ensures
            meets_infinity(model, self.states(), chain(self.states(), p, j)) || self.states()[p][j].cost
                == model.spec_add(
                self.states()[0][0].cost,
                code_cost(
                    model,
                    root_key(self.states()[0][0]) + render(
                        self.dict(),
                        self.text(),
                        self.states(),
                        chain(self.states(), p, j),
                    ),
                ),
            ),
            is_start(self.states()[0][0]) && self.states()[0][0].cost == model.spec_zero() ==> meets_infinity(
                model,
                self.states(),
                chain(self.states(), p, j),
            ) || self.states()[p][j].cost == code_cost(
                model,
                render(self.dict(), self.text(), self.states(), chain(self.states(), p, j)),
            ),
        decreases p,
    {
        let st = self.states();
        let dict = self.dict();
        let text = self.text();
        let root = st[0][0];
        let r0 = root.cost;
        let links = chain(st, p, j);
        let w = render(dict, text, st, links);
        let z = model.spec_zero();
        lemma_regroup(model, r0, z, z, z, z);
        if p == 0 {
            assert(j == 0);
            assert(links =~= Seq::<(int, int)>::empty());
            assert(w =~= Seq::<char>::empty());
            assert(root_key(root) + w =~= root_key(root));
            assert(code_cost(model, root_key(root)) == z);
        } else {
            let s = st[p][j];
            assert(state_ok(dict, text, st, p, s));
            let q = p - s.back;
            let i = s.from as int;
            let prev = chain(st, q, i);
            assert(links == prev.push((p, j)));
            assert(links.drop_last() =~= prev);
            let wp = render(dict, text, st, prev);
            assert(w == wp + step_text(dict, text, st, (p, j)));
            self.lemma_cost_is_pair_sum(model, q, i);
            let r = st[q][i];
            if meets_infinity(model, st, prev) {
                let k = choose|k: int|
                    0 <= k < prev.len() && st[(#[trigger] prev[k]).0][prev[k].1].cost == model.spec_infinity();
                assert(links[k] == prev[k]);
            } else if s.cost == model.spec_infinity() {
                assert(links[links.len() - 1] == (p, j));
            } else {
                assert(cost_ok(model, dict, text, st, p, s));
                let x = root_key(root) + wp;
                assert(r.cost == model.spec_add(r0, code_cost(model, x)));
                let pt = self.lemma_step_keys(model, p, j);
                let pt2 = if s.trail {
                    pt.push(' ')
                } else {
                    pt
                };
                let sp: Seq<char> = if s.space {
                    seq![' ']
                } else {
                    Seq::empty()
                };
                assert(step_text(dict, text, st, (p, j)) =~= sp + pt2);
                assert(pt2[0] == pt[0]);
                assert(!r.trail);
                if r.last == '\0' {
                    if q >= 1 {
                        self.lemma_no_start_key(q, i);
                    }
                    assert(q == 0 && i == 0);
                    assert(!s.space);
                    assert(prev =~= Seq::<(int, int)>::empty());
                    assert(x =~= Seq::<char>::empty());
                } else {
                    if q == 0 {
                        assert(i == 0);
                        assert(prev =~= Seq::<(int, int)>::empty());
                        assert(x =~= seq![r.last]);
                    } else {
                        self.lemma_render_last(q, i);
                    }
                    assert(x.len() >= 1 && x.last() == r.last);
                }
                lemma_extend_sum(model, r0, x, r.last, s.space, pt2);
                assert(root_key(root) + w =~= x + sp + pt2);
            }
        }
        if is_start(root) && root.cost == z {
            assert(root_key(root) + w =~= w);
            lemma_regroup(model, code_cost(model, w), z, z, z, z);
        }
    }

    /// No state after position 0 ends with the start marker `'\0'`, when
    /// neither the text nor a code holds it.
    proof fn lemma_no_start_key(&self, q: int, i: int)
        requires
            self.wf(),
            no_start_keys(self.dict(), self.text()),
            1 <= q <= self.text().len(),
            0 <= i < self.states()[q].len(),
        ensures
            self.states()[q][i].last != '\0',
    {
        let st = self.states();
        let dict = self.dict();
        let text = self.text();
        let r = st[q][i];
        assert(state_ok(dict, text, st, q, r));
        if r.last == '\0' {
            match r.piece {
                Piece::Raw => {
                    assert(text[q - 1] == '\0');
                    assert(text.contains('\0'));
                },
                Piece::Code(n, t) => {
                    dict.lemma_infos(n as int, t as int);
                    let code = dict.info_codes(n as int)[t as int];
                    assert(code[code.len() - 1] == '\0');
                    assert(code.contains('\0'));
                },
            }
        }
    }

    /// The keys that the step of state `j` at `p` types, its closing space
    /// left out, and what the step costs: the cost of the state it follows,
    /// then the move to its first key, then the cost of its keys, closing
    /// space included.
    #[verifier::spinoff_prover]
    proof fn lemma_step_keys<M: CostModel<Cost = C>>(&self, model: &M, p: int, j: int) -> (pt: Seq<char>)
        requires
            self.wf(),
            adds_up(model),
            costs_recorded(model, self.dict()),
            1 <= p <= self.text().len(),
            0 <= j < self.states()[p].len(),
        ensures
            pt == piece_text(self.dict(), self.text(), p, self.states()[p][j]),
            pt.len() >= 1,
            pt.last() == self.states()[p][j].last,
            ({
                let st = self.states();
                let s = st[p][j];
                let r = st[p - s.back][s.from as int];
                step_cost(model, self.dict(), self.text(), st, p, s) == model.spec_add(
                    model.spec_add(r.cost, delta_cost(model, r.last, pt[0], s.space)),
                    code_cost(
                        model,
                        if s.trail {
                            pt.push(' ')
                        } else {
                            pt
                        },
                    ),
                )
            }),
    {
        let st = self.states();
        let dict = self.dict();
        let text = self.text();
        let s = st[p][j];
        assert(state_ok(dict, text, st, p, s));
        let pt = piece_text(dict, text, p, s);
        let z = model.spec_zero();
        let pc = match s.piece {
            Piece::Raw => z,
            Piece::Code(n, t) => dict.info_costs(n as int)[t as int],
        };
        match s.piece {
            Piece::Raw => {
                assert(pt.len() == 1);
                assert(code_cost(model, pt) == z);
            },
            Piece::Code(n, t) => {
                dict.lemma_infos(n as int, t as int);
                assert(code_cost(model, pt) == pc);
            },
        }
        let r = st[p - s.back][s.from as int];
        let rc = model.spec_add(r.cost, delta_cost(model, r.last, pt[0], s.space));
        let pp = model.spec_pair(s.last, ' ');
        lemma_code_cost_pairs(model, pt, ' ', ' ', ' ');
        lemma_regroup(model, rc, pc, pp, z, z);
        pt
    }

    /// The typing that ends with any state is a typing of the text before
    /// the state's position.
    pub proof fn lemma_chain_types_text(&self, p: int, j: int)
        requires
            self.wf(),
            0 <= p <= self.text().len(),
            0 <= j < self.states()[p].len(),
        ensures
            types_text(self.dict(), self.text(), self.states(), chain(self.states(), p, j), p),
        decreases p,
    {
        let st = self.states();
        let dict = *self.dict;
        let text = self.text@;
        if p > 0 {
            let s = st[p][j];
            assert(state_ok(dict, text, st, p, s));
            let q = p - s.back;
            self.lemma_chain_types_text(q, s.from as int);
            let prev = chain(st, q, s.from as int);
            let links = chain(st, p, j);
            assert(links == prev.push((p, j)));
            assert forall|k: int| 0 <= k < links.len() implies {
                let q2 = (#[trigger] links[k]).0;
                let s2 = st[q2][links[k].1];
                &&& 0 <= links[k].1 < st[q2].len()
                &&& 1 <= s2.back <= q2
                &&& (k == 0 ==> q2 - s2.back == 0 && s2.from == 0)
                &&& (k > 0 ==> q2 - s2.back == links[k - 1].0 && s2.from == links[k - 1].1)
                &&& match s2.piece {
                    Piece::Raw => s2.back == 1 && piece_text(dict, text, q2, s2) == seq![text[q2 - 1]],
                    Piece::Code(n, t) => {
                        &&& n < dict.word_paths().len()
                        &&& t < dict.info_codes(n as int).len()
                        &&& dict.word_paths()[n as int] == text.subrange(q2 - s2.back, q2)
                        &&& piece_text(dict, text, q2, s2) == dict.info_codes(n as int)[t as int]
                    },
                }
                &&& s2.space == space_needed(dict, pred_of(st, links, k).node, piece_text(dict, text, q2, s2)[0])
            } by {
                if k < prev.len() {
                    assert(links[k] == prev[k]);
                    if k > 0 {
                        assert(links[k - 1] == prev[k - 1]);
                    }
                    assert(pred_of(st, links, k) == pred_of(st, prev, k));
                } else {
                    assert(links[k] == (p, j));
                    if k == 0 {
                        assert(prev.len() == 0);
                        assert(q == 0);
                        assert(s.from == 0);
                    } else {
                        assert(links[k - 1] == prev.last());
                    }
                }
            }
        } else {
            assert(chain(st, p, j) =~= Seq::<(int, int)>::empty());
        }
    }
}

/// The key that the text before the chunk ended with: the last key of the
/// root state, or none when the root is the start of the text.
pub open spec fn root_key<C>(root: State<C>) -> Seq<char> {
    if root.last == '\0' {
        Seq::empty()
    } else {
        seq![root.last]
    }
}

/// Neither the text nor any code of the dictionary holds the character
/// `'\0'`, which marks the start of the text.
pub open spec fn no_start_keys<C: Copy>(dict: TrieDict<C>, text: Seq<char>) -> bool {
    &&& !text.contains('\0')
    &&& forall|n: int, t: int|
        0 <= n < dict.word_paths().len() && 0 <= t < dict.info_codes(n).len() ==> !(#[trigger] dict.info_codes(
            n,
        )[t]).contains('\0')
}

/// The dictionary records for each code its cost under `model`.
pub open spec fn costs_recorded<M: CostModel>(model: &M, dict: TrieDict<M::Cost>) -> bool {
    forall|n: int, t: int|
        0 <= n < dict.word_paths().len() && 0 <= t < dict.info_codes(n).len() ==> #[trigger] dict.info_costs(n)[t]
            == code_cost(model, dict.info_codes(n)[t])
}

/// Some step of `links` carries the model's infinity, the cost of a
/// position that no state could reach more cheaply than that.
pub open spec fn meets_infinity<M: CostModel>(model: &M, st: Seq<Seq<State<M::Cost>>>, links: Seq<(int, int)>) -> bool {
    exists|k: int| 0 <= k < links.len() && st[(#[trigger] links[k]).0][links[k].1].cost == model.spec_infinity()
}

/// Where costs add up like numbers, one more step adds to the cost of the
/// keys typed so far the move to the step's first key, with the space
/// before it when one is typed, and the cost of the step's keys: together,
/// the cost of all the keys.
proof fn lemma_extend_sum<M: CostModel>(model: &M, r0: M::Cost, x: Seq<char>, rl: char, space: bool, y: Seq<char>)
    requires
        adds_up(model),
        y.len() >= 1,
        (x.len() == 0 && rl == '\0' && !space) || (x.len() >= 1 && x.last() == rl && rl != '\0'),
    ensures
        model.spec_add(
            model.spec_add(model.spec_add(r0, code_cost(model, x)), delta_cost(model, rl, y[0], space)),
            code_cost(model, y),
        ) == model.spec_add(
            r0,
            code_cost(
                model,
                x + (if space {
                    seq![' ']
                } else {
                    Seq::empty()
                }) + y,
            ),
        ),
{
    let z = model.spec_zero();
    let cx = code_cost(model, x);
    let cp = code_cost(model, y);
    lemma_regroup(model, r0, z, z, z, z);
    if x.len() == 0 {
        assert(cx == z);
        assert(x + Seq::<char>::empty() + y =~= y);
    } else if !space {
        let p1 = model.spec_pair(rl, y[0]);
        lemma_regroup(model, r0, cx, p1, cp, z);
        lemma_code_cost_concat(model, x, y);
        assert(x + Seq::<char>::empty() + y =~= x + y);
    } else {
        let p1 = model.spec_pair(rl, ' ');
        let p2 = model.spec_pair(' ', y[0]);
        let sy = seq![' '] + y;
        lemma_regroup(model, r0, cx, p1, p2, cp);
        lemma_regroup(model, p2, z, z, z, z);
        lemma_code_cost_concat(model, x, sy);
        lemma_code_cost_concat(model, seq![' '], y);
        assert(code_cost(model, seq![' ']) == z);
        assert(sy[0] == ' ');
        assert(seq![' '].last() == ' ');
        assert(code_cost(model, sy) == model.spec_add(p2, cp));
        assert(x + seq![' '] + y =~= x + sy);
    }
}

/// State `s` made the root of what is left: it follows nothing, and its
/// closing space, if any, has been handed on with what was settled.
pub open spec fn rooted<C>(s: State<C>) -> State<C> {
    State { back: 0, trail: false, ..s }
}

/// The closing space of the root state: a space when the text ended at the
/// first position of the chunk after a code that needs one.
pub open spec fn root_trail<C>(st: Seq<Seq<State<C>>>) -> Seq<char> {
    if st[0][0].trail {
        seq![' ']
    } else {
        Seq::empty()
    }
}

/// The state that a text starts from: it follows nothing, has typed nothing
/// and needs no space.
pub open spec fn is_start<C>(s: State<C>) -> bool {
    &&& s.back == 0
    &&& s.from == 0
    &&& s.last == '\0'
    &&& s.node == 0
    &&& s.piece is Raw
    &&& !s.space
    &&& !s.trail
}

/// A step whose code ends with `last` at code node `node` must be confirmed
/// with a space at the end of the text: it typed a code, and the code does
/// not end in a digit.
pub open spec fn trail_needed(last: char, node: usize) -> bool {
    !('0' <= last <= '9') && node > 0
}

fn needs_trail(last: char, node: usize) -> (r: bool)
    ensures
        r == trail_needed(last, node),
{
    !('0' <= last && last <= '9') && node > 0
}

/// State `e` is state `s` closed at the end of the text: the same step,
/// followed by a space exactly when one is needed, and at the same cost
/// when none is.
pub open spec fn ended<C>(s: State<C>, e: State<C>) -> bool {
    &&& e.back == s.back
    &&& e.from == s.from
    &&& e.last == s.last
    &&& e.node == s.node
    &&& e.piece == s.piece
    &&& e.space == s.space
    &&& e.trail == trail_needed(s.last, s.node)
    &&& !e.trail ==> e.cost == s.cost
}

/// The cost of going from key `c0` to key `c1`, with a space between them
/// when `space`; nothing after the start of the text.
fn delta<M: CostModel>(model: &M, c0: char, c1: char, space: bool) -> (r: M::Cost)
    ensures
        r == delta_cost(model, c0, c1, space),
{
    if c0 == '\0' {
        model.zero()
    } else if space {
        model.add(model.pair(c0, ' '), model.pair(' ', c1))
    } else {
        model.pair(c0, c1)
    }
}

/// Node 0 of the code trie is the empty code.
proof fn code_root<C: Copy>(dict: TrieDict<C>)
    requires
        dict.wf(),
    ensures
        dict.code_paths().len() >= 1,
{
    dict.lemma_roots();
}

} // verus!
