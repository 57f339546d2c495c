//! Key usage statistics of an encoded text under a keyboard layout.
use crate::layout::{LayoutMap, FINGERS, ROWS};
use vstd::prelude::*;

verus! {

/// The character that stands before the first key of a text.
pub const START: char = '\0';

/// Number of repeat buckets: runs of 2, 3, 4, and 5 or more.
pub const REPEAT_BUCKETS: usize = 4;

/// Number of row distances that a same-finger leap can span (1 to 3).
pub const LEAP_BUCKETS: usize = 3;

/// The finger of `c` under `layout`.
pub open spec fn finger(layout: LayoutMap, c: char) -> int {
    layout.spec_get(c).0 as int
}

/// The row of `c` under `layout`.
pub open spec fn row(layout: LayoutMap, c: char) -> int {
    layout.spec_get(c).1 as int
}

/// A key pressed by one of the eight fingers on one of the four letter rows
/// (neither a thumb nor the space row).
pub open spec fn on_fingers(layout: LayoutMap, c: char) -> bool {
    0 < finger(layout, c) < 9 && 0 < row(layout, c) < 5
}

/// Number of keys of `s` that the finger `f` presses.
pub open spec fn finger_count(layout: LayoutMap, s: Seq<char>, f: int) -> nat
    decreases s.len(),
{
    if s.len() == 0 {
        0
    } else {
        finger_count(layout, s.drop_last(), f) + if finger(layout, s.last()) == f {
            1nat
        } else {
            0nat
        }
    }
}

/// Number of keys of `s` that lie on row `r`.
pub open spec fn row_count(layout: LayoutMap, s: Seq<char>, r: int) -> nat
    decreases s.len(),
{
    if s.len() == 0 {
        0
    } else {
        row_count(layout, s.drop_last(), r) + if row(layout, s.last()) == r {
            1nat
        } else {
            0nat
        }
    }
}

/// Two successive, different keys, both on the eight fingers' letter rows.
pub open spec fn finger_pair(layout: LayoutMap, a: char, b: char) -> bool {
    a != b && on_fingers(layout, a) && on_fingers(layout, b)
}

/// The pair `a b` is typed by one finger jumping over `d` rows.
pub open spec fn is_leap(layout: LayoutMap, a: char, b: char, d: int) -> bool {
    &&& finger_pair(layout, a, b)
    &&& finger(layout, a) == finger(layout, b)
    &&& (row(layout, a) - row(layout, b) == d || row(layout, b) - row(layout, a) == d)
}

/// The pair `a b` is typed by the two hands in turn.
pub open spec fn is_switch(layout: LayoutMap, a: char, b: char) -> bool {
    &&& finger_pair(layout, a, b)
    &&& finger(layout, a) != finger(layout, b)
    &&& (finger(layout, a) < 5) != (finger(layout, b) < 5)
}

/// Number of successive key pairs of `s` that leap over `d` rows with one finger.
pub open spec fn leap_count(layout: LayoutMap, s: Seq<char>, d: int) -> nat
    decreases s.len(),
{
    if s.len() < 2 {
        0
    } else {
        leap_count(layout, s.drop_last(), d) + if is_leap(layout, s[s.len() - 2], s.last(), d) {
            1nat
        } else {
            0nat
        }
    }
}

/// Number of successive key pairs of `s` that alternate hands.
pub open spec fn switch_count(layout: LayoutMap, s: Seq<char>) -> nat
    decreases s.len(),
{
    if s.len() < 2 {
        0
    } else {
        switch_count(layout, s.drop_last()) + if is_switch(layout, s[s.len() - 2], s.last()) {
            1nat
        } else {
            0nat
        }
    }
}

/// Length of the run of one repeated character at the end of `t`.
pub open spec fn trailing_run(t: Seq<char>) -> nat
    decreases t.len(),
{
    if t.len() <= 1 {
        t.len()
    } else if t[t.len() - 2] == t.last() {
        trailing_run(t.drop_last()) + 1
    } else {
        1
    }
}

/// The bucket of a repeated run of length `n` (at least 2): 2, 3, 4, 5 or more.
pub open spec fn repeat_bucket(n: nat) -> int {
    if n >= 5 {
        3
    } else {
        n - 2
    }
}

/// A run of length `n` repeats its key and falls in bucket `b`.
pub open spec fn counts_in(n: nat, b: int) -> bool {
    n >= 2 && repeat_bucket(n) == b
}

/// Number of runs of one repeated character in `t` that have ended (a
/// different character follows them) and fall in bucket `b`.
pub open spec fn ended_runs(t: Seq<char>, b: int) -> nat
    decreases t.len(),
{
    if t.len() < 2 {
        0
    } else {
        ended_runs(t.drop_last(), b) + if t[t.len() - 2] != t.last() && counts_in(
            trailing_run(t.drop_last()),
            b,
        ) {
            1nat
        } else {
            0nat
        }
    }
}

/// Number of maximal runs of one repeated character in `t` that fall in bucket `b`.
pub open spec fn run_count(t: Seq<char>, b: int) -> nat {
    ended_runs(t, b) + if counts_in(trailing_run(t), b) {
        1nat
    } else {
        0nat
    }
}

/// The keys of `s` with the start character before them.
pub open spec fn with_start(s: Seq<char>) -> Seq<char> {
    seq![START] + s
}

/// A pair of successive keys alternates hands whichever of the two comes
/// first.
pub proof fn lemma_switch_symmetric(layout: LayoutMap, a: char, b: char)
    ensures
        is_switch(layout, a, b) == is_switch(layout, b, a),
{
}

/// Counting the hand alternations from the front: the first pair, then
/// the pairs of the rest.
proof fn lemma_switch_count_front(layout: LayoutMap, s: Seq<char>)
    requires
        s.len() >= 2,
    ensures
        switch_count(layout, s) == switch_count(layout, s.drop_first()) + if is_switch(layout, s[0], s[1]) {
            1nat
        } else {
            0nat
        },
    decreases s.len(),
{
    if s.len() > 2 {
        lemma_switch_count_front(layout, s.drop_last());
        assert(s.drop_last().drop_first() =~= s.drop_first().drop_last());
        assert(s.drop_first()[s.drop_first().len() - 2] == s[s.len() - 2]);
        assert(s.drop_first().last() == s.last());
        assert(s.drop_last()[0] == s[0] && s.drop_last()[1] == s[1]);
        assert(switch_count(layout, s.drop_first()) == switch_count(layout, s.drop_first().drop_last()) + if is_switch(
            layout,
            s[s.len() - 2],
            s.last(),
        ) {
            1nat
        } else {
            0nat
        });
    } else {
        assert(switch_count(layout, s.drop_first()) == 0);
        assert(switch_count(layout, s.drop_last()) == 0);
    }
}

/// The number of hand alternations of a text is that of the text read
/// backwards: each pair of successive keys on the two hands counts once,
/// whichever hand comes first.
pub proof fn lemma_switch_count_reversed(layout: LayoutMap, s: Seq<char>)
    ensures
        switch_count(layout, s.reverse()) == switch_count(layout, s),
    decreases s.len(),
{
    if s.len() >= 2 {
        let r = s.reverse();
        lemma_switch_count_front(layout, s);
        lemma_switch_count_reversed(layout, s.drop_first());
        assert(r.drop_last() =~= s.drop_first().reverse());
        assert(r[r.len() - 2] == s[1] && r.last() == s[0]);
        lemma_switch_symmetric(layout, s[0], s[1]);
    } else {
        assert(s.reverse().len() == s.len());
    }
}

/// A pair of successive keys leaps over `d` rows with one finger whichever
/// of the two comes first.
pub proof fn lemma_leap_symmetric(layout: LayoutMap, a: char, b: char, d: int)
    ensures
        is_leap(layout, a, b, d) == is_leap(layout, b, a, d),
{
}

/// Counting the same-finger leaps from the front: the first pair, then
/// the pairs of the rest.
proof fn lemma_leap_count_front(layout: LayoutMap, s: Seq<char>, d: int)
    requires
        s.len() >= 2,
    ensures
        leap_count(layout, s, d) == leap_count(layout, s.drop_first(), d) + if is_leap(layout, s[0], s[1], d) {
            1nat
        } else {
            0nat
        },
    decreases s.len(),
{
    if s.len() > 2 {
        lemma_leap_count_front(layout, s.drop_last(), d);
        assert(s.drop_last().drop_first() =~= s.drop_first().drop_last());
        assert(s.drop_first()[s.drop_first().len() - 2] == s[s.len() - 2]);
        assert(s.drop_first().last() == s.last());
        assert(s.drop_last()[0] == s[0] && s.drop_last()[1] == s[1]);
        assert(leap_count(layout, s.drop_first(), d) == leap_count(layout, s.drop_first().drop_last(), d) + if is_leap(
            layout,
            s[s.len() - 2],
            s.last(),
            d,
        ) {
            1nat
        } else {
            0nat
        });
    } else {
        assert(leap_count(layout, s.drop_first(), d) == 0);
        assert(leap_count(layout, s.drop_last(), d) == 0);
    }
}

/// The number of same-finger leaps over `d` rows of a text is that of the
/// text read backwards.
pub proof fn lemma_leap_count_reversed(layout: LayoutMap, s: Seq<char>, d: int)
    ensures
        leap_count(layout, s.reverse(), d) == leap_count(layout, s, d),
    decreases s.len(),
{
    if s.len() >= 2 {
        let r = s.reverse();
        lemma_leap_count_front(layout, s, d);
        lemma_leap_count_reversed(layout, s.drop_first(), d);
        assert(r.drop_last() =~= s.drop_first().reverse());
        assert(r[r.len() - 2] == s[1] && r.last() == s[0]);
        lemma_leap_symmetric(layout, s[0], s[1], d);
    } else {
        assert(s.reverse().len() == s.len());
    }
}

/// Keys of `s` that the fingers 1 to `k` press, finger by finger.
pub open spec fn fingers_total(layout: LayoutMap, s: Seq<char>, k: int) -> nat
    decreases k,
{
    if k <= 0 {
        0
    } else {
        fingers_total(layout, s, k - 1) + finger_count(layout, s, k)
    }
}

/// Keys of `s` on the rows 1 to `k`, row by row.
pub open spec fn rows_total(layout: LayoutMap, s: Seq<char>, k: int) -> nat
    decreases k,
{
    if k <= 0 {
        0
    } else {
        rows_total(layout, s, k - 1) + row_count(layout, s, k)
    }
}

/// One more key adds one to the count of its finger among the fingers 1
/// to `k`, and one to that of its row among the rows 1 to `k`.
proof fn lemma_totals_push(layout: LayoutMap, s: Seq<char>, c: char, k: int)
    ensures
        fingers_total(layout, s.push(c), k) == fingers_total(layout, s, k) + if 1 <= finger(layout, c) <= k {
            1nat
        } else {
            0nat
        },
        rows_total(layout, s.push(c), k) == rows_total(layout, s, k) + if 1 <= row(layout, c) <= k {
            1nat
        } else {
            0nat
        },
    decreases k,
{
    assert(s.push(c).drop_last() =~= s);
    if k > 0 {
        lemma_totals_push(layout, s, c, k - 1);
    }
}

/// Every key is counted for exactly one finger and one row: where each key
/// of `s` lies on one of the nine fingers and one of the five rows, the
/// keys per finger and the keys per row each add up to the keys of `s`.
pub proof fn lemma_counts_add_up(layout: LayoutMap, s: Seq<char>)
    requires
        forall|i: int| 0 <= i < s.len() ==> 1 <= #[trigger] finger(layout, s[i]) <= 9 && 1 <= row(layout, s[i]) <= 5,
    ensures
        fingers_total(layout, s, 9) == s.len(),
        rows_total(layout, s, 5) == s.len(),
    decreases s.len(),
{
    if s.len() == 0 {
        assert(fingers_total(layout, s, 9) == 0) by {
            lemma_totals_empty(layout, s, 9);
        }
        assert(rows_total(layout, s, 5) == 0) by {
            lemma_totals_empty(layout, s, 5);
        }
    } else {
        let s1 = s.drop_last();
        assert forall|i: int| 0 <= i < s1.len() implies 1 <= #[trigger] finger(layout, s1[i]) <= 9 && 1 <= row(
            layout,
            s1[i],
        ) <= 5 by {
            assert(s1[i] == s[i]);
        }
        lemma_counts_add_up(layout, s1);
        assert(s1.push(s.last()) =~= s);
        assert(finger(layout, s[s.len() - 1]) >= 1);
        lemma_totals_push(layout, s1, s.last(), 9);
        lemma_totals_push(layout, s1, s.last(), 5);
    }
}

/// Nothing is counted in an empty text.
proof fn lemma_totals_empty(layout: LayoutMap, s: Seq<char>, k: int)
    requires
        s.len() == 0,
    ensures
        fingers_total(layout, s, k) == 0,
        rows_total(layout, s, k) == 0,
    decreases k,
{
    if k > 0 {
        lemma_totals_empty(layout, s, k - 1);
    }
}

/// The key `c`, `n` times.
pub open spec fn repeated(c: char, n: nat) -> Seq<char> {
    Seq::new(n, |i: int| c)
}

/// A text followed by `k` keys `c`, another key than the one it ends with.
proof fn lemma_run_appended(t: Seq<char>, c: char, k: nat)
    requires
        t.len() >= 1,
        t.last() != c,
    ensures
        trailing_run(t + repeated(c, k)) == if k == 0 {
            trailing_run(t)
        } else {
            k
        },
        forall|b: int| #[trigger] ended_runs(t + repeated(c, k), b) == if k == 0 {
            ended_runs(t, b)
        } else {
            run_count(t, b)
        },
    decreases k,
{
    let u = t + repeated(c, k);
    if k > 0 {
        let u1 = t + repeated(c, (k - 1) as nat);
        lemma_run_appended(t, c, (k - 1) as nat);
        assert(u.drop_last() =~= u1);
        assert(u.last() == c);
        assert(u[u.len() - 2] == u1.last());
        if k == 1 {
            assert(u1 =~= t);
        } else {
            assert(u1.last() == c);
        }
        assert forall|b: int| #[trigger] ended_runs(u, b) == run_count(t, b) by {
            assert(ended_runs(u, b) == ended_runs(u1, b) + if u[u.len() - 2] != u.last() && counts_in(
                trailing_run(u1),
                b,
            ) {
                1nat
            } else {
                0nat
            });
        }
    } else {
        assert(u =~= t);
    }
}

/// The runs of a text followed by a run of `n` keys `c`, another key than
/// the one the text ends with, are the runs of the text and that run: a run
/// of 2, 3 or 4 keys in bucket 0, 1 or 2, a run of 5 keys or more in the
/// last bucket, and a single key in none.
pub proof fn lemma_run_added(t: Seq<char>, c: char, n: nat, b: int)
    requires
        t.len() >= 1,
        t.last() != c,
        n >= 1,
    ensures
        run_count(t + repeated(c, n), b) == run_count(t, b) + if n >= 2 && b == (if n >= 5 {
            3
        } else {
            n - 2
        }) {
            1nat
        } else {
            0nat
        },
{
    lemma_run_appended(t, c, n);
}

/// A text of exactly `n` equal keys, `n` at least 2, is one run, counted
/// in one bucket: runs of 2, 3 and 4 keys in buckets 0, 1 and 2, and runs
/// of 5 keys or more in the last bucket.
pub proof fn lemma_one_run_bucket(c: char, n: nat, b: int)
    requires
        c != START,
        n >= 2,
    ensures
        run_count(with_start(repeated(c, n)), b) == if b == (if n >= 5 {
            3
        } else {
            n - 2
        }) {
            1nat
        } else {
            0nat
        },
{
    let t = seq![START];
    lemma_run_added(t, c, n, b);
    assert(with_start(repeated(c, n)) == t + repeated(c, n));
    assert(trailing_run(t) == 1);
    assert(ended_runs(t, b) == 0);
}

/// The statistics of a whole encoded text.
pub struct UsageStats {
    /// Number of keys.
    pub keys: u64,
    /// Keys per finger 1..9 (index 0 is finger 1; the last is the thumbs).
    pub finger_cnt: Vec<u64>,
    /// Keys per row 1..5 (index 0 is row 1).
    pub row_cnt: Vec<u64>,
    /// Runs of one repeated key of length 2, 3, 4, and 5 or more.
    pub repeat_cnt: Vec<u64>,
    /// Same-finger pairs that jump 1, 2 and 3 rows.
    pub leap_cnt: Vec<u64>,
    /// Pairs typed by the two hands in turn.
    pub switch_cnt: u64,
    /// Keys of the left hand (fingers 1 to 4).
    pub left_sum: u64,
    /// Keys of the right hand (fingers 5 to 8).
    pub right_sum: u64,
}

/// Counts key usage over a text that arrives in pieces.
pub struct UsageCounter<'a> {
    layout: &'a LayoutMap,
    keys: u64,
    finger_cnt: Vec<u64>,
    row_cnt: Vec<u64>,
    repeat_cnt: Vec<u64>,
    leap_cnt: Vec<u64>,
    switch_cnt: u64,
    repeat_len: u64,
    c0: char,
    seen: Ghost<Seq<char>>,
}

/// Pushing a character and dropping it again.
proof fn lemma_drop_push(s: Seq<char>, c: char)
    ensures
        s.push(c).drop_last() == s,
        s.push(c).last() == c,
        s.push(c).len() == s.len() + 1,
        s.len() >= 1 ==> s.push(c)[s.len() - 1] == s.last(),
{
    assert(s.push(c).drop_last() =~= s);
}

/// The keys of each hand are no more than all keys.
proof fn lemma_left_right(layout: LayoutMap, s: Seq<char>)
    ensures
        finger_count(layout, s, 1) + finger_count(layout, s, 2) + finger_count(layout, s, 3)
            + finger_count(layout, s, 4) <= s.len(),
        finger_count(layout, s, 5) + finger_count(layout, s, 6) + finger_count(layout, s, 7)
            + finger_count(layout, s, 8) <= s.len(),
    decreases s.len(),
{
    if s.len() > 0 {
        lemma_left_right(layout, s.drop_last());
    }
}

impl<'a> UsageCounter<'a> {
    /// The layout the keys are counted under.
    pub closed spec fn layout(&self) -> LayoutMap {
        *self.layout
    }

    /// The keys counted so far.
    pub closed spec fn seen(&self) -> Seq<char> {
        self.seen@
    }

    /// The counters agree with the keys counted so far.
    pub closed spec fn wf(&self) -> bool {
        let s = self.seen@;
        let l = *self.layout;
        let t = with_start(s);
        &&& s.len() < u64::MAX
        &&& self.keys == s.len()
        &&& self.finger_cnt@.len() == FINGERS
        &&& self.row_cnt@.len() == ROWS
        &&& self.repeat_cnt@.len() == REPEAT_BUCKETS
        &&& self.leap_cnt@.len() == LEAP_BUCKETS
        &&& forall|f: int|
            0 <= f < FINGERS ==> #[trigger] self.finger_cnt@[f] == finger_count(l, s, f + 1)
        &&& forall|f: int| 0 <= f < FINGERS ==> #[trigger] self.finger_cnt@[f] <= s.len()
        &&& forall|r: int| 0 <= r < ROWS ==> #[trigger] self.row_cnt@[r] == row_count(l, s, r + 1)
        &&& forall|r: int| 0 <= r < ROWS ==> #[trigger] self.row_cnt@[r] <= s.len()
        &&& forall|d: int|
            0 <= d < LEAP_BUCKETS ==> #[trigger] self.leap_cnt@[d] == leap_count(l, s, d + 1)
        &&& forall|d: int| 0 <= d < LEAP_BUCKETS ==> #[trigger] self.leap_cnt@[d] <= s.len()
        &&& self.switch_cnt == switch_count(l, s)
        &&& self.switch_cnt <= s.len()
        &&& forall|b: int|
            0 <= b < REPEAT_BUCKETS ==> #[trigger] self.repeat_cnt@[b] == ended_runs(t, b)
        &&& forall|b: int| 0 <= b < REPEAT_BUCKETS ==> #[trigger] self.repeat_cnt@[b] <= s.len()
        &&& self.repeat_len == trailing_run(t)
        &&& 1 <= self.repeat_len <= s.len() + 1
        &&& self.c0 == t.last()
    }

    /// What the counter holds: the number of keys, the counts per finger,
    /// per row, per run length and per leap, the switches between hands, the
    /// length of the current run and the last key.
    pub closed spec fn tallies(&self) -> (u64, Seq<u64>, Seq<u64>, Seq<u64>, Seq<u64>, u64, u64, char) {
        (
            self.keys,
            self.finger_cnt@,
            self.row_cnt@,
            self.repeat_cnt@,
            self.leap_cnt@,
            self.switch_cnt,
            self.repeat_len,
            self.c0,
        )
    }

    /// How the text is cut into pieces does not matter: two counters under
    /// the same layout that have seen the same keys, fed in whatever pieces,
    /// hold the same tallies.
    pub proof fn lemma_pieces_do_not_matter(x: &Self, y: &Self)
        requires
            x.wf(),
            y.wf(),
            x.layout() == y.layout(),
            x.seen() == y.seen(),
        ensures
            x.tallies() == y.tallies(),
    {
        assert(x.finger_cnt@ =~= y.finger_cnt@);
        assert(x.row_cnt@ =~= y.row_cnt@);
        assert(x.repeat_cnt@ =~= y.repeat_cnt@);
        assert(x.leap_cnt@ =~= y.leap_cnt@);
    }

    /// A counter that has seen no key yet.
    pub fn new(layout: &'a LayoutMap) -> (r: UsageCounter<'a>)
        ensures
            r.wf(),
            r.layout() == *layout,
            r.seen() == Seq::<char>::empty(),
    {
        let r = UsageCounter {
            layout,
            keys: 0,
            finger_cnt: vec![0u64; FINGERS],
            row_cnt: vec![0u64; ROWS],
            repeat_cnt: vec![0u64; REPEAT_BUCKETS],
            leap_cnt: vec![0u64; LEAP_BUCKETS],
            switch_cnt: 0,
            repeat_len: 1,
            c0: START,
            seen: Ghost(Seq::empty()),
        };
        proof {
            assert(with_start(Seq::<char>::empty()) =~= seq![START]);
        }
        r
    }

    fn step(&mut self, c1: char)
        requires
            old(self).wf(),
            old(self).seen().len() + 1 < u64::MAX,
        ensures
            final(self).wf(),
            final(self).layout() == old(self).layout(),
            final(self).seen() == old(self).seen().push(c1),
    {
        let ghost s = self.seen@;
        let ghost l = *self.layout;
        let ghost t = with_start(s);
        let ghost s2 = s.push(c1);
        let ghost t2 = with_start(s2);
        proof {
            assert(t2 =~= t.push(c1));
            lemma_drop_push(s, c1);
            lemma_drop_push(t, c1);
        }
        let (f1, r1) = self.layout.get(c1);
        let c0 = self.c0;
        let (f0, r0) = if self.keys == 0 {
            (0u8, 0u8)
        } else {
            self.layout.get(c0)
        };
        proof {
            if s.len() > 0 {
                assert(t.last() == s.last());
                assert(s2[s2.len() - 2] == s.last());
            }
        }
        self.keys = self.keys + 1;
        if f1 > 0 {
            let i = (f1 - 1) as usize;
            let v = self.finger_cnt[i] + 1;
            self.finger_cnt.set(i, v);
        }
        if r1 > 0 {
            let i = (r1 - 1) as usize;
            let v = self.row_cnt[i] + 1;
            self.row_cnt.set(i, v);
        }
        if c0 == c1 {
            self.repeat_len = self.repeat_len + 1;
        } else {
            if self.repeat_len > 1 {
                let b: usize = if self.repeat_len - 2 < 3 {
                    (self.repeat_len - 2) as usize
                } else {
                    3
                };
                let v = self.repeat_cnt[b] + 1;
                self.repeat_cnt.set(b, v);
                self.repeat_len = 1;
            }
            let valid0 = f0 > 0 && f0 < 9 && r0 > 0 && r0 < 5;
            let valid1 = f1 > 0 && f1 < 9 && r1 > 0 && r1 < 5;
            if valid0 && valid1 {
                if f0 == f1 {
                    let diff: u8 = if r0 > r1 {
                        r0 - r1
                    } else {
                        r1 - r0
                    };
                    if diff > 0 {
                        let i = (diff - 1) as usize;
                        let v = self.leap_cnt[i] + 1;
                        self.leap_cnt.set(i, v);
                    }
                } else if (f0 < 5) != (f1 < 5) {
                    self.switch_cnt = self.switch_cnt + 1;
                }
            }
        }
        self.c0 = c1;
        self.seen = Ghost(s2);
        proof {
            assert forall|f: int| 0 <= f < FINGERS implies #[trigger] self.finger_cnt@[f]
                == finger_count(l, s2, f + 1) by {}
            assert forall|r: int| 0 <= r < ROWS implies #[trigger] self.row_cnt@[r] == row_count(
                l,
                s2,
                r + 1,
            ) by {}
            assert forall|d: int| 0 <= d < LEAP_BUCKETS implies #[trigger] self.leap_cnt@[d]
                == leap_count(l, s2, d + 1) by {}
            assert forall|b: int| 0 <= b < REPEAT_BUCKETS implies #[trigger] self.repeat_cnt@[b]
                == ended_runs(t2, b) by {}
        }
    }

    /// Counts the keys of `text`, after those counted before.
    pub fn feed(&mut self, text: &str)
        requires
            old(self).wf(),
            old(self).seen().len() + text@.len() + 1 < u64::MAX,
        ensures
            final(self).wf(),
            final(self).layout() == old(self).layout(),
            final(self).seen() == old(self).seen() + text@,
    {
        let ghost s0 = self.seen();
        for c in it: text.chars()
            invariant
                self.wf(),
                self.layout() == old(self).layout(),
                it.seq() == text@,
                self.seen() == s0 + it.seq().take(it.index() as int),
                s0 == old(self).seen(),
                s0.len() + text@.len() + 1 < u64::MAX,
        {
            proof {
                assert(it.seq().take(it.index() + 1) =~= it.seq().take(it.index() as int).push(c));
            }
            self.step(c);
        }
        proof {
            assert(text@.take(text@.len() as int) =~= text@);
        }
    }

    /// The statistics of all keys counted: the last run of repeated keys is
    /// closed here.
    pub fn finish(self) -> (st: UsageStats)
        requires
            self.wf(),
        ensures
            st.keys == self.seen().len(),
            st.finger_cnt@.len() == FINGERS,
            st.row_cnt@.len() == ROWS,
            st.repeat_cnt@.len() == REPEAT_BUCKETS,
            st.leap_cnt@.len() == LEAP_BUCKETS,
            forall|f: int|
                0 <= f < FINGERS ==> #[trigger] st.finger_cnt@[f] == finger_count(
                    self.layout(),
                    self.seen(),
                    f + 1,
                ),
            forall|r: int|
                0 <= r < ROWS ==> #[trigger] st.row_cnt@[r] == row_count(self.layout(), self.seen(), r + 1),
            forall|d: int|
                0 <= d < LEAP_BUCKETS ==> #[trigger] st.leap_cnt@[d] == leap_count(
                    self.layout(),
                    self.seen(),
                    d + 1,
                ),
            st.switch_cnt == switch_count(self.layout(), self.seen()),
            forall|b: int|
                0 <= b < REPEAT_BUCKETS ==> #[trigger] st.repeat_cnt@[b] == run_count(
                    with_start(self.seen()),
                    b,
                ),
            st.left_sum == finger_count(self.layout(), self.seen(), 1) + finger_count(
                self.layout(),
                self.seen(),
                2,
            ) + finger_count(self.layout(), self.seen(), 3) + finger_count(
                self.layout(),
                self.seen(),
                4,
            ),
            st.right_sum == finger_count(self.layout(), self.seen(), 5) + finger_count(
                self.layout(),
                self.seen(),
                6,
            ) + finger_count(self.layout(), self.seen(), 7) + finger_count(
                self.layout(),
                self.seen(),
                8,
            ),
    {
        let mut repeat_cnt = self.repeat_cnt;
        if self.repeat_len > 1 {
            let b: usize = if self.repeat_len - 2 < 3 {
                (self.repeat_len - 2) as usize
            } else {
                3
            };
            let v = repeat_cnt[b] + 1;
            repeat_cnt.set(b, v);
        }
        proof {
            lemma_left_right(*self.layout, self.seen@);
            assert(self.finger_cnt@[0] == finger_count(*self.layout, self.seen@, 1));
            assert(self.finger_cnt@[1] == finger_count(*self.layout, self.seen@, 2));
            assert(self.finger_cnt@[2] == finger_count(*self.layout, self.seen@, 3));
            assert(self.finger_cnt@[3] == finger_count(*self.layout, self.seen@, 4));
            assert(self.finger_cnt@[4] == finger_count(*self.layout, self.seen@, 5));
            assert(self.finger_cnt@[5] == finger_count(*self.layout, self.seen@, 6));
            assert(self.finger_cnt@[6] == finger_count(*self.layout, self.seen@, 7));
            assert(self.finger_cnt@[7] == finger_count(*self.layout, self.seen@, 8));
        }
        let left_sum = self.finger_cnt[0] + self.finger_cnt[1] + self.finger_cnt[2]
            + self.finger_cnt[3];
        let right_sum = self.finger_cnt[4] + self.finger_cnt[5] + self.finger_cnt[6]
            + self.finger_cnt[7];
        UsageStats {
            keys: self.keys,
            finger_cnt: self.finger_cnt,
            row_cnt: self.row_cnt,
            repeat_cnt,
            leap_cnt: self.leap_cnt,
            switch_cnt: self.switch_cnt,
            left_sum,
            right_sum,
        }
    }
}

} // verus!
