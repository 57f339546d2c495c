//! The keyboard layout: which finger presses a key and on which row it lies.
use crate::fx::{fx_get, fx_insert, FxCharMap};
use crate::text::chars_of;
use std::collections::HashMap;
use vstd::prelude::*;

verus! {

/// Number of finger groups in a layout description (fingers 1 to 9, the
/// ninth being the thumbs).
pub const FINGERS: usize = 9;

/// Number of row groups in a layout description (rows 1 to 5).
pub const ROWS: usize = 5;

/// Why a layout description is refused.
#[derive(Debug, Clone, Copy, PartialEq, Eq, Structural)]
pub enum LayoutError {
    /// The description does not hold exactly 14 groups.
    WrongCount,
    /// The key is given to two fingers (or twice to one).
    FingerConflict(char),
    /// The key is given to two rows (or twice to one).
    RowConflict(char),
}

/// The 1-based index of the last group that holds `c`, or 0 where none does.
pub open spec fn group_of(groups: Seq<Seq<char>>, c: char) -> int
    decreases groups.len(),
{
    if groups.len() == 0 {
        0
    } else if groups.last().contains(c) {
        groups.len() as int
    } else {
        group_of(groups.drop_last(), c)
    }
}

/// Position `k` of `s` holds a character that occurs earlier in `s`.
pub open spec fn repeated_at(s: Seq<char>, k: int) -> bool {
    0 <= k < s.len() && s.take(k).contains(s[k])
}

/// No character occurs twice in `s`.
pub open spec fn no_repeat(s: Seq<char>) -> bool {
    forall|k: int| !#[trigger] repeated_at(s, k)
}

/// The character at the first position of `s` whose character occurs earlier.
pub open spec fn first_repeat(s: Seq<char>) -> char
    recommends
        !no_repeat(s),
{
    s[choose|k: int| repeated_at(s, k) && forall|j: int| 0 <= j < k ==> !#[trigger] repeated_at(s, j)]
}

/// The character views of a slice of strings.
pub open spec fn groups_view(groups: Seq<String>) -> Seq<Seq<char>> {
    groups.map_values(|g: String| g@)
}

/// The finger groups of a layout description: its first nine entries.
pub open spec fn finger_groups(layout: Seq<String>) -> Seq<Seq<char>> {
    groups_view(layout).take(FINGERS as int)
}

/// The row groups of a layout description: its last five entries.
pub open spec fn row_groups(layout: Seq<String>) -> Seq<Seq<char>> {
    groups_view(layout).skip(FINGERS as int)
}

/// What building a layout from `layout` gives: the error, or `Ok(())`.
pub open spec fn layout_outcome(layout: Seq<String>) -> Result<(), LayoutError> {
    if layout.len() != FINGERS + ROWS {
        Err(LayoutError::WrongCount)
    } else if !no_repeat(finger_groups(layout).flatten()) {
        Err(LayoutError::FingerConflict(first_repeat(finger_groups(layout).flatten())))
    } else if !no_repeat(row_groups(layout).flatten()) {
        Err(LayoutError::RowConflict(first_repeat(row_groups(layout).flatten())))
    } else {
        Ok(())
    }
}

/// A keyboard layout: for each key its finger (1..9, 0 unknown) and row
/// (1..5, 0 unknown).
pub struct LayoutMap {
    map: FxCharMap<u8>,
}

/// A packed entry: the finger in the high nibble, the row in the low one.
pub open spec fn packed_ok(v: u8) -> bool {
    v / 16 <= FINGERS && v % 16 <= ROWS
}

/// Packing a finger and a row keeps both.
proof fn lemma_packed(f: u8, r: u8)
    requires
        f <= 9,
        r <= 10,
    ensures
        (f * 16 + r) as u8 >> 4u8 == f,
        (f * 16 + r) as u8 & 0xFu8 == r,
        (f * 16 + r) as u8 / 16 == f,
        (f * 16 + r) as u8 % 16 == r,
        f << 4u8 == f * 16,
{
    assert((f * 16 + r) as u8 >> 4u8 == f && (f * 16 + r) as u8 & 0xFu8 == r && f << 4u8 == f
        * 16) by (bit_vector)
        requires
            f <= 9,
            r <= 10,
    ;
}

/// Shifting and masking a byte take its high and low nibbles.
proof fn lemma_unpack(v: u8)
    ensures
        v >> 4u8 == v / 16,
        v & 0xFu8 == v % 16,
{
    assert(v >> 4u8 == v / 16 && v & 0xFu8 == v % 16) by (bit_vector);
}

/// Flattening two runs of groups one after the other.
proof fn lemma_flatten_append(a: Seq<Seq<char>>, b: Seq<Seq<char>>)
    ensures
        (a + b).flatten() == a.flatten() + b.flatten(),
    decreases b.len(),
{
    broadcast use Seq::lemma_flatten_push;

    if b.len() == 0 {
        assert(a + b =~= a);
        assert(a.flatten() + b.flatten() =~= a.flatten());
    } else {
        lemma_flatten_append(a, b.drop_last());
        assert(a + b =~= (a + b.drop_last()).push(b.last()));
        assert(b =~= b.drop_last().push(b.last()));
    }
}

/// The flattening of `g` begins with the first `i` groups and the first `j`
/// characters of group `i`.
proof fn lemma_flatten_prefix(g: Seq<Seq<char>>, i: int, j: int)
    requires
        0 <= i < g.len(),
        0 <= j <= g[i].len(),
    ensures
        g.flatten().take(g.take(i).flatten().len() + j) == g.take(i).flatten() + g[i].take(j),
        g.take(i).flatten().len() + g[i].len() <= g.flatten().len(),
        j < g[i].len() ==> g.flatten()[g.take(i).flatten().len() + j] == g[i][j],
{
    broadcast use Seq::lemma_flatten_push;

    assert(g =~= g.take(i) + seq![g[i]] + g.skip(i + 1));
    lemma_flatten_append(g.take(i) + seq![g[i]], g.skip(i + 1));
    lemma_flatten_append(g.take(i), seq![g[i]]);
    assert(seq![g[i]] =~= Seq::<Seq<char>>::empty().push(g[i]));
    assert(seq![g[i]].flatten() =~= g[i]);
    assert(g.flatten() == g.take(i).flatten() + g[i] + g.skip(i + 1).flatten());
    if j < g[i].len() {
        assert(g.flatten()[g.take(i).flatten().len() + j] == g[i][j]);
    }
}

/// The first `i + 1` groups are the first `i` with one more.
proof fn lemma_take_push(g: Seq<Seq<char>>, i: int)
    requires
        0 <= i < g.len(),
    ensures
        g.take(i + 1).flatten() == g.take(i).flatten() + g[i],
        g.take(i + 1).drop_last() == g.take(i),
        g.take(i + 1).last() == g[i],
{
    broadcast use Seq::lemma_flatten_push;

    assert(g.take(i + 1) =~= g.take(i).push(g[i]));
}

/// A fresh repeat found at position `k`, after a prefix without repeats, is the
/// first one.
proof fn lemma_first_repeat(s: Seq<char>, k: int)
    requires
        repeated_at(s, k),
        forall|j: int| 0 <= j < k ==> !#[trigger] repeated_at(s, j),
    ensures
        !no_repeat(s),
        first_repeat(s) == s[k],
{
    let w = choose|k: int| repeated_at(s, k) && forall|j: int| 0 <= j < k ==> !#[trigger] repeated_at(s, j);
    assert(repeated_at(s, w) && forall|j: int| 0 <= j < w ==> !#[trigger] repeated_at(s, j));
    if w < k {
        assert(!repeated_at(s, w));
    }
    if k < w {
        assert(!repeated_at(s, k));
    }
}

/// A character is in a concatenation when it is in either part.
proof fn lemma_contains_concat(a: Seq<char>, b: Seq<char>, c: char)
    ensures
        (a + b).contains(c) <==> a.contains(c) || b.contains(c),
{
    if (a + b).contains(c) {
        let k = choose|k: int| 0 <= k < (a + b).len() && (a + b)[k] == c;
        if k < a.len() {
            assert(a[k] == c);
        } else {
            assert(b[k - a.len()] == c);
        }
    }
    if a.contains(c) {
        let k = choose|k: int| 0 <= k < a.len() && a[k] == c;
        assert((a + b)[k] == c);
    }
    if b.contains(c) {
        let k = choose|k: int| 0 <= k < b.len() && b[k] == c;
        assert((a + b)[k + a.len()] == c);
    }
}

/// The first `j + 1` characters contain `c` when the first `j` do or the next one is `c`.
proof fn lemma_take_contains(s: Seq<char>, j: int, c: char)
    requires
        0 <= j < s.len(),
    ensures
        s.take(j + 1).contains(c) <==> s.take(j).contains(c) || s[j] == c,
{
    assert(s.take(j + 1) =~= s.take(j) + seq![s[j]]);
    lemma_contains_concat(s.take(j), seq![s[j]], c);
    if seq![s[j]].contains(c) {
        let k = choose|k: int| 0 <= k < 1 && seq![s[j]][k] == c;
        assert(k == 0);
    }
    if s[j] == c {
        assert(seq![s[j]][0] == c);
    }
}

/// The group index of `c` is within the groups, and 0 exactly when no group holds it.
proof fn lemma_group_of(g: Seq<Seq<char>>, c: char)
    ensures
        0 <= group_of(g, c) <= g.len(),
        group_of(g, c) == 0 <==> !g.flatten().contains(c),
    decreases g.len(),
{
    broadcast use Seq::lemma_flatten_push;

    if g.len() > 0 {
        lemma_group_of(g.drop_last(), c);
        assert(g =~= g.drop_last().push(g.last()));
        lemma_contains_concat(g.drop_last().flatten(), g.last(), c);
    } else {
        assert(g.flatten() =~= Seq::<char>::empty());
    }
}

impl LayoutMap {
    #[verifier::type_invariant]
    spec fn inv(self) -> bool {
        forall|c: char| #[trigger] self.map@.contains_key(c) ==> packed_ok(self.map@[c])
    }

    /// The finger and row that the layout gives to `c`.
    pub closed spec fn spec_get(&self, c: char) -> (u8, u8) {
        if self.map@.contains_key(c) {
            ((self.map@[c] / 16) as u8, (self.map@[c] % 16) as u8)
        } else {
            (0, 0)
        }
    }


    /// Builds a layout from its description: nine finger groups (fingers 1 to
    /// 9), then five row groups (rows 1 to 5), each a string of keys.
    pub fn new(layout: &[String]) -> (r: Result<LayoutMap, LayoutError>)
        ensures
            match r {
                Err(e) => layout_outcome(layout@) == Err::<(), LayoutError>(e),
                Ok(m) => {
                    &&& layout_outcome(layout@) == Ok::<(), LayoutError>(())
                    &&& forall|c: char|
                        #![trigger m.spec_get(c)]
                        m.spec_get(c).0 == group_of(finger_groups(layout@), c)
                            && m.spec_get(c).1 == group_of(row_groups(layout@), c)
                },
            },
    {
        if layout.len() != FINGERS + ROWS {
            return Err(LayoutError::WrongCount);
        }
        let ghost fg = finger_groups(layout@);
        let ghost rg = row_groups(layout@);
        let ghost ff = fg.flatten();
        let ghost rf = rg.flatten();
        let mut map: FxCharMap<u8> = HashMap::default();
        let mut i: usize = 0;
        while i < FINGERS
            invariant
                layout.len() == FINGERS + ROWS,
                fg == finger_groups(layout@),
                ff == fg.flatten(),
                fg.len() == FINGERS,
                0 <= i <= FINGERS,
                forall|c: char| #[trigger]
                    map@.contains_key(c) <==> fg.take(i as int).flatten().contains(c),
                forall|c: char| #[trigger]
                    map@.contains_key(c) ==> map@[c] == group_of(fg.take(i as int), c) * 16,
                forall|k: int| 0 <= k < fg.take(i as int).flatten().len() ==> !#[trigger] repeated_at(ff, k),
            decreases FINGERS - i,
        {
            let chars = chars_of(layout[i].as_str());
            let v: u8 = ((i + 1) as u8) << 4u8;
            proof {
                lemma_packed((i + 1) as u8, 0);
                assert(fg[i as int] == chars@);
                lemma_flatten_prefix(fg, i as int, 0);
                assert(fg[i as int].take(0) =~= Seq::<char>::empty());
                assert(fg.take(i as int).flatten() + fg[i as int].take(0) =~= fg.take(i as int).flatten());
            }
            let ghost base = fg.take(i as int).flatten();
            let mut j: usize = 0;
            while j < chars.len()
                invariant
                    layout.len() == FINGERS + ROWS,
                    fg == finger_groups(layout@),
                    ff == fg.flatten(),
                    fg.len() == FINGERS,
                    0 <= i < FINGERS,
                    v == (i + 1) * 16,
                    chars@ == fg[i as int],
                    base == fg.take(i as int).flatten(),
                    0 <= j <= chars.len(),
                    forall|c: char| #[trigger]
                        map@.contains_key(c) <==> (base + chars@.take(j as int)).contains(c),
                    forall|c: char| #[trigger]
                        map@.contains_key(c) ==> map@[c] == (if chars@.take(j as int).contains(c) {
                            i + 1
                        } else {
                            group_of(fg.take(i as int), c)
                        }) * 16,
                    forall|k: int| 0 <= k < base.len() + j ==> !#[trigger] repeated_at(ff, k),
                decreases chars.len() - j,
            {
                let c = chars[j];
                proof {
                    lemma_flatten_prefix(fg, i as int, j as int);
                    lemma_contains_concat(base, chars@.take(j as int), c);
                }
                let prev = fx_insert(&mut map, c, v);
                if prev.is_some() {
                    proof {
                        let k = base.len() + j;
                        assert(ff.take(k) == base + chars@.take(j as int));
                        assert(ff[k] == c);
                        assert(repeated_at(ff, k));
                        lemma_first_repeat(ff, base.len() + j);
                    }
                    return Err(LayoutError::FingerConflict(c));
                }
                proof {
                    assert(!repeated_at(ff, base.len() + j));
                    assert forall|d: char| #[trigger]
                        map@.contains_key(d) <==> (base + chars@.take(j + 1)).contains(d) by {
                        lemma_contains_concat(base, chars@.take(j + 1), d);
                        lemma_contains_concat(base, chars@.take(j as int), d);
                        lemma_take_contains(chars@, j as int, d);
                    }
                    assert forall|d: char| #[trigger] map@.contains_key(d) implies map@[d] == (if chars@.take(
                        j + 1,
                    ).contains(d) {
                        i + 1
                    } else {
                        group_of(fg.take(i as int), d)
                    }) * 16 by {
                        lemma_take_contains(chars@, j as int, d);
                        lemma_contains_concat(base, chars@.take(j as int), d);
                    }
                }
                j += 1;
            }
            proof {
                lemma_take_push(fg, i as int);
                assert(chars@.take(j as int) =~= chars@);
                assert forall|c: char| #[trigger] map@.contains_key(c) implies map@[c] == group_of(
                    fg.take(i + 1),
                    c,
                ) * 16 by {}
            }
            i += 1;
        }
        proof {
            assert(fg.take(FINGERS as int) =~= fg);
        }
        let mut i: usize = 0;
        while i < ROWS
            invariant
                layout.len() == FINGERS + ROWS,
                fg == finger_groups(layout@),
                rg == row_groups(layout@),
                ff == fg.flatten(),
                rf == rg.flatten(),
                fg.len() == FINGERS,
                rg.len() == ROWS,
                no_repeat(ff),
                0 <= i <= ROWS,
                forall|c: char| #[trigger]
                    map@.contains_key(c) <==> (ff.contains(c) || rg.take(i as int).flatten().contains(c)),
                forall|c: char| #[trigger]
                    map@.contains_key(c) ==> map@[c] == group_of(fg, c) * 16 + group_of(rg.take(i as int), c),
                forall|k: int| 0 <= k < rg.take(i as int).flatten().len() ==> !#[trigger] repeated_at(rf, k),
            decreases ROWS - i,
        {
            let chars = chars_of(layout[FINGERS + i].as_str());
            let ri: u8 = (i + 1) as u8;
            proof {
                assert(rg[i as int] == chars@);
                assert(chars@.take(0) =~= Seq::<char>::empty());
                assert(rg.take(i as int).flatten() + chars@.take(0) =~= rg.take(i as int).flatten());
            }
            let ghost base = rg.take(i as int).flatten();
            let mut j: usize = 0;
            while j < chars.len()
                invariant
                    layout.len() == FINGERS + ROWS,
                    fg == finger_groups(layout@),
                    rg == row_groups(layout@),
                    ff == fg.flatten(),
                    rf == rg.flatten(),
                    fg.len() == FINGERS,
                    rg.len() == ROWS,
                    no_repeat(ff),
                    0 <= i < ROWS,
                    ri == i + 1,
                    chars@ == rg[i as int],
                    base == rg.take(i as int).flatten(),
                    0 <= j <= chars.len(),
                    forall|c: char| #[trigger]
                        map@.contains_key(c) <==> (ff.contains(c) || (base + chars@.take(j as int)).contains(c)),
                    forall|c: char| #[trigger]
                        map@.contains_key(c) ==> map@[c] == group_of(fg, c) * 16 + (if chars@.take(j as int).contains(c) {
                            i + 1
                        } else {
                            group_of(rg.take(i as int), c)
                        }),
                    forall|k: int| 0 <= k < base.len() + j ==> !#[trigger] repeated_at(rf, k),
                decreases chars.len() - j,
            {
                let c = chars[j];
                proof {
                    lemma_flatten_prefix(rg, i as int, j as int);
                    lemma_contains_concat(base, chars@.take(j as int), c);
                    lemma_group_of(fg, c);
                    lemma_group_of(rg.take(i as int), c);
                    lemma_take_push(rg, i as int);
                }
                let old_v = fx_get(&map, c);
                let nv: u8 = match old_v {
                    Some(v) => {
                        proof {
                            lemma_group_of(fg, c);
                        }
                        v + ri
                    },
                    None => ri,
                };
                proof {
                    let f = group_of(fg, c);
                    let r = if chars@.take(j as int).contains(c) {
                        i + 1
                    } else {
                        group_of(rg.take(i as int), c)
                    };
                    if (base + chars@.take(j as int)).contains(c) {
                        assert(1 <= r <= ROWS);
                        lemma_packed(f as u8, (r + ri) as u8);
                    } else {
                        assert(r == 0);
                        lemma_packed(f as u8, ri);
                    }
                    lemma_unpack(nv);
                }
                fx_insert(&mut map, c, nv);
                if nv & 0xFu8 != ri {
                    proof {
                        let k = base.len() + j;
                        assert(rf.take(k) == base + chars@.take(j as int));
                        assert(rf[k] == c);
                        assert(repeated_at(rf, k));
                        lemma_first_repeat(rf, base.len() + j);
                    }
                    return Err(LayoutError::RowConflict(c));
                }
                proof {
                    assert(!repeated_at(rf, base.len() + j));
                    assert forall|d: char| #[trigger]
                        map@.contains_key(d) <==> (ff.contains(d) || (base + chars@.take(j + 1)).contains(d)) by {
                        lemma_contains_concat(base, chars@.take(j + 1), d);
                        lemma_contains_concat(base, chars@.take(j as int), d);
                        lemma_take_contains(chars@, j as int, d);
                    }
                    assert forall|d: char| #[trigger] map@.contains_key(d) implies map@[d] == group_of(fg, d) * 16
                        + (if chars@.take(j + 1).contains(d) {
                        i + 1
                    } else {
                        group_of(rg.take(i as int), d)
                    }) by {
                        lemma_take_contains(chars@, j as int, d);
                        lemma_contains_concat(base, chars@.take(j as int), d);
                        lemma_group_of(rg.take(i as int), d);
                    }
                }
                j += 1;
            }
            proof {
                lemma_take_push(rg, i as int);
                assert(chars@.take(j as int) =~= chars@);
            }
            i += 1;
        }
        proof {
            assert(rg.take(ROWS as int) =~= rg);
            assert(no_repeat(rf));
        }
        proof {
            assert forall|c: char| #[trigger] map@.contains_key(c) implies packed_ok(map@[c]) by {
                lemma_group_of(fg, c);
                lemma_group_of(rg, c);
                lemma_packed(group_of(fg, c) as u8, group_of(rg, c) as u8);
            }
        }
        let m = LayoutMap { map };
        proof {
            assert forall|c: char| #![trigger m.spec_get(c)] m.spec_get(c).0 == group_of(fg, c)
                && m.spec_get(c).1 == group_of(rg, c) by {
                lemma_group_of(fg, c);
                lemma_group_of(rg, c);
                if m.map@.contains_key(c) {
                    lemma_packed(group_of(fg, c) as u8, group_of(rg, c) as u8);
                }
            }
        }
        Ok(m)
    }

    /// Looks up the finger and row of `c`; `(0, 0)` for a key the layout does not name.
    pub fn get(&self, c: char) -> (r: (u8, u8))
        ensures
            r == self.spec_get(c),
            r.0 <= FINGERS,
            r.1 <= ROWS,
    {
        proof {
            use_type_invariant(self);
        }
        let v: u8 = match fx_get(&self.map, c) {
            Some(v) => v,
            None => 0,
        };
        proof {
            lemma_unpack(v);
        }
        (v >> 4u8, v & 0xFu8)
    }
}

} // verus!
