//! A character trie whose nodes live in one pool and are named by their index.
use crate::fx::{fx_get, fx_insert, fx_is_empty, FxCharMap};
use std::collections::HashMap;
use vstd::prelude::*;

verus! {

/// A trie of character strings: node 0 is the empty string, and each node has
/// an edge, by character, to each node that extends it by that character.
pub struct Trie {
    next: Vec<FxCharMap<usize>>,
    paths: Ghost<Seq<Seq<char>>>,
}

/// The edge maps and node strings form a trie: node 0 is the root, each edge
/// leads to the node one character longer, every such node is reached by an
/// edge, no two nodes share a string, and every node's string less its last
/// character is a node too.
#[verifier::opaque]
pub open spec fn trie_ok(next: Seq<Map<char, usize>>, paths: Seq<Seq<char>>) -> bool {
    &&& next.len() == paths.len()
    &&& paths.len() >= 1
    &&& paths[0] == Seq::<char>::empty()
    &&& forall|n: int, c: char|
        0 <= n < next.len() && #[trigger] next[n].contains_key(c) ==> {
            &&& next[n][c] < paths.len()
            &&& paths[next[n][c] as int] == paths[n].push(c)
        }
    &&& forall|n: int, m: int, c: char|
        0 <= n < paths.len() && 0 <= m < paths.len() && #[trigger] paths[m] == #[trigger] paths[n].push(
            c,
        ) ==> next[n].contains_key(c)
    &&& forall|m1: int, m2: int|
        0 <= m1 < paths.len() && 0 <= m2 < paths.len() && #[trigger] paths[m1] == #[trigger] paths[m2]
            ==> m1 == m2
    &&& forall|m: int|
        1 <= m < paths.len() ==> (#[trigger] paths[m]).len() >= 1 && exists|p: int|
            0 <= p < paths.len() && #[trigger] paths[p] == paths[m].drop_last()
}

/// `w` is the string of some node.
pub open spec fn has_path(paths: Seq<Seq<char>>, w: Seq<char>) -> bool {
    exists|m: int| 0 <= m < paths.len() && #[trigger] paths[m] == w
}

/// Adding a node for `paths[node] + c`, which was not there, keeps the trie
/// well formed and adds exactly that string.
proof fn lemma_extend(next: Seq<Map<char, usize>>, paths: Seq<Seq<char>>, node: int, c: char)
    requires
        trie_ok(next, paths),
        0 <= node < paths.len(),
        paths.len() < usize::MAX,
        !has_path(paths, paths[node].push(c)),
    ensures
        ({
            let fresh = paths.len();
            let np = paths[node].push(c);
            let nx = next.push(Map::<char, usize>::empty()).update(node, next[node].insert(c, fresh as usize));
            let ps = paths.push(np);
            &&& trie_ok(nx, ps)
            &&& forall|w: Seq<char>| has_path(ps, w) <==> (has_path(paths, w) || w == np)
        }),
{
    reveal(trie_ok);
    let fresh = paths.len() as int;
    let np = paths[node].push(c);
    let nx = next.push(Map::<char, usize>::empty()).update(node, next[node].insert(c, fresh as usize));
    let ps = paths.push(np);
    assert forall|n: int, d: char| 0 <= n < nx.len() && #[trigger] nx[n].contains_key(d) implies {
        &&& nx[n][d] < ps.len()
        &&& ps[nx[n][d] as int] == ps[n].push(d)
    } by {
        if n == node && d == c {
        } else if n < next.len() {
            assert(next[n].contains_key(d));
        }
    }
    assert forall|n: int, m: int, d: char|
        0 <= n < ps.len() && 0 <= m < ps.len() && #[trigger] ps[m] == #[trigger] ps[n].push(d) implies nx[n].contains_key(d) by {
        if m == fresh {
            if n == fresh {
                assert(ps[n].len() == ps[m].len());
            } else {
                assert(paths[n].push(d) == paths[node].push(c));
                assert(paths[n] =~= paths[n].push(d).drop_last());
                assert(paths[node] =~= paths[node].push(c).drop_last());
                assert(paths[n] == paths[node]);
                assert(n == node);
                assert(d == paths[n].push(d).last());
                assert(c == paths[node].push(c).last());
            }
        } else if n == fresh {
            assert(1 <= m) by {
                if m == 0 {
                    assert(ps[m].len() == 0);
                }
            }
            let p = choose|p: int| 0 <= p < paths.len() && #[trigger] paths[p] == paths[m].drop_last();
            assert(paths[m].drop_last() =~= np);
            assert(paths[p] == np);
        } else {
            assert(paths[m] == paths[n].push(d));
            assert(next[n].contains_key(d));
        }
    }
    assert forall|m1: int, m2: int| 0 <= m1 < ps.len() && 0 <= m2 < ps.len() && #[trigger] ps[m1] == #[trigger] ps[m2] implies m1 == m2 by {
        if m1 == fresh && m2 != fresh {
            assert(paths[m2] == np);
        }
        if m2 == fresh && m1 != fresh {
            assert(paths[m1] == np);
        }
    }
    assert forall|m: int| 1 <= m < ps.len() implies (#[trigger] ps[m]).len() >= 1 && exists|p: int|
        0 <= p < ps.len() && #[trigger] ps[p] == ps[m].drop_last() by {
        if m == fresh {
            assert(ps[node] =~= ps[m].drop_last());
        } else {
            let p = choose|p: int| 0 <= p < paths.len() && #[trigger] paths[p] == paths[m].drop_last();
            assert(ps[p] == ps[m].drop_last());
        }
    }
    assert forall|w: Seq<char>| has_path(ps, w) <==> (has_path(paths, w) || w == np) by {
        if has_path(ps, w) {
            let m = choose|m: int| 0 <= m < ps.len() && #[trigger] ps[m] == w;
            if m < paths.len() {
                assert(paths[m] == w);
            }
        }
        if has_path(paths, w) {
            let m = choose|m: int| 0 <= m < paths.len() && #[trigger] paths[m] == w;
            assert(ps[m] == w);
        }
        if w == np {
            assert(ps[fresh] == w);
        }
    }
}

impl Trie {
    /// The string of each node, by index.
    pub closed spec fn paths(&self) -> Seq<Seq<char>> {
        self.paths@
    }

    /// The edge maps and the node strings form a trie.
    pub closed spec fn wf(&self) -> bool {
        &&& self.next@.len() == self.paths@.len()
        &&& self.paths@.len() >= 1
        &&& self.paths@[0] == Seq::<char>::empty()
        &&& trie_ok(self.next@.map_values(|m: FxCharMap<usize>| m@), self.paths@)
    }

    /// A trie of the empty string alone.
    pub fn new() -> (t: Trie)
        ensures
            t.wf(),
            t.paths() == seq![Seq::<char>::empty()],
    {
        let mut next: Vec<FxCharMap<usize>> = Vec::new();
        next.push(HashMap::default());
        let ghost root: Seq<Seq<char>> = seq![Seq::<char>::empty()];
        let t = Trie { next, paths: Ghost(root) };
        proof {
            reveal(trie_ok);
            let nx = t.next@.map_values(|m: FxCharMap<usize>| m@);
            assert(nx.len() == 1);
            assert(nx[0] =~= Map::<char, usize>::empty());
            assert forall|n: int, m: int, c: char|
                0 <= n < root.len() && 0 <= m < root.len() && #[trigger] root[m] == #[trigger] root[n].push(c)
                implies nx[n].contains_key(c) by {
                assert(root[m].len() != root[n].push(c).len());
            }
        }
        t
    }

    /// Number of nodes.
    pub fn len(&self) -> (n: usize)
        requires
            self.wf(),
        ensures
            n == self.paths().len(),
    {
        self.next.len()
    }

    /// The node that extends node `n` by `c`, if there is one.
    pub fn child(&self, n: usize, c: char) -> (r: Option<usize>)
        requires
            self.wf(),
            n < self.paths().len(),
        ensures
            match r {
                Some(m) => m < self.paths().len() && self.paths()[m as int] == self.paths()[n as int].push(c),
                None => !has_path(self.paths(), self.paths()[n as int].push(c)),
            },
    {
        let r = fx_get(&self.next[n], c);
        proof {
            reveal(trie_ok);
            let nx = self.next@.map_values(|m: FxCharMap<usize>| m@);
            assert(nx[n as int] == self.next@[n as int]@);
            if r is None {
                if has_path(self.paths@, self.paths@[n as int].push(c)) {
                    let m = choose|m: int| 0 <= m < self.paths@.len() && #[trigger] self.paths@[m] == self.paths@[n as int].push(c);
                    assert(nx[n as int].contains_key(c));
                }
            }
        }
        r
    }

    /// Whether some node extends node `n` by one character.
    pub fn has_children(&self, n: usize) -> (r: bool)
        requires
            self.wf(),
            n < self.paths().len(),
        ensures
            r <==> exists|c: char| has_path(self.paths(), #[trigger] self.paths()[n as int].push(c)),
    {
        let e = fx_is_empty(&self.next[n]);
        proof {
            reveal(trie_ok);
            let nx = self.next@.map_values(|m: FxCharMap<usize>| m@);
            assert(nx[n as int] == self.next@[n as int]@);
            if !e {
                assert(!(nx[n as int].dom() =~= Set::<char>::empty()));
                let c = choose|c: char| nx[n as int].dom().contains(c);
                let m = nx[n as int][c] as int;
                assert(self.paths@[m] == self.paths@[n as int].push(c));
                assert(has_path(self.paths@, self.paths@[n as int].push(c)));
            } else {
                assert forall|c: char| !has_path(self.paths@, #[trigger] self.paths@[n as int].push(c)) by {
                    if has_path(self.paths@, self.paths@[n as int].push(c)) {
                        let m = choose|m: int| 0 <= m < self.paths@.len() && #[trigger] self.paths@[m] == self.paths@[n as int].push(c);
                        assert(nx[n as int].contains_key(c));
                        assert(nx[n as int].dom().contains(c));
                    }
                }
            }
        }
        !e
    }

    /// Adds `word` and its prefixes, and returns the node of `word`. Nodes
    /// that were there keep their index.
    pub fn insert(&mut self, word: &[char]) -> (n: usize)
        requires
            old(self).wf(),
        ensures
            final(self).wf(),
            n < final(self).paths().len(),
            final(self).paths()[n as int] == word@,
            old(self).paths().len() <= final(self).paths().len() <= old(self).paths().len() + word@.len(),
            final(self).paths().take(old(self).paths().len() as int) == old(self).paths(),
            forall|w: Seq<char>|
                #[trigger] has_path(final(self).paths(), w) <==> (has_path(old(self).paths(), w) || (
                w.len() <= word@.len() && w == word@.take(w.len() as int))),
    {
        let mut node: usize = 0;
        let mut k: usize = 0;
        let ghost p0 = self.paths@;
        proof {
            assert(word@.take(0) =~= Seq::<char>::empty());
        }
        while k < word.len()
            invariant
                self.wf(),
                node < self.paths@.len(),
                0 <= k <= word.len(),
                self.paths@[node as int] == word@.take(k as int),
                p0.len() <= self.paths@.len() <= p0.len() + k,
                self.paths@.take(p0.len() as int) == p0,
                forall|w: Seq<char>|
                    #[trigger] has_path(self.paths@, w) <==> (has_path(p0, w) || (w.len() <= k && w
                        == word@.take(w.len() as int))),
            decreases word.len() - k,
        {
            let c = word[k];
            proof {
                assert(word@.take(k + 1) =~= word@.take(k as int).push(c));
            }
            match self.child(node, c) {
                Some(m) => {
                    proof {
                        let w1 = word@.take(k + 1);
                        assert(self.paths@[m as int] == w1);
                        assert(has_path(self.paths@, w1));
                        assert forall|w: Seq<char>|
                            has_path(self.paths@, w) <==> (has_path(p0, w) || (w.len() <= k + 1 && w
                                == word@.take(w.len() as int))) by {
                            if w.len() == k + 1 && w == word@.take(w.len() as int) {
                                assert(w == w1);
                            }
                        }
                    }
                    node = m;
                },
                None => {
                    let fresh = self.next.len();
                    let ghost old_paths = self.paths@;
                    let ghost old_next = self.next@.map_values(|m: FxCharMap<usize>| m@);
                    let ghost np = old_paths[node as int].push(c);
                    self.next.push(HashMap::default());
                    assert(self.next@.len() == fresh + 1);
                    assert(self.next.len() == fresh + 1);
                    assert(fresh < usize::MAX);
                    fx_insert(&mut self.next[node], c, fresh);
                    self.paths = Ghost(old_paths.push(np));
                    proof {
                        let nx = self.next@.map_values(|m: FxCharMap<usize>| m@);
                        assert(nx =~= old_next.push(Map::<char, usize>::empty()).update(
                            node as int,
                            old_next[node as int].insert(c, fresh),
                        ));
                        lemma_extend(old_next, old_paths, node as int, c);
                        let paths = self.paths@;
                        assert(paths.take(old_paths.len() as int) =~= old_paths);
                        assert(paths.take(p0.len() as int) =~= p0);
                        assert(np == word@.take(k + 1));
                        assert forall|w: Seq<char>|
                            has_path(paths, w) <==> (has_path(p0, w) || (w.len() <= k + 1 && w
                                == word@.take(w.len() as int))) by {
                            assert(has_path(paths, w) <==> (has_path(old_paths, w) || w == np));
                            assert(has_path(old_paths, w) <==> (has_path(p0, w) || (w.len() <= k && w
                                == word@.take(w.len() as int))));
                            if w.len() == k + 1 && w == word@.take(w.len() as int) {
                                assert(w == np);
                            }
                        }
                    }
                    node = fresh;
                },
            }
            k += 1;
        }
        proof {
            assert(word@.take(k as int) =~= word@);
        }
        node
    }

    /// The nodes of `s[start..start + 1]`, `s[start..start + 2]`, ..., as far
    /// as the trie holds these strings.
    pub fn walk(&self, s: &[char], start: usize) -> (r: Vec<usize>)
        requires
            self.wf(),
            start <= s@.len(),
        ensures
            r@.len() <= s@.len() - start,
            forall|j: int|
                0 <= j < r@.len() ==> #[trigger] r@[j] < self.paths().len() && self.paths()[r@[j] as int]
                    == s@.subrange(start as int, start + j + 1),
            r@.len() < s@.len() - start ==> !has_path(
                self.paths(),
                s@.subrange(start as int, start + r@.len() + 1),
            ),
    {
        let mut r: Vec<usize> = Vec::new();
        let mut node: usize = 0;
        let mut k: usize = start;
        proof {
            assert(s@.subrange(start as int, start as int) =~= Seq::<char>::empty());
        }
        while k < s.len()
            invariant
                self.wf(),
                start <= k <= s.len(),
                r@.len() == k - start,
                node < self.paths().len(),
                self.paths()[node as int] == s@.subrange(start as int, k as int),
                forall|j: int|
                    0 <= j < r@.len() ==> #[trigger] r@[j] < self.paths().len() && self.paths()[r@[j] as int]
                        == s@.subrange(start as int, start + j + 1),
            decreases s.len() - k,
        {
            proof {
                assert(s@.subrange(start as int, k + 1) =~= s@.subrange(start as int, k as int).push(s@[k as int]));
            }
            match self.child(node, s[k]) {
                Some(m) => {
                    r.push(m);
                    node = m;
                },
                None => {
                    return r;
                },
            }
            k += 1;
        }
        r
    }

    /// Node 0 is the empty string.
    pub proof fn lemma_root(&self)
        requires
            self.wf(),
        ensures
            self.paths().len() >= 1,
            self.paths()[0] == Seq::<char>::empty(),
    {
    }

    /// The strings of the nodes are closed under prefixes.
    pub proof fn lemma_prefix_closed(&self, w: Seq<char>, i: int)
        requires
            self.wf(),
            has_path(self.paths(), w),
            0 <= i <= w.len(),
        ensures
            has_path(self.paths(), w.take(i)),
        decreases w.len() - i,
    {
        reveal(trie_ok);
        if i == w.len() {
            assert(w.take(i) =~= w);
        } else {
            self.lemma_prefix_closed(w, i + 1);
            let v = w.take(i + 1);
            let m = choose|m: int| 0 <= m < self.paths@.len() && #[trigger] self.paths@[m] == v;
            assert(m != 0) by {
                if m == 0 {
                    assert(self.paths@[0].len() == 0);
                }
            }
            assert(v.drop_last() =~= w.take(i));
            let q = choose|q: int| 0 <= q < self.paths@.len() && #[trigger] self.paths@[q] == self.paths@[m].drop_last();
            assert(self.paths@[q] == w.take(i));
        }
    }

    /// No two nodes share a string.
    pub proof fn lemma_distinct(&self, m1: int, m2: int)
        requires
            self.wf(),
            0 <= m1 < self.paths().len(),
            0 <= m2 < self.paths().len(),
            self.paths()[m1] == self.paths()[m2],
        ensures
            m1 == m2,
    {
        reveal(trie_ok);
    }
}

} // verus!
