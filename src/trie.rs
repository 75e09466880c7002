use vstd::prelude::*;
use vstd::string::*;

use crate::utils::MatchableNode;

verus! {

/// Every stored string leads from the root to a node that holds that very
/// string.
pub proof fn lemma_stored_word_found(t: &Trie, w: Seq<char>)
    requires
        t.wf(),
        t.contains(w),
    ensures
        t.walk(0, w) is Some,
        t.nodes@[t.walk(0, w)->0 as int].word is Some,
        t.nodes@[t.walk(0, w)->0 as int].word->0@ == w,
{
    let n = t.walk(0, w)->0;
    assert(t.nodes@[n as int].word->0@ == t.paths@[n as int]);
}

/// One node of a trie: labelled edges to its children, and the stored word
/// when the path from the root to this node spells one.
pub struct TrieNode {
    pub children: Vec<(char, usize)>,
    pub word: Option<String>,
}

/// Target of the last edge labelled `c` among `edges`.
pub open spec fn child_of(edges: Seq<(char, usize)>, c: char) -> Option<usize>
    decreases edges.len(),
{
    if edges.len() == 0 {
        None
    } else if edges.last().0 == c {
        Some(edges.last().1)
    } else {
        child_of(edges.drop_last(), c)
    }
}

proof fn lemma_child_of_in(edges: Seq<(char, usize)>, c: char)
    ensures
        child_of(edges, c) is Some ==> exists|k: int|
            0 <= k < edges.len() && edges[k].1 == child_of(edges, c)->0,
    decreases edges.len(),
{
    if edges.len() > 0 && edges.last().0 != c {
        lemma_child_of_in(edges.drop_last(), c);
        if child_of(edges, c) is Some {
            let k = choose|k: int|
                0 <= k < edges.drop_last().len() && edges.drop_last()[k].1 == child_of(edges, c)->0;
            assert(edges[k] == edges.drop_last()[k]);
        }
    } else if edges.len() > 0 {
        assert(edges[edges.len() - 1] == edges.last());
    }
}

/// `s` is a prefix of `w`.
pub open spec fn is_prefix(s: Seq<char>, w: Seq<char>) -> bool {
    s.len() <= w.len() && w.take(s.len() as int) == s
}

proof fn lemma_child_of_none(edges: Seq<(char, usize)>, c: char)
    ensures
        child_of(edges, c) is None ==> forall|k: int| 0 <= k < edges.len() ==> (#[trigger] edges[k]).0 != c,
    decreases edges.len(),
{
    if edges.len() > 0 {
        lemma_child_of_none(edges.drop_last(), c);
        if child_of(edges, c) is None {
            assert forall|k: int| 0 <= k < edges.len() implies (#[trigger] edges[k]).0 != c by {
                if k < edges.len() - 1 {
                    assert(edges[k] == edges.drop_last()[k]);
                }
            }
        }
    }
}

proof fn lemma_no_dup_concat<A>(a: Seq<A>, b: Seq<A>)
    requires
        a.no_duplicates(),
        b.no_duplicates(),
        forall|x: A| a.contains(x) ==> !b.contains(x),
    ensures
        (a + b).no_duplicates(),
{
    assert forall|i: int, j: int|
        0 <= i < (a + b).len() && 0 <= j < (a + b).len() && i != j implies (a + b)[i] != (a + b)[j] by {
        if i < a.len() && j < a.len() {
            assert((a + b)[i] == a[i] && (a + b)[j] == a[j]);
        } else if i >= a.len() && j >= a.len() {
            assert((a + b)[i] == b[i - a.len()] && (a + b)[j] == b[j - a.len()]);
        } else if i < a.len() {
            assert((a + b)[i] == a[i] && (a + b)[j] == b[j - a.len()]);
            assert(a.contains(a[i]));
            assert(b.contains(b[j - a.len()]));
        } else {
            assert((a + b)[j] == a[j] && (a + b)[i] == b[i - a.len()]);
            assert(a.contains(a[j]));
            assert(b.contains(b[i - a.len()]));
        }
    }
}

pub open spec fn views(v: Seq<String>) -> Seq<Seq<char>> {
    v.map_values(|s: String| s@)
}

pub(crate) proof fn lemma_contains_push<A>(a: Seq<A>, x: A)
    ensures
        forall|w: A| #[trigger] a.push(x).contains(w) <==> (a.contains(w) || w == x),
{
    assert forall|w: A| #[trigger] a.push(x).contains(w) <==> (a.contains(w) || w == x) by {
        if a.push(x).contains(w) {
            let k = choose|k: int| 0 <= k < a.len() + 1 && a.push(x)[k] == w;
            if k < a.len() {
                assert(a[k] == a.push(x)[k]);
            }
        }
        if a.contains(w) {
            let k = choose|k: int| 0 <= k < a.len() && a[k] == w;
            assert(a.push(x)[k] == a[k]);
        }
        if w == x {
            assert(a.push(x)[a.len() as int] == x);
        }
    }
}

pub(crate) proof fn lemma_contains_concat<A>(a: Seq<A>, b: Seq<A>)
    ensures
        forall|w: A| #[trigger] (a + b).contains(w) <==> (a.contains(w) || b.contains(w)),
{
    assert forall|w: A| #[trigger] (a + b).contains(w) <==> (a.contains(w) || b.contains(w)) by {
        if (a + b).contains(w) {
            let k = choose|k: int| 0 <= k < (a + b).len() && (a + b)[k] == w;
            if k < a.len() {
                assert(a[k] == (a + b)[k]);
            } else {
                assert(b[k - a.len()] == (a + b)[k]);
            }
        }
        if a.contains(w) {
            let k = choose|k: int| 0 <= k < a.len() && a[k] == w;
            assert((a + b)[k] == a[k]);
        }
        if b.contains(w) {
            let k = choose|k: int| 0 <= k < b.len() && b[k] == w;
            assert((a + b)[k + a.len()] == b[k]);
        }
    }
}

/// A set of strings stored as a tree of characters. Nodes live in one vector,
/// the root at index 0; `paths` records, for each node, the characters on the
/// way from the root to it.
pub struct Trie {
    pub nodes: Vec<TrieNode>,
    pub paths: Ghost<Seq<Seq<char>>>,
}

impl TrieNode {
    fn new() -> (r: TrieNode)
        ensures
            r.children@.len() == 0,
            r.word is None,
    {
        TrieNode { children: Vec::new(), word: None }
    }

    /// Whether a stored string ends at this node.
    pub fn is_complete_word(&self) -> (r: bool)
        ensures
            r == self.word is Some,
    {
        self.word.is_some()
    }

    /// The stored string that ends at this node, if any.
    pub fn get_word(&self) -> (r: Option<String>)
        ensures
            r == self.word,
    {
        self.word.clone()
    }
}

impl Trie {
    pub open spec fn child(&self, n: usize, c: char) -> Option<usize> {
        child_of(self.nodes@[n as int].children@, c)
    }

    /// The node reached from node `n` by following the characters of `s`.
    pub open spec fn walk(&self, n: usize, s: Seq<char>) -> Option<usize>
        decreases s.len(),
    {
        if s.len() == 0 {
            Some(n)
        } else {
            match self.walk(n, s.drop_last()) {
                Some(m) => self.child(m, s.last()),
                None => None,
            }
        }
    }

    pub open spec fn wf(&self) -> bool {
        let nodes = self.nodes@;
        let paths = self.paths@;
        &&& nodes.len() >= 1
        &&& paths.len() == nodes.len()
        &&& forall|n: int, k: int|
            #![trigger nodes[n].children@[k]]
            0 <= n < nodes.len() && 0 <= k < nodes[n].children@.len() ==> n
                < nodes[n].children@[k].1 < nodes.len() && paths[nodes[n].children@[k].1 as int]
                == paths[n].push(nodes[n].children@[k].0)
        &&& forall|n: int, k1: int, k2: int|
            #![trigger nodes[n].children@[k1], nodes[n].children@[k2]]
            0 <= n < nodes.len() && 0 <= k1 < k2 < nodes[n].children@.len()
                ==> nodes[n].children@[k1].0 != nodes[n].children@[k2].0
        &&& forall|n: int| #![trigger paths[n]] 0 <= n < nodes.len() ==> self.walk(0, paths[n]) == Some(n as usize)
        &&& forall|s: Seq<char>|
            #[trigger] self.walk(0, s) is Some ==> {
                let n = self.walk(0, s)->0;
                n < nodes.len() && s == paths[n as int]
            }
        &&& forall|n: int|
            #![trigger nodes[n].word]
            0 <= n < nodes.len() && nodes[n].word is Some ==> nodes[n].word->0@ == paths[n]
    }

    /// `s` is one of the stored strings.
    pub open spec fn contains(&self, s: Seq<char>) -> bool {
        match self.walk(0, s) {
            Some(n) => self.nodes@[n as int].word is Some,
            None => false,
        }
    }

    /// `k` characters of `s` can be followed from the root, and no more.
    pub open spec fn is_greedy_len(&self, s: Seq<char>, k: int) -> bool {
        &&& 0 <= k <= s.len()
        &&& self.walk(0, s.take(k)) is Some
        &&& (k == s.len() || self.walk(0, s.take(k + 1)) is None)
    }

    pub fn new() -> (r: Trie)
        ensures
            r.wf(),
            forall|s: Seq<char>| !r.contains(s),
            forall|s: Seq<char>| #[trigger] r.walk(0, s) is Some <==> s.len() == 0,
    {
        let mut nodes: Vec<TrieNode> = Vec::new();
        nodes.push(TrieNode::new());
        let ghost paths = seq![Seq::<char>::empty()];
        let r = Trie { nodes, paths: Ghost(paths) };
        assert forall|s: Seq<char>| #[trigger] r.walk(0, s) is Some implies {
            let n = r.walk(0, s)->0;
            n < r.nodes@.len() && s == r.paths@[n as int]
        } by {
            r.lemma_walk_root_only(s);
        }
        assert(r.walk(0, r.paths@[0]) == Some(0usize));
        r
    }

    proof fn lemma_walk_root_only(&self, s: Seq<char>)
        requires
            self.nodes@.len() == 1,
            self.nodes@[0].children@.len() == 0,
        ensures
            self.walk(0, s) is Some ==> s.len() == 0 && self.walk(0, s) == Some(0usize),
        decreases s.len(),
    {
        if s.len() > 0 {
            self.lemma_walk_root_only(s.drop_last());
        }
    }

    /// Looks up the child of node `n` along the edge labelled `c`.
    fn find_child(&self, n: usize, c: char) -> (r: Option<usize>)
        requires
            self.wf(),
            n < self.nodes@.len(),
        ensures
            r == self.child(n, c),
            r is Some ==> n < r->0 < self.nodes@.len(),
    {
        let edges = &self.nodes[n].children;
        let mut i: usize = edges.len();
        assert(edges@.take(i as int) =~= edges@);
        while i > 0
            invariant
                i <= edges@.len(),
                edges == &self.nodes@[n as int].children,
                child_of(edges@, c) == child_of(edges@.take(i as int), c),
                self.wf(),
                n < self.nodes@.len(),
            decreases i,
        {
            i = i - 1;
            assert(edges@.take(i + 1).drop_last() =~= edges@.take(i as int));
            if edges[i].0 == c {
                assert(edges@[i as int] == self.nodes@[n as int].children@[i as int]);
                return Some(edges[i].1);
            }
        }
        assert(edges@.take(0) =~= Seq::<(char, usize)>::empty());
        None
    }

    /// Follows the characters of `s` from node `start`.
    pub fn walk_from(&self, start: usize, s: &str) -> (r: Option<usize>)
        requires
            self.wf(),
            start < self.nodes@.len(),
        ensures
            r == self.walk(start, s@),
            r is Some ==> r->0 < self.nodes@.len(),
    {
        let len = s.unicode_len();
        let mut cur: usize = start;
        let mut i: usize = 0;
        while i < len
            invariant
                self.wf(),
                len == s@.len(),
                i <= len,
                cur < self.nodes@.len(),
                self.walk(start, s@.take(i as int)) == Some(cur),
            decreases len - i,
        {
            let c = s.get_char(i);
            assert(s@.take(i + 1).drop_last() =~= s@.take(i as int));
            match self.find_child(cur, c) {
                Some(m) => {
                    cur = m;
                },
                None => {
                    proof {
                        self.lemma_walk_none_extends(start, s@, i as int + 1);
                    }
                    return None;
                },
            }
            i = i + 1;
        }
        assert(s@.take(len as int) =~= s@);
        Some(cur)
    }


    /// Two tries with the same edges walk alike.
    proof fn lemma_same_shape(&self, other: &Trie, start: usize, s: Seq<char>)
        requires
            self.nodes@.len() == other.nodes@.len(),
            forall|n: int|
                0 <= n < self.nodes@.len() ==> (#[trigger] self.nodes@[n]).children
                    == other.nodes@[n].children,
            self.walk(start, s) is Some ==> self.walk(start, s)->0 < self.nodes@.len(),
            start < self.nodes@.len(),
            self.wf(),
        ensures
            self.walk(start, s) == other.walk(start, s),
        decreases s.len(),
    {
        if s.len() > 0 {
            let s1 = s.drop_last();
            if self.walk(start, s1) is Some {
                self.lemma_walk_in_range(start, s1);
            }
            self.lemma_same_shape(other, start, s1);
        }
    }

    proof fn lemma_walk_in_range(&self, start: usize, s: Seq<char>)
        requires
            self.wf(),
            start < self.nodes@.len(),
        ensures
            self.walk(start, s) is Some ==> self.walk(start, s)->0 < self.nodes@.len(),
        decreases s.len(),
    {
        if s.len() > 0 {
            let s1 = s.drop_last();
            self.lemma_walk_in_range(start, s1);
            if let Some(m) = self.walk(start, s1) {
                lemma_child_of_in(self.nodes@[m as int].children@, s.last());
                if let Some(x) = self.child(m, s.last()) {
                    let k = choose|k: int|
                        0 <= k < self.nodes@[m as int].children@.len()
                            && self.nodes@[m as int].children@[k].1 == x;
                    assert(self.nodes@[m as int].children@[k].1 < self.nodes@.len());
                }
            }
        }
    }

    /// What a walk from the root gives after a fresh node is hung below
    /// node `cur` along an edge labelled `c`.
    proof fn lemma_grow_walk(t: &Trie, u: &Trie, cur: usize, c: char, s: Seq<char>)
        requires
            Trie::grown(t, u, cur, c),
        ensures
            u.walk(0, s) == (if t.walk(0, s) is Some {
                t.walk(0, s)
            } else if s == t.paths@[cur as int].push(c) {
                Some(t.nodes@.len() as usize)
            } else {
                None
            }),
        decreases s.len(),
    {
        let len = t.nodes@.len();
        let pc = t.paths@[cur as int].push(c);
        assert(pc.drop_last() =~= t.paths@[cur as int]);
        assert(t.walk(0, t.paths@[cur as int]) == Some(cur));
        if s.len() > 0 {
            let s1 = s.drop_last();
            let l = s.last();
            Trie::lemma_grow_walk(t, u, cur, c, s1);
            if s == pc {
                assert(s1 == t.paths@[cur as int]);
            }
            match t.walk(0, s1) {
                Some(m) => {
                    assert(m < len && s1 == t.paths@[m as int]);
                    if m == cur {
                        let e = t.nodes@[cur as int].children@;
                        assert(e.push((c, len as usize)).drop_last() =~= e);
                        if l == c {
                            assert(s =~= pc);
                        }
                    } else {
                        assert(u.nodes@[m as int] == t.nodes@[m as int]);
                    }
                },
                None => {
                    if s1 == pc {
                        assert(u.nodes@[len as int] == u.nodes@.last());
                    }
                },
            }
        }
    }

    /// `u` is `t` with a fresh node hung below node `cur` along an edge
    /// labelled `c`, which `cur` lacked.
    spec fn grown(t: &Trie, u: &Trie, cur: usize, c: char) -> bool {
        let len = t.nodes@.len();
        &&& t.wf()
        &&& cur < len
        &&& t.child(cur, c) is None
        &&& u.nodes@.len() == len + 1
        &&& u.nodes@.len() == u.nodes.len()
        &&& forall|n: int| 0 <= n < len && n != cur ==> #[trigger] u.nodes@[n] == t.nodes@[n]
        &&& u.nodes@[cur as int].children@ == t.nodes@[cur as int].children@.push((c, len as usize))
        &&& u.nodes@[cur as int].word == t.nodes@[cur as int].word
        &&& u.nodes@.last().children@.len() == 0
        &&& u.nodes@.last().word is None
        &&& u.paths@ == t.paths@.push(t.paths@[cur as int].push(c))
    }

    proof fn lemma_grow(t: &Trie, u: &Trie, cur: usize, c: char)
        requires
            Trie::grown(t, u, cur, c),
        ensures
            u.wf(),
            u.walk(0, t.paths@[cur as int].push(c)) == Some(t.nodes@.len() as usize),
            forall|s: Seq<char>| u.contains(s) == t.contains(s),
            forall|s: Seq<char>|
                #[trigger] u.walk(0, s) is Some == (t.walk(0, s) is Some || s == t.paths@[cur as int].push(c)),
    {
        assert forall|s: Seq<char>|
            #[trigger] u.walk(0, s) is Some == (t.walk(0, s) is Some || s == t.paths@[cur as int].push(c)) by {
            Trie::lemma_grow_walk(t, u, cur, c, s);
        }
        lemma_child_of_none(t.nodes@[cur as int].children@, c);
        assert forall|n: int, k1: int, k2: int|
            #![trigger u.nodes@[n].children@[k1], u.nodes@[n].children@[k2]]
            0 <= n < u.nodes@.len() && 0 <= k1 < k2 < u.nodes@[n].children@.len()
                implies u.nodes@[n].children@[k1].0 != u.nodes@[n].children@[k2].0 by {
            if n < t.nodes@.len() && n != cur {
                assert(u.nodes@[n] == t.nodes@[n]);
                assert(t.nodes@[n].children@[k1] == u.nodes@[n].children@[k1]);
                assert(t.nodes@[n].children@[k2] == u.nodes@[n].children@[k2]);
            } else if n == cur {
                let e = t.nodes@[cur as int].children@;
                assert(u.nodes@[n].children@[k1] == e[k1]);
                if k2 < e.len() {
                    assert(u.nodes@[n].children@[k2] == e[k2]);
                } else {
                    assert(u.nodes@[n].children@[k2].0 == c);
                    assert(e[k1].0 != c);
                }
            }
        }
        let len = t.nodes@.len();
        let pc = t.paths@[cur as int].push(c);
        assert forall|s: Seq<char>| #[trigger] u.walk(0, s) is Some implies {
            let n = u.walk(0, s)->0;
            n < u.nodes@.len() && s == u.paths@[n as int]
        } by {
            Trie::lemma_grow_walk(t, u, cur, c, s);
            if let Some(n) = t.walk(0, s) {
                assert(u.paths@[n as int] == t.paths@[n as int]);
            } else {
                assert(u.paths@[len as int] == pc);
            }
        }
        assert forall|n: int| #![trigger u.paths@[n]] 0 <= n < u.nodes@.len() implies u.walk(0, u.paths@[n]) == Some(n as usize) by {
            Trie::lemma_grow_walk(t, u, cur, c, u.paths@[n]);
            if n < len {
                assert(u.paths@[n] == t.paths@[n]);
            }
            if n == len {
                assert(pc.drop_last() =~= t.paths@[cur as int]);
                assert(t.walk(0, t.paths@[cur as int]) == Some(cur));
            }
        }
        assert forall|n: int, k: int|
            #![trigger u.nodes@[n].children@[k]]
            0 <= n < u.nodes@.len() && 0 <= k < u.nodes@[n].children@.len() implies n
                < u.nodes@[n].children@[k].1 < u.nodes@.len() && u.paths@[u.nodes@[n].children@[k].1 as int]
                == u.paths@[n].push(u.nodes@[n].children@[k].0) by {
            if n < len && n != cur {
                assert(u.nodes@[n] == t.nodes@[n]);
                assert(t.nodes@[n].children@[k] == u.nodes@[n].children@[k]);
                assert(u.paths@[n] == t.paths@[n]);
                assert(u.paths@[t.nodes@[n].children@[k].1 as int] == t.paths@[t.nodes@[n].children@[k].1 as int]);
            } else if n == cur && k < t.nodes@[cur as int].children@.len() {
                assert(t.nodes@[n].children@[k] == u.nodes@[n].children@[k]);
                assert(u.paths@[n] == t.paths@[n]);
                assert(u.paths@[t.nodes@[n].children@[k].1 as int] == t.paths@[t.nodes@[n].children@[k].1 as int]);
            } else if n == cur {
                assert(u.paths@[n] == t.paths@[n]);
                assert(u.nodes@[n].children@[k] == (c, len as usize));
            }
        }
        assert forall|n: int|
            #![trigger u.nodes@[n].word]
            0 <= n < u.nodes@.len() && u.nodes@[n].word is Some implies u.nodes@[n].word->0@
                == u.paths@[n] by {
            if n < len && n != cur {
                assert(u.nodes@[n] == t.nodes@[n]);
            }
        }
        assert(pc.drop_last() =~= t.paths@[cur as int]);
        assert(t.walk(0, t.paths@[cur as int]) == Some(cur));
        assert(t.walk(0, pc) is None);
        Trie::lemma_grow_walk(t, u, cur, c, pc);
        assert forall|s: Seq<char>| u.contains(s) == t.contains(s) by {
            Trie::lemma_grow_walk(t, u, cur, c, s);
            if let Some(n) = t.walk(0, s) {
                if n != cur {
                    assert(u.nodes@[n as int] == t.nodes@[n as int]);
                }
            }
        }
    }

    proof fn lemma_prefix_step(t0: &Trie, u: &Trie, o: &Trie, word: Seq<char>, i: int)
        requires
            0 <= i < word.len(),
            forall|s: Seq<char>|
                #[trigger] t0.walk(0, s) is Some == (o.walk(0, s) is Some || (s.len() <= i && word.take(
                    s.len() as int,
                ) == s)),
            forall|s: Seq<char>|
                #[trigger] u.walk(0, s) is Some == (t0.walk(0, s) is Some || s == word.take(i + 1)),
        ensures
            forall|s: Seq<char>|
                #[trigger] u.walk(0, s) is Some == (o.walk(0, s) is Some || (s.len() <= i + 1
                    && word.take(s.len() as int) == s)),
    {
        assert forall|s: Seq<char>|
            #[trigger] u.walk(0, s) is Some == (o.walk(0, s) is Some || (s.len() <= i + 1 && word.take(
                s.len() as int,
            ) == s)) by {
            assert(t0.walk(0, s) is Some == (o.walk(0, s) is Some || (s.len() <= i && word.take(
                s.len() as int,
            ) == s)));
            if s.len() == i + 1 && word.take(s.len() as int) == s {
                assert(s == word.take(i + 1));
            }
            if s == word.take(i + 1) {
                assert(word.take(s.len() as int) == s);
            }
        }
    }

    /// Adds `word` to the stored strings.
    pub fn insert(&mut self, word: &str)
        requires
            old(self).wf(),
        ensures
            final(self).wf(),
            forall|s: Seq<char>| #[trigger] final(self).contains(s) == (old(self).contains(s) || s == word@),
            forall|s: Seq<char>|
                #[trigger] final(self).walk(0, s) is Some == (old(self).walk(0, s) is Some || is_prefix(
                    s,
                    word@,
                )),
    {
        let len = word.unicode_len();
        let mut cur: usize = 0;
        let mut i: usize = 0;
        while i < len
            invariant
                self.wf(),
                len == word@.len(),
                i <= len,
                cur < self.nodes@.len(),
                self.walk(0, word@.take(i as int)) == Some(cur),
                forall|s: Seq<char>| #[trigger] self.contains(s) == old(self).contains(s),
                forall|s: Seq<char>|
                    #[trigger] self.walk(0, s) is Some == (old(self).walk(0, s) is Some || (s.len() <= i
                        && word@.take(s.len() as int) == s)),
            decreases len - i,
        {
            let c = word.get_char(i);
            let ghost w1 = word@.take(i + 1);
            assert(w1.drop_last() =~= word@.take(i as int));
            let ghost t0 = *self;
            match self.find_child(cur, c) {
                Some(m) => {
                    cur = m;
                },
                None => {
                    let ghost t = *self;
                    let idx = self.nodes.len();
                    self.nodes.push(TrieNode::new());
                    self.nodes[cur].children.push((c, idx));
                    let ghost p = self.paths@.push(self.paths@[cur as int].push(c));
                    self.paths = Ghost(p);
                    proof {
                        assert(word@.take(i as int) == t.paths@[cur as int]);
                        assert(w1 =~= t.paths@[cur as int].push(c));
                        Trie::lemma_grow(&t, self, cur, c);
                    }
                    cur = idx;
                },
            }
            proof {
                assert(self.walk(0, w1) is Some);
                assert forall|s: Seq<char>|
                    #[trigger] self.walk(0, s) is Some == (t0.walk(0, s) is Some || s == w1) by {}
                Trie::lemma_prefix_step(&t0, self, old(self), word@, i as int);
            }
            i = i + 1;
        }
        assert(word@.take(len as int) =~= word@);
        let ghost t = *self;
        self.nodes[cur].word = Some(word.to_owned());
        proof {
            assert forall|s: Seq<char>| #[trigger] self.walk(0, s) == t.walk(0, s) by {
                assert forall|n: int| 0 <= n < t.nodes@.len() implies (#[trigger] t.nodes@[n]).children
                    == self.nodes@[n].children by {
                    if n != cur {
                        assert(t.nodes@[n] == self.nodes@[n]);
                    }
                }
                t.lemma_walk_in_range(0, s);
                t.lemma_same_shape(self, 0, s);
            }
            assert forall|n: int|
                #![trigger self.nodes@[n].word]
                0 <= n < self.nodes@.len() && self.nodes@[n].word is Some implies self.nodes@[n].word->0@
                    == self.paths@[n] by {
                if n != cur {
                    assert(t.nodes@[n] == self.nodes@[n]);
                }
            }
            assert forall|n: int, k: int|
                #![trigger self.nodes@[n].children@[k]]
                0 <= n < self.nodes@.len() && 0 <= k < self.nodes@[n].children@.len() implies n
                    < self.nodes@[n].children@[k].1 < self.nodes@.len() && self.paths@[self.nodes@[n].children@[k].1 as int]
                    == self.paths@[n].push(self.nodes@[n].children@[k].0) by {
                assert(t.nodes@[n].children == self.nodes@[n].children);
                assert(t.nodes@[n].children@[k] == self.nodes@[n].children@[k]);
            }
            assert forall|n: int, k1: int, k2: int|
                #![trigger self.nodes@[n].children@[k1], self.nodes@[n].children@[k2]]
                0 <= n < self.nodes@.len() && 0 <= k1 < k2 < self.nodes@[n].children@.len()
                    implies self.nodes@[n].children@[k1].0 != self.nodes@[n].children@[k2].0 by {
                assert(t.nodes@[n].children == self.nodes@[n].children);
                assert(t.nodes@[n].children@[k1] == self.nodes@[n].children@[k1]);
                assert(t.nodes@[n].children@[k2] == self.nodes@[n].children@[k2]);
            }
            assert forall|s: Seq<char>|
                #[trigger] self.walk(0, s) is Some == (old(self).walk(0, s) is Some || is_prefix(s, word@)) by {
                assert(t.walk(0, s) is Some == (old(self).walk(0, s) is Some || (s.len() <= len
                    && word@.take(s.len() as int) == s)));
            }
            assert(forall|n: int| #![trigger self.paths@[n]] 0 <= n < self.nodes@.len() ==> self.walk(0, self.paths@[n]) == t.walk(0, t.paths@[n]));
            assert forall|s: Seq<char>| #[trigger] self.contains(s) == (old(self).contains(s) || s == word@) by {
                if let Some(n) = t.walk(0, s) {
                    if n != cur {
                        assert(t.nodes@[n as int] == self.nodes@[n as int]);
                    }
                }
                assert(t.contains(s) == old(self).contains(s));
            }
        }
    }

    /// Builds a trie that stores exactly the given strings, and whose paths
    /// are exactly their prefixes.
    pub fn from_strings(words: &[&str]) -> (r: Trie)
        ensures
            r.wf(),
            forall|s: Seq<char>|
                #[trigger] r.contains(s) <==> exists|i: int| 0 <= i < words@.len() && words@[i]@ == s,
            forall|s: Seq<char>|
                #[trigger] r.walk(0, s) is Some <==> (s.len() == 0 || exists|i: int|
                    0 <= i < words@.len() && is_prefix(s, words@[i]@)),
    {
        let mut trie = Trie::new();
        let mut i: usize = 0;
        while i < words.len()
            invariant
                trie.wf(),
                i <= words@.len(),
                forall|s: Seq<char>|
                    #[trigger] trie.contains(s) <==> exists|j: int| 0 <= j < i && words@[j]@ == s,
                forall|s: Seq<char>|
                    #[trigger] trie.walk(0, s) is Some <==> (s.len() == 0 || exists|j: int|
                        0 <= j < i && is_prefix(s, words@[j]@)),
            decreases words@.len() - i,
        {
            trie.insert(words[i]);
            assert forall|s: Seq<char>|
                #[trigger] trie.walk(0, s) is Some <==> (s.len() == 0 || exists|j: int|
                    0 <= j < i + 1 && is_prefix(s, words@[j]@)) by {
                if is_prefix(s, words@[i as int]@) {
                    assert(0 <= i < i + 1 && is_prefix(s, words@[i as int]@));
                }
                if exists|j: int| 0 <= j < i + 1 && is_prefix(s, words@[j]@) {
                    let j = choose|j: int| 0 <= j < i + 1 && is_prefix(s, words@[j]@);
                    if j < i {
                        assert(exists|j: int| 0 <= j < i && is_prefix(s, words@[j]@));
                    }
                }
            }
            assert forall|s: Seq<char>|
                #[trigger] trie.contains(s) <==> exists|j: int| 0 <= j < i + 1 && words@[j]@ == s by {
                if s == words@[i as int]@ {
                    assert(0 <= i < i + 1 && words@[i as int]@ == s);
                }
                if exists|j: int| 0 <= j < i + 1 && words@[j]@ == s {
                    let j = choose|j: int| 0 <= j < i + 1 && words@[j]@ == s;
                    if j < i {
                        assert(exists|j: int| 0 <= j < i && words@[j]@ == s);
                    }
                }
            }
            i = i + 1;
        }
        trie
    }


    /// The cursor at the node that `word` leads to from the root, if any.
    pub fn matching_node(&self, word: &str) -> (r: Option<MatchableNode<'_>>)
        requires
            self.wf(),
        ensures
            r is Some == self.walk(0, word@) is Some,
            r is Some ==> r->0.wf() && r->0.trie == self && r->0.pos == self.walk(0, word@)->0,
    {
        let root = MatchableNode::from(self);
        root.get_matching_node(word)
    }

    /// The node reached by following `word` from the root for as long as
    /// edges allow, with the characters followed; none when not even the
    /// first character can be followed.
    fn longest_prefix(&self, word: &str) -> (r: Option<(usize, String)>)
        requires
            self.wf(),
        ensures
            r is None ==> self.is_greedy_len(word@, 0),
            r is Some ==> {
                let (n, m) = r->0;
                &&& m@.len() > 0
                &&& self.is_greedy_len(word@, m@.len() as int)
                &&& m@ == word@.take(m@.len() as int)
                &&& self.walk(0, m@) == Some(n)
                &&& n < self.nodes@.len()
            },
    {
        let len = word.unicode_len();
        let mut cur: usize = 0;
        let mut i: usize = 0;
        let mut stop = false;
        assert(word@.take(0) =~= Seq::<char>::empty());
        while i < len && !stop
            invariant
                self.wf(),
                len == word@.len(),
                i <= len,
                cur < self.nodes@.len(),
                self.walk(0, word@.take(i as int)) == Some(cur),
                stop ==> i < len && self.walk(0, word@.take(i + 1)) is None,
            decreases len - i, if stop { 0int } else { 1int },
        {
            let c = word.get_char(i);
            assert(word@.take(i + 1).drop_last() =~= word@.take(i as int));
            match self.find_child(cur, c) {
                Some(m) => {
                    cur = m;
                    i = i + 1;
                },
                None => {
                    stop = true;
                },
            }
        }
        if i == 0 {
            None
        } else {
            let m = word.substring_char(0, i).to_owned();
            assert(word@.subrange(0, i as int) =~= word@.take(i as int));
            Some((cur, m))
        }
    }

    /// Splits `prefix` into the part that can be followed from the root
    /// (greedily, as far as edges allow), and the rest; the flag tells
    /// whether the followed part is itself a stored string. The empty
    /// string gives `("", "", false)`, and so does a followed part of no
    /// characters, with the whole input as the rest.
    pub fn match_longest_common_prefix(&self, prefix: &str) -> (r: (String, String, bool))
        requires
            self.wf(),
        ensures
            self.is_greedy_len(prefix@, r.0@.len() as int),
            r.0@ == prefix@.take(r.0@.len() as int),
            r.1@ == prefix@.skip(r.0@.len() as int),
            r.2 == (r.0@.len() > 0 && self.contains(r.0@)),
            prefix@.len() == 0 ==> r.0@.len() == 0 && r.1@.len() == 0 && !r.2,
    {
        let len = prefix.unicode_len();
        assert(prefix@.take(0) =~= Seq::<char>::empty());
        assert(prefix@.skip(0) =~= prefix@);
        if len == 0 {
            return (String::new(), String::new(), false);
        }
        match self.longest_prefix(prefix) {
            None => (String::new(), prefix.to_owned(), false),
            Some((node, matched)) => {
                let k = matched.as_str().unicode_len();
                let remaining = prefix.substring_char(k, len).to_owned();
                assert(prefix@.subrange(k as int, len as int) =~= prefix@.skip(k as int));
                let complete = self.nodes[node].is_complete_word();
                (matched, remaining, complete)
            },
        }
    }


    /// `w` is stored and strictly extends the path to node `n`.
    pub open spec fn below(&self, n: usize, w: Seq<char>) -> bool {
        let p = self.paths@[n as int];
        &&& self.contains(w)
        &&& w.len() > p.len()
        &&& w.take(p.len() as int) == p
    }

    /// `w` is stored at the `j`-th child of node `n` or below it.
    spec fn at_or_below_child(&self, n: usize, j: int, w: Seq<char>) -> bool {
        let m = self.nodes@[n as int].children@[j].1;
        (self.contains(w) && w == self.paths@[m as int]) || self.below(m, w)
    }

    proof fn lemma_walk_prefix(&self, s: Seq<char>, k: int)
        requires
            0 <= k <= s.len(),
            self.walk(0, s) is Some,
        ensures
            self.walk(0, s.take(k)) is Some,
    {
        if self.walk(0, s.take(k)) is None {
            self.lemma_walk_none_extends(0, s, k);
        }
    }

    proof fn lemma_below_split(&self, n: usize, w: Seq<char>)
        requires
            self.wf(),
            n < self.nodes@.len(),
        ensures
            self.below(n, w) <==> exists|j: int|
                0 <= j < self.nodes@[n as int].children@.len() && self.at_or_below_child(n, j, w),
    {
        let p = self.paths@[n as int];
        let edges = self.nodes@[n as int].children@;
        if self.below(n, w) {
            let q = w.take(p.len() as int + 1);
            self.lemma_walk_prefix(w, p.len() as int + 1);
            assert(q.drop_last() =~= p);
            assert(self.walk(0, p) == Some(n));
            let m = self.walk(0, q)->0;
            lemma_child_of_in(edges, q.last());
            let j = choose|j: int| 0 <= j < edges.len() && edges[j].1 == m;
            assert(edges[j] == self.nodes@[n as int].children@[j]);
            assert(q == self.paths@[m as int]);
            assert(w.take(q.len() as int) =~= q);
            if w.len() == q.len() {
                assert(w =~= q);
            }
            assert(self.at_or_below_child(n, j, w));
        }
        if exists|j: int| 0 <= j < edges.len() && self.at_or_below_child(n, j, w) {
            let j = choose|j: int| 0 <= j < edges.len() && self.at_or_below_child(n, j, w);
            let m = edges[j].1;
            assert(self.paths@[m as int] == p.push(edges[j].0));
            let pm = self.paths@[m as int];
            if self.below(m, w) {
                assert(w.take(p.len() as int) =~= pm.take(p.len() as int));
                assert(pm.take(p.len() as int) =~= p);
            } else {
                assert(w.take(p.len() as int) =~= p);
            }
        }
    }

    /// The stored strings that strictly extend the path to node `n`.
    pub fn find_complete_words(&self, n: usize) -> (r: Vec<String>)
        requires
            self.wf(),
            n < self.nodes@.len(),
        ensures
            forall|w: Seq<char>| #[trigger] views(r@).contains(w) <==> self.below(n, w),
            views(r@).no_duplicates(),
        decreases self.nodes@.len() - n,
    {
        let mut words: Vec<String> = Vec::new();
        let edges = &self.nodes[n].children;
        let mut k: usize = 0;
        while k < edges.len()
            invariant
                self.wf(),
                n < self.nodes@.len(),
                edges == &self.nodes@[n as int].children,
                k <= edges@.len(),
                forall|w: Seq<char>|
                    #[trigger] views(words@).contains(w) <==> exists|j: int|
                        0 <= j < k && self.at_or_below_child(n, j, w),
                views(words@).no_duplicates(),
            decreases edges@.len() - k,
        {
            let m = edges[k].1;
            assert(edges@[k as int] == self.nodes@[n as int].children@[k as int]);
            let ghost pre = views(words@);
            let ghost pm = self.paths@[m as int];
            assert(self.walk(0, pm) == Some(m));
            match &self.nodes[m].word {
                Some(w) => {
                    words.push(w.clone());
                },
                None => {},
            }
            let ghost mid = views(words@);
            assert(forall|w: Seq<char>|
                #[trigger] mid.contains(w) <==> (pre.contains(w) || (self.contains(w) && w == pm))) by {
                if self.nodes@[m as int].word is Some {
                    assert(mid =~= pre.push(pm));
                    lemma_contains_push(pre, pm);
                } else {
                    assert(mid =~= pre);
                }
            }
            let mut sub = self.find_complete_words(m);
            let ghost sv = views(sub@);
            words.append(&mut sub);
            assert(views(words@) =~= mid + sv);
            proof {
                lemma_contains_concat(mid, sv);
                let own = if self.nodes@[m as int].word is Some {
                    seq![pm]
                } else {
                    Seq::<Seq<char>>::empty()
                };
                assert(mid =~= pre + own);
                assert(own.no_duplicates());
                lemma_contains_concat(own, sv);
                assert forall|w: Seq<char>| own.contains(w) implies !sv.contains(w) by {
                    assert(w == own[0]);
                }
                lemma_no_dup_concat(own, sv);
                assert forall|w: Seq<char>| #[trigger] (own + sv).contains(w) implies self.at_or_below_child(
                    n,
                    k as int,
                    w,
                ) by {
                    if own.contains(w) {
                        assert(w == own[0]);
                    }
                }
                self.lemma_part_fresh(n, k as int, pre, own + sv);
                assert(views(words@) =~= pre + (own + sv));
            }
            assert forall|w: Seq<char>|
                #[trigger] views(words@).contains(w) <==> exists|j: int|
                    0 <= j < k + 1 && self.at_or_below_child(n, j, w) by {
                if exists|j: int| 0 <= j < k + 1 && self.at_or_below_child(n, j, w) {
                    let j = choose|j: int| 0 <= j < k + 1 && self.at_or_below_child(n, j, w);
                    if j < k {
                        assert(exists|j: int| 0 <= j < k && self.at_or_below_child(n, j, w));
                    }
                }
                if pre.contains(w) {
                    let j = choose|j: int| 0 <= j < k && self.at_or_below_child(n, j, w);
                    assert(0 <= j < k + 1 && self.at_or_below_child(n, j, w));
                }
                if (self.contains(w) && w == pm) || sv.contains(w) {
                    assert(self.at_or_below_child(n, k as int, w));
                }
            }
            k = k + 1;
        }
        proof {
            self.lemma_below_split(n, Seq::empty());
            assert forall|w: Seq<char>| #[trigger] views(words@).contains(w) <==> self.below(n, w) by {
                self.lemma_below_split(n, w);
            }
        }
        words
    }

    /// A stored word lies under one child of `n` at most.
    proof fn lemma_child_unique(&self, n: usize, j1: int, j2: int, w: Seq<char>)
        requires
            self.wf(),
            n < self.nodes@.len(),
            0 <= j1 < self.nodes@[n as int].children@.len(),
            0 <= j2 < self.nodes@[n as int].children@.len(),
            self.at_or_below_child(n, j1, w),
            self.at_or_below_child(n, j2, w),
        ensures
            j1 == j2,
    {
        let e = self.nodes@[n as int].children@;
        let p = self.paths@[n as int];
        let q1 = self.paths@[e[j1].1 as int];
        let q2 = self.paths@[e[j2].1 as int];
        assert(q1 == p.push(e[j1].0));
        assert(q2 == p.push(e[j2].0));
        assert(w.take(q1.len() as int) == q1);
        assert(w.take(q2.len() as int) == q2);
        assert(q1[p.len() as int] == e[j1].0);
        assert(q2[p.len() as int] == e[j2].0);
        if j1 < j2 {
            assert(e[j1].0 != e[j2].0);
        } else if j2 < j1 {
            assert(e[j2].0 != e[j1].0);
        }
    }

    proof fn lemma_part_fresh(&self, n: usize, k: int, pre: Seq<Seq<char>>, part: Seq<Seq<char>>)
        requires
            self.wf(),
            n < self.nodes@.len(),
            0 <= k < self.nodes@[n as int].children@.len(),
            pre.no_duplicates(),
            part.no_duplicates(),
            forall|w: Seq<char>|
                #[trigger] pre.contains(w) ==> exists|j: int| 0 <= j < k && self.at_or_below_child(n, j, w),
            forall|w: Seq<char>| #[trigger] part.contains(w) ==> self.at_or_below_child(n, k, w),
        ensures
            (pre + part).no_duplicates(),
    {
        assert forall|w: Seq<char>| pre.contains(w) implies !part.contains(w) by {
            let j = choose|j: int| 0 <= j < k && self.at_or_below_child(n, j, w);
            if part.contains(w) {
                self.lemma_child_unique(n, j, k, w);
            }
        }
        lemma_no_dup_concat(pre, part);
    }

    proof fn lemma_greedy_unique(&self, s: Seq<char>, a: int, b: int)
        requires
            self.is_greedy_len(s, a),
            self.is_greedy_len(s, b),
        ensures
            a == b,
    {
        if a < b {
            assert(s.take(b).take(a + 1) =~= s.take(a + 1));
            self.lemma_walk_none_extends(0, s.take(b), a + 1);
        } else if b < a {
            assert(s.take(a).take(b + 1) =~= s.take(b + 1));
            self.lemma_walk_none_extends(0, s.take(a), b + 1);
        }
    }

    /// The stored strings at and below the node that `prefix` leads to when
    /// followed greedily from the root (see `match_longest_common_prefix`);
    /// nothing when not even the first character can be followed.
    pub fn match_prefix(&self, prefix: &str) -> (r: Vec<String>)
        requires
            self.wf(),
        ensures
            self.is_greedy_len(prefix@, 0) ==> r@.len() == 0,
            forall|k: int|
                #![trigger self.is_greedy_len(prefix@, k)]
                k > 0 && self.is_greedy_len(prefix@, k) ==> forall|w: Seq<char>|
                    #[trigger] views(r@).contains(w) <==> (self.below(
                        self.walk(0, prefix@.take(k))->0,
                        w,
                    ) || (w == prefix@.take(k) && self.contains(w))),
            forall|k: int|
                #![trigger self.is_greedy_len(prefix@, k)]
                k > 0 && self.is_greedy_len(prefix@, k) && self.contains(prefix@.take(k)) ==> r@.len() > 0
                    && r@.last()@ == prefix@.take(k),
            views(r@).no_duplicates(),
    {
        let len = prefix.unicode_len();
        if len == 0 {
            proof {
                assert forall|k: int| k > 0 implies !#[trigger] self.is_greedy_len(prefix@, k) by {}
            }
            return Vec::new();
        }
        match self.longest_prefix(prefix) {
            None => {
                proof {
                    assert forall|k: int| k > 0 implies !#[trigger] self.is_greedy_len(prefix@, k) by {
                        if self.is_greedy_len(prefix@, k) {
                            self.lemma_greedy_unique(prefix@, 0, k);
                        }
                    }
                }
                Vec::new()
            },
            Some((node, matched)) => {
                let ghost l = matched@.len() as int;
                let mut result = self.find_complete_words(node);
                let ghost pre = views(result@);
                match &self.nodes[node].word {
                    Some(w) => {
                        result.push(w.clone());
                        proof {
                            assert(views(result@) =~= pre.push(w@));
                            lemma_contains_push(pre, w@);
                            assert(!self.below(node, w@));
                            assert(pre + seq![w@] =~= pre.push(w@));
                            lemma_no_dup_concat(pre, seq![w@]);
                        }
                    },
                    None => {
                        assert(views(result@) =~= pre);
                    },
                }
                proof {
                    assert(self.paths@[node as int] == matched@);
                    assert forall|k: int|
                        #![trigger self.is_greedy_len(prefix@, k)]
                        k > 0 && self.is_greedy_len(prefix@, k) implies forall|w: Seq<char>|
                            #[trigger] views(result@).contains(w) <==> (self.below(
                                self.walk(0, prefix@.take(k))->0,
                                w,
                            ) || (w == prefix@.take(k) && self.contains(w))) by {
                        self.lemma_greedy_unique(prefix@, l, k);
                    }
                    assert forall|k: int|
                        #![trigger self.is_greedy_len(prefix@, k)]
                        k > 0 && self.is_greedy_len(prefix@, k) && self.contains(prefix@.take(k)) implies result@.len()
                            > 0 && result@.last()@ == prefix@.take(k) by {
                        self.lemma_greedy_unique(prefix@, l, k);
                        assert(self.nodes@[node as int].word is Some);
                        assert(self.nodes@[node as int].word->0@ == self.paths@[node as int]);
                    }
                    assert(!self.is_greedy_len(prefix@, 0)) by {
                        if self.is_greedy_len(prefix@, 0) {
                            self.lemma_greedy_unique(prefix@, 0, l);
                        }
                    }
                }
                result
            },
        }
    }

    /// Once a walk fails, walking further along the same string fails too.
    pub proof fn lemma_walk_none_extends(&self, start: usize, s: Seq<char>, k: int)
        requires
            0 <= k <= s.len(),
            self.walk(start, s.take(k)) is None,
        ensures
            self.walk(start, s) is None,
        decreases s.len() - k,
    {
        if k < s.len() {
            assert(s.take(k + 1).drop_last() =~= s.take(k));
            self.lemma_walk_none_extends(start, s, k + 1);
        } else {
            assert(s.take(k) =~= s);
        }
    }
}

} // verus!
