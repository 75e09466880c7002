use vstd::prelude::*;
use vstd::string::*;

use crate::patterns::{block_for, Block, Patterns};
use crate::trie::{lemma_contains_concat, lemma_contains_push, views, Trie};
use crate::utils::{fix_spec, fix_string, lemma_fix_twice_stable, MatchableNode};
use crate::words::Words;

verus! {

/// The suggestion engine: a rule table and a dictionary.
pub struct Suggest {
    pub patterns: Patterns,
    pub words: Words,
}

pub open spec fn positions<'a>(v: Seq<MatchableNode<'a>>) -> Seq<usize> {
    v.map_values(|c: MatchableNode<'a>| c.pos)
}

/// Every cursor of `v` is a well-formed cursor into `d`.
pub open spec fn on_trie<'a>(d: &Trie, v: Seq<MatchableNode<'a>>) -> bool {
    forall|i: int| 0 <= i < v.len() ==> (#[trigger] v[i]).wf() && v[i].trie == d
}

/// The nodes reached from each of `nodes` in turn by following `p`; a node
/// from which `p` cannot be followed contributes nothing.
pub open spec fn descend(d: &Trie, nodes: Seq<usize>, p: Seq<char>) -> Seq<usize>
    decreases nodes.len(),
{
    if nodes.len() == 0 {
        Seq::empty()
    } else {
        let rest = descend(d, nodes.drop_last(), p);
        match d.walk(nodes.last(), p) {
            Some(m) => rest.push(m),
            None => rest,
        }
    }
}

/// `descend` along each candidate in turn.
pub open spec fn advance(d: &Trie, nodes: Seq<usize>, cands: Seq<Seq<char>>) -> Seq<usize>
    decreases cands.len(),
{
    if cands.len() == 0 {
        Seq::empty()
    } else {
        advance(d, nodes, cands.drop_last()) + descend(d, nodes, cands.last())
    }
}

/// For each node in turn, the nodes reached from it along each common
/// fragment.
pub open spec fn extras(d: &Trie, nodes: Seq<usize>, common: Seq<Seq<char>>) -> Seq<usize>
    decreases nodes.len(),
{
    if nodes.len() == 0 {
        Seq::empty()
    } else {
        extras(d, nodes.drop_last(), common) + advance(d, seq![nodes.last()], common)
    }
}

/// The cursors after one fragment with candidates `cands`: the first
/// fragment starts from the root; an optional one keeps the cursors that it
/// did not advance; then every cursor is also tried along each common
/// fragment.
pub open spec fn step_with(
    d: &Trie,
    nodes: Seq<usize>,
    cands: Seq<Seq<char>>,
    optional: bool,
    first: bool,
    common: Seq<Seq<char>>,
) -> Seq<usize> {
    let moved = if first {
        advance(d, seq![0usize], cands)
    } else if optional {
        nodes + advance(d, nodes, cands)
    } else {
        advance(d, nodes, cands)
    };
    moved + extras(d, moved, common)
}

/// Length of the longest non-empty prefix of `r`, of at most `k`
/// characters, that `t` stores; 0 when there is none.
pub open spec fn key_len(t: &Trie, r: Seq<char>, k: int) -> int
    decreases k,
{
    if k <= 0 {
        0
    } else if t.contains(r.take(k)) {
        k
    } else {
        key_len(t, r, k - 1)
    }
}

/// The words stored at the nodes of `nodes`.
pub open spec fn words_at(d: &Trie, nodes: Seq<usize>) -> Set<Seq<char>> {
    Set::new(
        |w: Seq<char>|
            exists|i: int|
                0 <= i < nodes.len() && d.nodes@[nodes[i] as int].word is Some
                    && d.nodes@[nodes[i] as int].word->0@ == w,
    )
}

proof fn lemma_key_len_bounds(t: &Trie, r: Seq<char>, k: int)
    ensures
        0 <= key_len(t, r, k) <= if k < 0 { 0 } else { k },
        key_len(t, r, k) > 0 ==> t.contains(r.take(key_len(t, r, k))),
    decreases k,
{
    if k > 0 {
        lemma_key_len_bounds(t, r, k - 1);
    }
}

proof fn lemma_key_len_is(t: &Trie, r: Seq<char>, k: int, m: int)
    requires
        0 <= k <= m,
        k > 0 ==> t.contains(r.take(k)),
        forall|j: int| k < j <= m ==> !t.contains(#[trigger] r.take(j)),
        k == 0 ==> forall|j: int| 1 <= j <= m ==> !t.contains(#[trigger] r.take(j)),
    ensures
        key_len(t, r, m) == k,
    decreases m,
{
    if m > k {
        lemma_key_len_is(t, r, k, m - 1);
    }
}

/// The first fragment of `r`: its longest prefix that is a rule key, with
/// what follows it; when no prefix is a key, no fragment, and the first
/// character is dropped.
fn next_fragment(t: &Trie, r: &str) -> (res: (Option<String>, String))
    requires
        t.wf(),
        r@.len() > 0,
    ensures
        key_len(t, r@, r@.len() as int) > 0 ==> res.0 is Some && res.0->0@ == r@.take(
            key_len(t, r@, r@.len() as int),
        ) && res.1@ == r@.skip(key_len(t, r@, r@.len() as int)),
        key_len(t, r@, r@.len() as int) == 0 ==> res.0 is None && res.1@ == r@.skip(1),
{
    let len = r.unicode_len();
    let (matched, rest, complete) = t.match_longest_common_prefix(r);
    let ghost l = matched@.len() as int;
    proof {
        assert forall|j: int| l < j <= len implies !t.contains(#[trigger] r@.take(j)) by {
            assert(r@.take(j).take(l + 1) =~= r@.take(l + 1));
            t.lemma_walk_none_extends(0, r@.take(j), l + 1);
        }
    }
    if complete {
        proof {
            lemma_key_len_is(t, r@, l, len as int);
        }
        return (Some(matched), rest);
    }
    let mut i: usize = len;
    while i > 1
        invariant
            t.wf(),
            len == r@.len(),
            1 <= i <= len,
            t.is_greedy_len(r@, l),
            !(l > 0 && t.contains(r@.take(l))),
            forall|j: int| i <= j <= len ==> !t.contains(#[trigger] r@.take(j)),
        decreases i,
    {
        i = i - 1;
        let slice = r.substring_char(0, i);
        let (m2, _rest2, c2) = t.match_longest_common_prefix(slice);
        let ghost g = m2@.len() as int;
        proof {
            assert(slice@ =~= r@.take(i as int));
            assert(slice@.take(g) =~= r@.take(g));
            if g < i {
                assert(slice@.take(g + 1) =~= r@.take(g + 1));
                assert(r@.take(i as int).take(g + 1) =~= r@.take(g + 1));
                t.lemma_walk_none_extends(0, r@.take(i as int), g + 1);
                if l < g {
                    assert(r@.take(g).take(l + 1) =~= r@.take(l + 1));
                    t.lemma_walk_none_extends(0, r@.take(g), l + 1);
                } else if g < l {
                    assert(r@.take(l).take(g + 1) =~= r@.take(g + 1));
                    t.lemma_walk_none_extends(0, r@.take(l), g + 1);
                }
            } else {
                assert(slice@.take(g) =~= slice@);
            }
        }
        if c2 {
            let rest2 = r.substring_char(i, len).to_owned();
            proof {
                assert(r@.subrange(i as int, len as int) =~= r@.skip(i as int));
                lemma_key_len_is(t, r@, i as int, len as int);
            }
            return (Some(m2), rest2);
        }
    }
    proof {
        lemma_key_len_is(t, r@, 0, len as int);
        assert(r@.subrange(1, len as int) =~= r@.skip(1));
    }
    (None, r.substring_char(1, len).to_owned())
}

/// Appends to `out` the cursors reached from each of `nodes` along `p`.
fn descend_into<'a>(
    d: &'a Trie,
    nodes: &Vec<MatchableNode<'a>>,
    p: &str,
    out: &mut Vec<MatchableNode<'a>>,
)
    requires
        d.wf(),
        on_trie(d, nodes@),
        on_trie(d, old(out)@),
    ensures
        on_trie(d, final(out)@),
        positions(final(out)@) == positions(old(out)@) + descend(d, positions(nodes@), p@),
{
    let mut i: usize = 0;
    assert(positions(nodes@.take(0)) =~= Seq::<usize>::empty());
    assert(positions(old(out)@) + Seq::<usize>::empty() =~= positions(old(out)@));
    while i < nodes.len()
        invariant
            d.wf(),
            on_trie(d, nodes@),
            on_trie(d, out@),
            i <= nodes@.len(),
            positions(out@) == positions(old(out)@) + descend(
                d,
                positions(nodes@.take(i as int)),
                p@,
            ),
        decreases nodes@.len() - i,
    {
        let ghost pre = out@;
        let ghost ps = positions(nodes@.take(i + 1));
        assert(ps.drop_last() =~= positions(nodes@.take(i as int)));
        assert(ps.last() == nodes@[i as int].pos);
        match nodes[i].get_matching_node(p) {
            Some(m) => {
                out.push(m);
                assert(positions(out@) =~= positions(pre).push(m.pos));
            },
            None => {},
        }
        i = i + 1;
    }
    assert(nodes@.take(nodes@.len() as int) =~= nodes@);
}

/// Appends to `out`, for each candidate in turn, the cursors reached from
/// each of `nodes` along it.
fn advance_into<'a>(
    d: &'a Trie,
    nodes: &Vec<MatchableNode<'a>>,
    cands: &Vec<String>,
    out: &mut Vec<MatchableNode<'a>>,
)
    requires
        d.wf(),
        on_trie(d, nodes@),
        on_trie(d, old(out)@),
    ensures
        on_trie(d, final(out)@),
        positions(final(out)@) == positions(old(out)@) + advance(
            d,
            positions(nodes@),
            views(cands@),
        ),
{
    let mut j: usize = 0;
    assert(views(cands@).take(0) =~= Seq::<Seq<char>>::empty());
    assert(positions(old(out)@) + Seq::<usize>::empty() =~= positions(old(out)@));
    while j < cands.len()
        invariant
            d.wf(),
            on_trie(d, nodes@),
            on_trie(d, out@),
            j <= cands@.len(),
            positions(out@) == positions(old(out)@) + advance(
                d,
                positions(nodes@),
                views(cands@).take(j as int),
            ),
        decreases cands@.len() - j,
    {
        let ghost pre = positions(out@);
        let ghost cs = views(cands@).take(j + 1);
        assert(cs.drop_last() =~= views(cands@).take(j as int));
        assert(cs.last() == cands@[j as int]@);
        descend_into(d, nodes, cands[j].as_str(), out);
        assert(positions(out@) =~= positions(old(out)@) + advance(d, positions(nodes@), cs));
        j = j + 1;
    }
    assert(views(cands@).take(cands@.len() as int) =~= views(cands@));
}

/// Appends to `out`, for each of `nodes` in turn, the cursors reached from
/// it along each common fragment.
fn extras_into<'a>(
    d: &'a Trie,
    nodes: &Vec<MatchableNode<'a>>,
    common: &Vec<String>,
    out: &mut Vec<MatchableNode<'a>>,
)
    requires
        d.wf(),
        on_trie(d, nodes@),
        on_trie(d, old(out)@),
    ensures
        on_trie(d, final(out)@),
        positions(final(out)@) == positions(old(out)@) + extras(
            d,
            positions(nodes@),
            views(common@),
        ),
{
    let mut i: usize = 0;
    assert(positions(nodes@.take(0)) =~= Seq::<usize>::empty());
    assert(positions(old(out)@) + Seq::<usize>::empty() =~= positions(old(out)@));
    while i < nodes.len()
        invariant
            d.wf(),
            on_trie(d, nodes@),
            on_trie(d, out@),
            i <= nodes@.len(),
            positions(out@) == positions(old(out)@) + extras(
                d,
                positions(nodes@.take(i as int)),
                views(common@),
            ),
        decreases nodes@.len() - i,
    {
        let ghost ps = positions(nodes@.take(i + 1));
        assert(ps.drop_last() =~= positions(nodes@.take(i as int)));
        assert(ps.last() == nodes@[i as int].pos);
        let one = vec![nodes[i]];
        assert(positions(one@) =~= seq![nodes@[i as int].pos]);
        advance_into(d, &one, common, out);
        assert(positions(out@) =~= positions(old(out)@) + extras(d, ps, views(common@)));
        i = i + 1;
    }
    assert(nodes@.take(nodes@.len() as int) =~= nodes@);
}

/// Whether `v` holds a string with the characters of `s`.
fn holds(v: &Vec<String>, s: &String) -> (r: bool)
    ensures
        r == views(v@).contains(s@),
{
    let mut i: usize = 0;
    while i < v.len()
        invariant
            i <= v@.len(),
            forall|j: int| 0 <= j < i ==> v@[j]@ != s@,
        decreases v@.len() - i,
    {
        if v[i] == *s {
            assert(views(v@)[i as int] == s@);
            return true;
        }
        i = i + 1;
    }
    assert forall|j: int| 0 <= j < views(v@).len() implies views(v@)[j] != s@ by {
        assert(views(v@)[j] == v@[j]@);
    }
    false
}

/// The words stored at the cursors of `nodes`, each once.
fn collect_words<'a>(d: &'a Trie, nodes: &Vec<MatchableNode<'a>>) -> (r: Vec<String>)
    requires
        d.wf(),
        on_trie(d, nodes@),
    ensures
        views(r@).to_set() == words_at(d, positions(nodes@)),
        views(r@).no_duplicates(),
{
    let mut r: Vec<String> = Vec::new();
    let mut i: usize = 0;
    while i < nodes.len()
        invariant
            d.wf(),
            on_trie(d, nodes@),
            i <= nodes@.len(),
            views(r@).no_duplicates(),
            forall|w: Seq<char>|
                #[trigger] views(r@).contains(w) <==> words_at(
                    d,
                    positions(nodes@.take(i as int)),
                ).contains(w),
        decreases nodes@.len() - i,
    {
        let ghost pre = views(r@);
        let ghost ps = positions(nodes@.take(i + 1));
        let ghost qs = positions(nodes@.take(i as int));
        assert(ps.drop_last() =~= qs);
        assert(ps.last() == nodes@[i as int].pos);
        let c = nodes[i];
        assert(c == nodes@[i as int]);
        assert(c.wf() && c.trie == d);
        let ghost wd = d.nodes@[c.pos as int].word;
        match c.get_word() {
            Some(w) => {
                let ghost wv = w@;
                if !holds(&r, &w) {
                    r.push(w);
                    assert(views(r@) =~= pre.push(wv));
                    assert forall|x: Seq<char>|
                        #[trigger] views(r@).contains(x) <==> (pre.contains(x) || x == wv) by {
                        if views(r@).contains(x) {
                            let k = choose|k: int| 0 <= k < views(r@).len() && views(r@)[k] == x;
                            if k < pre.len() {
                                assert(pre[k] == views(r@)[k]);
                            }
                        }
                        if pre.contains(x) {
                            let k = choose|k: int| 0 <= k < pre.len() && pre[k] == x;
                            assert(views(r@)[k] == pre[k]);
                        }
                        if x == wv {
                            assert(views(r@)[pre.len() as int] == x);
                        }
                    }
                    assert(views(r@).no_duplicates()) by {
                        assert forall|a: int, b: int|
                            0 <= a < views(r@).len() && 0 <= b < views(r@).len() && a != b implies views(r@)[a]
                                != views(r@)[b] by {
                            if a < pre.len() && b < pre.len() {
                                assert(views(r@)[a] == pre[a] && views(r@)[b] == pre[b]);
                            } else if a < pre.len() {
                                assert(views(r@)[a] == pre[a]);
                            } else if b < pre.len() {
                                assert(views(r@)[b] == pre[b]);
                            }
                        }
                    }
                }
            },
            None => {},
        }
        assert(forall|w: Seq<char>|
            #[trigger] views(r@).contains(w) <==> (pre.contains(w) || (wd is Some && wd->0@ == w)));
        assert forall|w: Seq<char>|
            #[trigger] words_at(d, ps).contains(w) <==> (words_at(d, qs).contains(w) || (wd is Some
                && wd->0@ == w)) by {
            if words_at(d, ps).contains(w) {
                let k = choose|k: int|
                    0 <= k < ps.len() && d.nodes@[ps[k] as int].word is Some
                        && d.nodes@[ps[k] as int].word->0@ == w;
                if k < qs.len() {
                    assert(qs[k] == ps[k]);
                    assert(words_at(d, qs).contains(w));
                }
            }
            if words_at(d, qs).contains(w) {
                let k = choose|k: int|
                    0 <= k < qs.len() && d.nodes@[qs[k] as int].word is Some
                        && d.nodes@[qs[k] as int].word->0@ == w;
                assert(qs[k] == ps[k]);
            }
            if wd is Some && wd->0@ == w {
                assert(ps[i as int] == c.pos);
            }
        }
        i = i + 1;
    }
    assert(nodes@.take(nodes@.len() as int) =~= nodes@);
    assert(views(r@).to_set() =~= words_at(d, positions(nodes@)));
    r
}

/// Normalizing the input beforehand, once or twice, gives the same
/// suggestions.
pub proof fn lemma_suggest_normalized(sg: &Suggest, x: Seq<char>)
    ensures
        sg.suggestions(fix_spec(x)) == sg.suggestions(fix_spec(fix_spec(x))),
{
    lemma_fix_twice_stable(x);
}

/// Two calls of `suggest` on the same input, with the same tables, give the
/// same set of words.
pub proof fn lemma_suggest_deterministic(
    sg: &Suggest,
    input: Seq<char>,
    r1: Seq<Seq<char>>,
    r2: Seq<Seq<char>>,
)
    requires
        r1.to_set() == sg.suggestions(input),
        r2.to_set() == sg.suggestions(input),
    ensures
        r1.to_set() == r2.to_set(),
{
}

/// Every element of `s` occurs in `t`.
spec fn covers(t: Seq<usize>, s: Seq<usize>) -> bool {
    forall|i: int| 0 <= i < s.len() ==> t.contains(#[trigger] s[i])
}

proof fn lemma_descend_mem(d: &Trie, s: Seq<usize>, p: Seq<char>)
    ensures
        forall|x: usize|
            #[trigger] descend(d, s, p).contains(x) <==> exists|i: int|
                0 <= i < s.len() && d.walk(s[i], p) == Some(x),
    decreases s.len(),
{
    if s.len() > 0 {
        let s1 = s.drop_last();
        lemma_descend_mem(d, s1, p);
        let rest = descend(d, s1, p);
        if let Some(m) = d.walk(s.last(), p) {
            lemma_contains_push(rest, m);
        }
        assert forall|x: usize|
            #[trigger] descend(d, s, p).contains(x) <==> exists|i: int|
                0 <= i < s.len() && d.walk(s[i], p) == Some(x) by {
            if exists|i: int| 0 <= i < s.len() && d.walk(s[i], p) == Some(x) {
                let i = choose|i: int| 0 <= i < s.len() && d.walk(s[i], p) == Some(x);
                if i < s1.len() {
                    assert(s1[i] == s[i]);
                }
            }
            if exists|i: int| 0 <= i < s1.len() && d.walk(s1[i], p) == Some(x) {
                let i = choose|i: int| 0 <= i < s1.len() && d.walk(s1[i], p) == Some(x);
                assert(s[i] == s1[i]);
            }
        }
    }
}

proof fn lemma_advance_mem(d: &Trie, s: Seq<usize>, c: Seq<Seq<char>>)
    ensures
        forall|x: usize|
            #[trigger] advance(d, s, c).contains(x) <==> exists|j: int|
                0 <= j < c.len() && descend(d, s, c[j]).contains(x),
    decreases c.len(),
{
    if c.len() > 0 {
        let c1 = c.drop_last();
        lemma_advance_mem(d, s, c1);
        lemma_contains_concat(advance(d, s, c1), descend(d, s, c.last()));
        assert forall|x: usize|
            #[trigger] advance(d, s, c).contains(x) <==> exists|j: int|
                0 <= j < c.len() && descend(d, s, c[j]).contains(x) by {
            if exists|j: int| 0 <= j < c.len() && descend(d, s, c[j]).contains(x) {
                let j = choose|j: int| 0 <= j < c.len() && descend(d, s, c[j]).contains(x);
                if j < c1.len() {
                    assert(c1[j] == c[j]);
                }
            }
            if exists|j: int| 0 <= j < c1.len() && descend(d, s, c1[j]).contains(x) {
                let j = choose|j: int| 0 <= j < c1.len() && descend(d, s, c1[j]).contains(x);
                assert(c[j] == c1[j]);
            }
        }
    }
}

proof fn lemma_extras_mem(d: &Trie, s: Seq<usize>, c: Seq<Seq<char>>)
    ensures
        forall|x: usize|
            #[trigger] extras(d, s, c).contains(x) <==> exists|i: int|
                0 <= i < s.len() && advance(d, seq![s[i]], c).contains(x),
    decreases s.len(),
{
    if s.len() > 0 {
        let s1 = s.drop_last();
        lemma_extras_mem(d, s1, c);
        lemma_contains_concat(extras(d, s1, c), advance(d, seq![s.last()], c));
        assert forall|x: usize|
            #[trigger] extras(d, s, c).contains(x) <==> exists|i: int|
                0 <= i < s.len() && advance(d, seq![s[i]], c).contains(x) by {
            if exists|i: int| 0 <= i < s.len() && advance(d, seq![s[i]], c).contains(x) {
                let i = choose|i: int| 0 <= i < s.len() && advance(d, seq![s[i]], c).contains(x);
                if i < s1.len() {
                    assert(s1[i] == s[i]);
                }
            }
            if exists|i: int| 0 <= i < s1.len() && advance(d, seq![s1[i]], c).contains(x) {
                let i = choose|i: int| 0 <= i < s1.len() && advance(d, seq![s1[i]], c).contains(x);
                assert(s[i] == s1[i]);
            }
        }
    }
}

proof fn lemma_advance_mono(d: &Trie, s: Seq<usize>, t: Seq<usize>, c: Seq<Seq<char>>)
    requires
        covers(t, s),
    ensures
        covers(advance(d, t, c), advance(d, s, c)),
{
    lemma_advance_mem(d, s, c);
    lemma_advance_mem(d, t, c);
    assert forall|i: int| 0 <= i < advance(d, s, c).len() implies advance(d, t, c).contains(
        #[trigger] advance(d, s, c)[i],
    ) by {
        let x = advance(d, s, c)[i];
        assert(advance(d, s, c).contains(x));
        let j = choose|j: int| 0 <= j < c.len() && descend(d, s, c[j]).contains(x);
        lemma_descend_mem(d, s, c[j]);
        lemma_descend_mem(d, t, c[j]);
        let k = choose|k: int| 0 <= k < s.len() && d.walk(s[k], c[j]) == Some(x);
        assert(t.contains(s[k]));
        let k2 = choose|k2: int| 0 <= k2 < t.len() && t[k2] == s[k];
        assert(descend(d, t, c[j]).contains(x));
    }
}

proof fn lemma_extras_mono(d: &Trie, s: Seq<usize>, t: Seq<usize>, c: Seq<Seq<char>>)
    requires
        covers(t, s),
    ensures
        covers(extras(d, t, c), extras(d, s, c)),
{
    lemma_extras_mem(d, s, c);
    lemma_extras_mem(d, t, c);
    assert forall|i: int| 0 <= i < extras(d, s, c).len() implies extras(d, t, c).contains(
        #[trigger] extras(d, s, c)[i],
    ) by {
        let x = extras(d, s, c)[i];
        assert(extras(d, s, c).contains(x));
        let k = choose|k: int| 0 <= k < s.len() && advance(d, seq![s[k]], c).contains(x);
        assert(t.contains(s[k]));
        let k2 = choose|k2: int| 0 <= k2 < t.len() && t[k2] == s[k];
        assert(seq![t[k2]] == seq![s[k]]);
    }
}

proof fn lemma_concat_mono(s1: Seq<usize>, s2: Seq<usize>, t1: Seq<usize>, t2: Seq<usize>)
    requires
        covers(t1, s1),
        covers(t2, s2),
    ensures
        covers(t1 + t2, s1 + s2),
{
    lemma_contains_concat(s1, s2);
    lemma_contains_concat(t1, t2);
    assert forall|i: int| 0 <= i < (s1 + s2).len() implies (t1 + t2).contains(#[trigger] (s1 + s2)[i]) by {
        if i < s1.len() {
            assert((s1 + s2)[i] == s1[i]);
        } else {
            assert((s1 + s2)[i] == s2[i - s1.len()]);
        }
    }
}

proof fn lemma_step_mono(
    d: &Trie,
    s: Seq<usize>,
    t: Seq<usize>,
    cands: Seq<Seq<char>>,
    optional: bool,
    common: Seq<Seq<char>>,
)
    requires
        covers(t, s),
    ensures
        covers(
            step_with(d, t, cands, optional, false, common),
            step_with(d, s, cands, optional, false, common),
        ),
{
    lemma_advance_mono(d, s, t, cands);
    let ms = if optional {
        s + advance(d, s, cands)
    } else {
        advance(d, s, cands)
    };
    let mt = if optional {
        t + advance(d, t, cands)
    } else {
        advance(d, t, cands)
    };
    if optional {
        lemma_concat_mono(s, advance(d, s, cands), t, advance(d, t, cands));
    }
    lemma_extras_mono(d, ms, mt, common);
    lemma_concat_mono(ms, extras(d, ms, common), mt, extras(d, mt, common));
}

proof fn lemma_run_mono(sg: &Suggest, s: Seq<usize>, t: Seq<usize>, r: Seq<char>)
    requires
        covers(t, s),
    ensures
        covers(sg.run(t, r, false), sg.run(s, r, false)),
    decreases r.len(),
{
    if r.len() > 0 {
        let k = key_len(&sg.patterns.trie, r, r.len() as int);
        if 0 < k <= r.len() {
            let b = block_for(sg.patterns.dict@, r.take(k))->0;
            lemma_step_mono(
                &sg.words.trie,
                s,
                t,
                views(b.transliterate@),
                b.entire_block_optional is Some,
                views(sg.patterns.common@),
            );
            lemma_run_mono(sg, sg.step(s, r.take(k), false), sg.step(t, r.take(k), false), r.skip(k));
        } else {
            lemma_run_mono(sg, s, t, r.skip(1));
        }
    }
}

proof fn lemma_words_at_mono(d: &Trie, s: Seq<usize>, t: Seq<usize>)
    requires
        covers(t, s),
    ensures
        words_at(d, s).subset_of(words_at(d, t)),
{
    assert forall|w: Seq<char>| words_at(d, s).contains(w) implies words_at(d, t).contains(w) by {
        let i = choose|i: int|
            0 <= i < s.len() && d.nodes@[s[i] as int].word is Some && d.nodes@[s[i] as int].word->0@
                == w;
        assert(t.contains(s[i]));
        let j = choose|j: int| 0 <= j < t.len() && t[j] == s[i];
    }
}

/// An optional fragment loses no path: whatever the rest of the input
/// suggests with the fragment skipped outright, it still suggests after the
/// fragment has been taken as optional.
pub proof fn lemma_optional_keeps_skipped(
    sg: &Suggest,
    nodes: Seq<usize>,
    key: Seq<char>,
    rest: Seq<char>,
)
    requires
        block_for(sg.patterns.dict@, key) is Some,
        block_for(sg.patterns.dict@, key)->0.entire_block_optional is Some,
    ensures
        words_at(&sg.words.trie, sg.run(nodes, rest, false)).subset_of(
            words_at(&sg.words.trie, sg.run(sg.step(nodes, key, false), rest, false)),
        ),
{
    let d = &sg.words.trie;
    let b = block_for(sg.patterns.dict@, key)->0;
    let moved = nodes + advance(d, nodes, views(b.transliterate@));
    let after = sg.step(nodes, key, false);
    assert(after == moved + extras(d, moved, views(sg.patterns.common@)));
    assert(covers(after, nodes)) by {
        assert forall|i: int| 0 <= i < nodes.len() implies after.contains(#[trigger] nodes[i]) by {
            assert(after[i] == nodes[i]);
        }
    }
    lemma_run_mono(sg, nodes, after, rest);
    lemma_words_at_mono(d, sg.run(nodes, rest, false), sg.run(after, rest, false));
}

impl Suggest {
    pub open spec fn wf(&self) -> bool {
        &&& self.patterns.wf()
        &&& self.words.trie.wf()
    }

    /// The cursors after the fragment `key`.
    pub open spec fn step(&self, nodes: Seq<usize>, key: Seq<char>, first: bool) -> Seq<usize> {
        let b = block_for(self.patterns.dict@, key)->0;
        step_with(
            &self.words.trie,
            nodes,
            views(b.transliterate@),
            b.entire_block_optional is Some,
            first,
            views(self.patterns.common@),
        )
    }

    /// The cursors after the whole of `r`, cut into fragments left to right.
    pub open spec fn run(&self, nodes: Seq<usize>, r: Seq<char>, first: bool) -> Seq<usize>
        decreases r.len(),
    {
        if r.len() == 0 {
            nodes
        } else {
            let k = key_len(&self.patterns.trie, r, r.len() as int);
            if 0 < k <= r.len() {
                self.run(self.step(nodes, r.take(k), first), r.skip(k), false)
            } else {
                self.run(nodes, r.skip(1), first)
            }
        }
    }

    /// The words suggested for the raw input `input`.
    pub open spec fn suggestions(&self, input: Seq<char>) -> Set<Seq<char>> {
        words_at(&self.words.trie, self.run(Seq::empty(), fix_spec(input), true))
    }

    pub fn new(patterns: Patterns, words: Words) -> (r: Suggest)
        ensures
            r.patterns == patterns,
            r.words == words,
    {
        Suggest { patterns, words }
    }

    fn step_cursors<'a>(&'a self, cursors: Vec<MatchableNode<'a>>, block: &Block, first: bool) -> (r: Vec<
        MatchableNode<'a>,
    >)
        requires
            self.wf(),
            on_trie(&self.words.trie, cursors@),
        ensures
            on_trie(&self.words.trie, r@),
            positions(r@) == step_with(
                &self.words.trie,
                positions(cursors@),
                views(block.transliterate@),
                block.entire_block_optional is Some,
                first,
                views(self.patterns.common@),
            ),
    {
        let d = &self.words.trie;
        let mut adv: Vec<MatchableNode<'a>> = Vec::new();
        assert(positions(adv@) =~= Seq::<usize>::empty());
        if first {
            let root = vec![MatchableNode::from(d)];
            assert(positions(root@) =~= seq![0usize]);
            advance_into(d, &root, &block.transliterate, &mut adv);
        } else {
            advance_into(d, &cursors, &block.transliterate, &mut adv);
        }
        assert(positions(adv@) =~= Seq::<usize>::empty() + positions(adv@));
        let mut next: Vec<MatchableNode<'a>>;
        if !first && block.entire_block_optional.is_some() {
            let ghost c0 = cursors@;
            let ghost a0 = adv@;
            next = cursors;
            next.append(&mut adv);
            assert(positions(next@) =~= positions(c0) + positions(a0));
        } else {
            next = adv;
        }
        let ghost n0 = next@;
        let mut more: Vec<MatchableNode<'a>> = Vec::new();
        assert(positions(more@) =~= Seq::<usize>::empty());
        extras_into(d, &next, &self.patterns.common, &mut more);
        let ghost m0 = more@;
        next.append(&mut more);
        assert(positions(next@) =~= positions(n0) + (Seq::<usize>::empty() + positions(m0)));
        assert(positions(next@) =~= positions(n0) + positions(m0));
        next
    }

    /// The dictionary words that the romanized `input` may stand for, each
    /// once, in no particular order. The input is normalized first, then cut
    /// left to right into rule keys, each the longest key that the rest
    /// starts with (a character that starts none is dropped); each key's
    /// candidates are followed through the dictionary from every cursor.
    pub fn suggest(&self, input: &str) -> (r: Vec<String>)
        requires
            self.wf(),
        ensures
            views(r@).to_set() == self.suggestions(input@),
            views(r@).no_duplicates(),
    {
        let x = fix_string(input);
        let d = &self.words.trie;
        let mut cursors: Vec<MatchableNode<'_>> = Vec::new();
        let mut remaining: String = x;
        let mut first = true;
        assert(positions(cursors@) =~= Seq::<usize>::empty());
        while remaining.as_str().unicode_len() > 0
            invariant
                self.wf(),
                d == &self.words.trie,
                on_trie(d, cursors@),
                self.run(positions(cursors@), remaining@, first) == self.run(
                    Seq::empty(),
                    fix_spec(input@),
                    true,
                ),
            decreases remaining@.len(),
        {
            let (frag, rest) = next_fragment(&self.patterns.trie, remaining.as_str());
            proof {
                lemma_key_len_bounds(&self.patterns.trie, remaining@, remaining@.len() as int);
            }
            match frag {
                None => {},
                Some(key) => {
                    let block = self.patterns.block(key.as_str());
                    let block = block.unwrap();
                    cursors = self.step_cursors(cursors, block, first);
                    first = false;
                },
            }
            remaining = rest;
        }
        collect_words(d, &cursors)
    }
}

} // verus!
