use vstd::prelude::*;
use vstd::string::*;

use crate::trie::Trie;

verus! {

pub open spec fn is_letter(c: char) -> bool {
    ('a' <= c && c <= 'z') || ('A' <= c && c <= 'Z')
}

/// ASCII lower case of `c`; other characters stay as they are.
pub open spec fn lower(c: char) -> char {
    if 'A' <= c && c <= 'Z' {
        ((c as u32) + 32) as char
    } else {
        c
    }
}

/// What normalizing makes of the character at position `i` of `s`: an `o`
/// at the start or after a character that is no ASCII letter becomes `O`,
/// other ASCII letters are lowered, everything else is dropped.
pub open spec fn fixed_char(s: Seq<char>, i: int) -> Seq<char> {
    let c = s[i];
    if (c == 'o' || c == 'O') && (i == 0 || !is_letter(s[i - 1])) {
        seq!['O']
    } else if is_letter(c) {
        seq![lower(c)]
    } else {
        Seq::empty()
    }
}

pub open spec fn fix_spec(s: Seq<char>) -> Seq<char>
    decreases s.len(),
{
    if s.len() == 0 {
        Seq::empty()
    } else {
        fix_spec(s.drop_last()) + fixed_char(s, s.len() - 1)
    }
}

pub open spec fn all_letters(s: Seq<char>) -> bool {
    forall|i: int| 0 <= i < s.len() ==> is_letter(#[trigger] s[i])
}

/// Relies on String::push: appends one character.
#[verifier::external_body]
fn push_char(s: &mut String, c: char)
    ensures
        final(s)@ == old(s)@.push(c),
{
    s.push(c)
}

/// ASCII lower case of `c`.
fn ascii_lowercase(c: char) -> (r: char)
    ensures
        r == lower(c),
{
    if 'A' <= c && c <= 'Z' {
        ((c as u32 + 32) as u8) as char
    } else {
        c
    }
}

fn letter(c: char) -> (r: bool)
    ensures
        r == is_letter(c),
{
    ('a' <= c && c <= 'z') || ('A' <= c && c <= 'Z')
}

/// Normalizes romanized input: keeps ASCII letters only, lowered, except
/// that an `o` or `O` at the start or after a character that is no ASCII
/// letter becomes `O`. Surrounding whitespace is dropped like any other
/// character that is no letter, so it never changes the result.
pub fn fix_string(s: &str) -> (r: String)
    ensures
        r@ == fix_spec(s@),
{
    let len = s.unicode_len();
    let mut result = String::new();
    let mut prev = ' ';
    let mut i: usize = 0;
    assert(s@.take(0) =~= Seq::<char>::empty());
    while i < len
        invariant
            len == s@.len(),
            i <= len,
            result@ == fix_spec(s@.take(i as int)),
            i > 0 ==> prev == s@[i - 1],
        decreases len - i,
    {
        let c = s.get_char(i);
        let ghost t = s@.take(i + 1);
        assert(t.drop_last() =~= s@.take(i as int));
        assert(t[i as int] == c);
        assert(i > 0 ==> t[i - 1] == prev);
        if (c == 'o' || c == 'O') && (i == 0 || !letter(prev)) {
            push_char(&mut result, 'O');
        } else if letter(c) {
            let l = ascii_lowercase(c);
            push_char(&mut result, l);
        }
        assert(result@ =~= fix_spec(t));
        prev = c;
        i = i + 1;
    }
    assert(s@.take(len as int) =~= s@);
    result
}

proof fn lemma_fix_all_letters(s: Seq<char>)
    ensures
        all_letters(fix_spec(s)),
    decreases s.len(),
{
    if s.len() > 0 {
        lemma_fix_all_letters(s.drop_last());
        let a = fix_spec(s.drop_last());
        let b = fixed_char(s, s.len() - 1);
        assert forall|i: int| 0 <= i < (a + b).len() implies is_letter(#[trigger] (a + b)[i]) by {
            if i >= a.len() {
                assert(b[i - a.len()] == (a + b)[i]);
            }
        }
    }
}

proof fn lemma_fix_of_letters(t: Seq<char>)
    requires
        all_letters(t),
    ensures
        fix_spec(t).len() == t.len(),
        forall|i: int|
            0 <= i < t.len() ==> #[trigger] fix_spec(t)[i] == (if i == 0 && (t[0] == 'o' || t[0]
                == 'O') {
                'O'
            } else {
                lower(t[i])
            }),
    decreases t.len(),
{
    if t.len() > 0 {
        let d = t.drop_last();
        assert(all_letters(d)) by {
            assert forall|i: int| 0 <= i < d.len() implies is_letter(#[trigger] d[i]) by {
                assert(d[i] == t[i]);
            }
        }
        lemma_fix_of_letters(d);
        let n = t.len() - 1;
        assert(is_letter(t[n]));
        assert(n > 0 ==> is_letter(t[n - 1]));
        assert forall|i: int| 0 <= i < t.len() implies #[trigger] fix_spec(t)[i] == (if i == 0 && (t[0]
            == 'o' || t[0] == 'O') {
            'O'
        } else {
            lower(t[i])
        }) by {
            if i < n {
                assert(fix_spec(t)[i] == fix_spec(d)[i]);
                assert(d[i] == t[i]);
            }
        }
    }
}

/// Normalizing twice is a fixed point: a third pass changes nothing. (One
/// pass alone is not: "a!o" gives "aO", which gives "ao".)
pub proof fn lemma_fix_twice_stable(s: Seq<char>)
    ensures
        fix_spec(fix_spec(fix_spec(s))) == fix_spec(fix_spec(s)),
{
    let t = fix_spec(s);
    lemma_fix_all_letters(s);
    lemma_fix_of_letters(t);
    let u = fix_spec(t);
    lemma_fix_all_letters(t);
    lemma_fix_of_letters(u);
    assert(fix_spec(u) =~= u);
}

/// A position in a trie, read-only: the node it stands at and whether a
/// stored string ends there. Cursors are cheap to copy and may diverge.
#[derive(Clone, Copy)]
pub struct MatchableNode<'a> {
    pub trie: &'a Trie,
    pub pos: usize,
    pub complete: bool,
}

impl<'a> MatchableNode<'a> {
    pub open spec fn wf(&self) -> bool {
        &&& self.trie.wf()
        &&& self.pos < self.trie.nodes@.len()
        &&& self.complete == (self.trie.nodes@[self.pos as int].word is Some)
    }

    /// The cursor at the root of `trie`.
    pub fn from(trie: &'a Trie) -> (r: Self)
        requires
            trie.wf(),
        ensures
            r.wf(),
            r.trie == trie,
            r.pos == 0,
    {
        let complete = trie.nodes[0].is_complete_word();
        MatchableNode { trie, pos: 0, complete }
    }

    /// The cursor reached by following `prefix` from this one, if every
    /// character of it has an edge.
    pub fn get_matching_node(&self, prefix: &str) -> (r: Option<Self>)
        requires
            self.wf(),
        ensures
            r is Some == self.trie.walk(self.pos, prefix@) is Some,
            r is Some ==> r->0.wf() && r->0.trie == self.trie && r->0.pos == self.trie.walk(
                self.pos,
                prefix@,
            )->0,
    {
        match self.trie.walk_from(self.pos, prefix) {
            Some(n) => {
                let complete = self.trie.nodes[n].is_complete_word();
                Some(MatchableNode { trie: self.trie, pos: n, complete })
            },
            None => None,
        }
    }

    /// Whether a stored string ends at this cursor.
    pub fn is_complete_word(&self) -> (r: bool)
        requires
            self.wf(),
        ensures
            r == (self.trie.nodes@[self.pos as int].word is Some),
    {
        self.complete
    }

    /// The stored string that ends at this cursor, if any.
    pub fn get_word(&self) -> (r: Option<String>)
        requires
            self.wf(),
        ensures
            r == self.trie.nodes@[self.pos as int].word,
            r is Some ==> r->0@ == self.trie.paths@[self.pos as int],
    {
        if self.complete {
            self.trie.nodes[self.pos].get_word()
        } else {
            None
        }
    }
}

} // verus!
