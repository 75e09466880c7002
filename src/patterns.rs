use vstd::prelude::*;
use vstd::string::*;

use crate::trie::Trie;

verus! {

/// A transliteration rule: the native-script spellings that a romanized
/// fragment may stand for, in the order they are tried. When
/// `entire_block_optional` is present, whatever its value, the whole
/// fragment may also be left out.
pub struct Block {
    pub transliterate: Vec<String>,
    pub entire_block_optional: Option<bool>,
}

/// The rule table: each rule key with its block, a trie over the keys, and
/// the common fragments tried at every block boundary.
pub struct Patterns {
    pub dict: Vec<(String, Block)>,
    pub trie: Trie,
    pub common: Vec<String>,
}

/// The block of the last entry of `dict` whose key is `key`.
pub open spec fn block_for(dict: Seq<(String, Block)>, key: Seq<char>) -> Option<Block>
    decreases dict.len(),
{
    if dict.len() == 0 {
        None
    } else if dict.last().0@ == key {
        Some(dict.last().1)
    } else {
        block_for(dict.drop_last(), key)
    }
}

/// Whether `a` and `b` hold the same characters.
fn same_chars(a: &str, b: &str) -> (r: bool)
    ensures
        r == (a@ == b@),
{
    let n = a.unicode_len();
    if n != b.unicode_len() {
        return false;
    }
    let mut i: usize = 0;
    while i < n
        invariant
            n == a@.len(),
            n == b@.len(),
            i <= n,
            a@.take(i as int) == b@.take(i as int),
        decreases n - i,
    {
        if a.get_char(i) != b.get_char(i) {
            assert(a@[i as int] != b@[i as int]);
            return false;
        }
        assert(a@.take(i + 1) =~= a@.take(i as int).push(a@[i as int]));
        assert(b@.take(i + 1) =~= b@.take(i as int).push(b@[i as int]));
        i = i + 1;
    }
    assert(a@.take(n as int) =~= a@);
    assert(b@.take(n as int) =~= b@);
    true
}

/// Rule keys are unique and every rule has at least one candidate.
pub open spec fn rules_ok(dict: Seq<(String, Block)>) -> bool {
    &&& forall|i: int, j: int|
        0 <= i < j < dict.len() ==> (#[trigger] dict[i]).0@ != (#[trigger] dict[j]).0@
    &&& forall|i: int| 0 <= i < dict.len() ==> (#[trigger] dict[i]).1.transliterate@.len() > 0
}

impl Patterns {
    /// The key trie is well formed and its keys all have a block; keys are
    /// unique and every block has a candidate.
    pub open spec fn wf(&self) -> bool {
        &&& self.trie.wf()
        &&& forall|s: Seq<char>| #[trigger] self.trie.contains(s) ==> block_for(self.dict@, s) is Some
        &&& rules_ok(self.dict@)
    }

    /// Builds the rule table from its entries and common fragments.
    pub fn new(dict: Vec<(String, Block)>, common: Vec<String>) -> (r: Patterns)
        requires
            rules_ok(dict@),
        ensures
            r.wf(),
            r.dict@ == dict@,
            r.common@ == common@,
            forall|s: Seq<char>| #[trigger] r.trie.contains(s) == block_for(dict@, s) is Some,
    {
        let mut trie = Trie::new();
        let mut i: usize = 0;
        while i < dict.len()
            invariant
                trie.wf(),
                i <= dict@.len(),
                forall|s: Seq<char>|
                    #[trigger] trie.contains(s) == block_for(dict@.take(i as int), s) is Some,
            decreases dict@.len() - i,
        {
            trie.insert(dict[i].0.as_str());
            proof {
                let t = dict@.take(i + 1);
                assert(t.drop_last() =~= dict@.take(i as int));
                assert(t.last() == dict@[i as int]);
            }
            i = i + 1;
        }
        assert(dict@.take(dict@.len() as int) =~= dict@);
        Patterns { dict, trie, common }
    }

    /// The block of rule `key`.
    pub fn block(&self, key: &str) -> (r: Option<&Block>)
        ensures
            r is Some == block_for(self.dict@, key@) is Some,
            r is Some ==> *r->0 == block_for(self.dict@, key@)->0,
    {
        let mut i: usize = self.dict.len();
        assert(self.dict@.take(i as int) =~= self.dict@);
        while i > 0
            invariant
                i <= self.dict@.len(),
                block_for(self.dict@, key@) == block_for(self.dict@.take(i as int), key@),
            decreases i,
        {
            i = i - 1;
            let t = Ghost(self.dict@.take(i + 1));
            assert(t@.drop_last() =~= self.dict@.take(i as int));
            assert(t@.last() == self.dict@[i as int]);
            if same_chars(self.dict[i].0.as_str(), key) {
                return Some(&self.dict[i].1);
            }
        }
        None
    }
}

} // verus!
