use vstd::prelude::*;

use crate::trie::{is_prefix, Trie};

verus! {

/// The dictionary: the native-script words that suggestions are drawn from.
pub struct Words {
    pub trie: Trie,
}

impl Words {
    /// Builds the dictionary of exactly the given words.
    pub fn new(words: &[&str]) -> (r: Words)
        ensures
            r.trie.wf(),
            forall|s: Seq<char>|
                #[trigger] r.trie.contains(s) <==> exists|i: int|
                    0 <= i < words@.len() && words@[i]@ == s,
            forall|s: Seq<char>|
                #[trigger] r.trie.walk(0, s) is Some <==> (s.len() == 0 || exists|i: int|
                    0 <= i < words@.len() && is_prefix(s, words@[i]@)),
    {
        Words { trie: Trie::from_strings(words) }
    }
}

} // verus!
