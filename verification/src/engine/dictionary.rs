//! The word list used to validate plays: a set of trimmed, upper-cased words
//! with case-insensitive lookups.
use vstd::prelude::*;
use vstd::hash_set::StringHashSet;

use crate::engine::text::{normalize, normalized};

verus! {

broadcast use vstd::hash_set::group_hash_set_axioms;

pub struct Dictionary {
    words: StringHashSet,
}

/// The words a list contributes to a dictionary: each one trimmed and
/// upper-cased, blank ones left out.
pub open spec fn words_of(list: Seq<Seq<char>>) -> Set<Seq<char>> {
    Set::new(
        |w: Seq<char>|
            w.len() > 0 && exists|i: int| 0 <= i < list.len() && #[trigger] normalized(list[i]) == w,
    )
}

impl View for Dictionary {
    type V = Set<Seq<char>>;

    closed spec fn view(&self) -> Set<Seq<char>> {
        self.words@
    }
}

impl Dictionary {
    /// Builds a dictionary from a list of words; surrounding whitespace is
    /// dropped, letters are upper-cased and blank entries are skipped.
    pub fn from_words(list: &[&str]) -> (d: Dictionary)
        ensures
            d@ == words_of(list@.map_values(|s: &str| s@)),
    {
        let ghost views = list@.map_values(|s: &str| s@);
        let mut words = StringHashSet::new();
        let n = list.len();
        for i in 0..n
            invariant
                n == list@.len(),
                views == list@.map_values(|s: &str| s@),
                words@ == words_of(views.take(i as int)),
        {
            let w = normalize(list[i]);
            proof {
                assert(views[i as int] == list@[i as int]@);
            }
            if !w.as_str().is_empty() {
                assert(w@.len() > 0);
                words.insert(w);
            }
            proof {
                let pre = views.take(i as int);
                let post = views.take(i + 1);
                assert forall|x: Seq<char>| words@.contains(x) == words_of(post).contains(x) by {
                    if words_of(post).contains(x) {
                        let k = choose|k: int| 0 <= k < post.len() && #[trigger] normalized(post[k]) == x;
                        if k < i {
                            assert(pre[k] == post[k]);
                        } else {
                            assert(post[k] == views[i as int]);
                        }
                    }
                    if words_of(pre).contains(x) {
                        let k = choose|k: int| 0 <= k < pre.len() && #[trigger] normalized(pre[k]) == x;
                        assert(post[k] == pre[k]);
                    }
                    if x == normalized(views[i as int]) && x.len() > 0 {
                        assert(post[i as int] == views[i as int]);
                    }
                }
                assert(words@ =~= words_of(post));
            }
        }
        assert(views.take(n as int) =~= views);
        Dictionary { words }
    }

    /// Case-insensitive membership test; surrounding whitespace is ignored.
    pub fn contains(&self, word: &str) -> (b: bool)
        ensures
            b == self@.contains(normalized(word@)),
    {
        let w = normalize(word);
        self.words.contains(w.as_str())
    }

    pub fn len(&self) -> (n: usize)
        ensures
            n == self@.len(),
    {
        self.words.len()
    }

    pub fn is_empty(&self) -> (b: bool)
        ensures
            b == (self@.len() == 0),
    {
        self.words.len() == 0
    }
}

} // verus!
