//! Removing tiles from a rack: one tile at a time, each time the first copy of
//! it, failing if some tile is not there.
use vstd::prelude::*;
use vstd::multiset::Multiset;

verus! {

broadcast use vstd::seq_lib::group_to_multiset_ensures;

/// The index of the first copy of `t` in `s` at or after `i`.
pub open spec fn first_index(s: Seq<char>, t: char, i: int) -> Option<int>
    decreases s.len() - i,
{
    if i < 0 || i >= s.len() {
        None
    } else if s[i] == t {
        Some(i)
    } else {
        first_index(s, t, i + 1)
    }
}

/// `s` without the first copy of `t`, if it holds one.
pub open spec fn remove_one(s: Seq<char>, t: char) -> Option<Seq<char>> {
    match first_index(s, t, 0) {
        Some(j) => Some(s.remove(j)),
        None => None,
    }
}

/// The rack left after removing `tiles` one after the other from `rack`, if
/// the rack holds them all.
pub open spec fn take_all(rack: Seq<char>, tiles: Seq<char>) -> Option<Seq<char>>
    decreases tiles.len(),
{
    if tiles.len() == 0 {
        Some(rack)
    } else {
        match take_all(rack, tiles.drop_last()) {
            Some(w) => remove_one(w, tiles.last()),
            None => None,
        }
    }
}

proof fn lemma_first_index(s: Seq<char>, t: char, i: int)
    requires
        0 <= i <= s.len(),
    ensures
        match first_index(s, t, i) {
            Some(j) => i <= j < s.len() && s[j] == t && forall|k: int| i <= k < j ==> s[k] != t,
            None => forall|k: int| i <= k < s.len() ==> s[k] != t,
        },
    decreases s.len() - i,
{
    if i < s.len() && s[i] != t {
        lemma_first_index(s, t, i + 1);
    }
}

proof fn lemma_remove_one(s: Seq<char>, t: char)
    ensures
        remove_one(s, t) is Some <==> s.to_multiset().count(t) > 0,
        remove_one(s, t) matches Some(w) ==> w.to_multiset() == s.to_multiset().remove(t),
{
    lemma_first_index(s, t, 0);
    match first_index(s, t, 0) {
        Some(j) => {
            assert(s.contains(t));
        },
        None => {
            assert(!s.contains(t));
        },
    }
}

/// Removing tiles one at a time succeeds exactly when the rack holds the
/// tiles as a multiset, and what is left is the multiset difference.
pub proof fn lemma_take_all_multiset(rack: Seq<char>, tiles: Seq<char>)
    ensures
        take_all(rack, tiles) is Some <==> tiles.to_multiset().subset_of(rack.to_multiset()),
        take_all(rack, tiles) matches Some(w) ==> w.to_multiset() == rack.to_multiset().sub(
            tiles.to_multiset(),
        ),
    decreases tiles.len(),
{
    broadcast use vstd::multiset::group_multiset_axioms;

    if tiles.len() == 0 {
        assert(tiles.to_multiset() =~= Multiset::empty());
        assert(rack.to_multiset().sub(tiles.to_multiset()) =~= rack.to_multiset());
    } else {
        let d = tiles.drop_last();
        let t = tiles.last();
        lemma_take_all_multiset(rack, d);
        assert(d.push(t) =~= tiles);
        let tm = tiles.to_multiset();
        let dm = d.to_multiset();
        let rm = rack.to_multiset();
        assert(tm =~= dm.insert(t));
        match take_all(rack, d) {
            Some(w) => {
                lemma_remove_one(w, t);
                assert(w.to_multiset() =~= rm.sub(dm));
                if remove_one(w, t) is Some {
                    let w2 = remove_one(w, t)->Some_0;
                    assert(w2.to_multiset() =~= rm.sub(tm));
                    assert(tm.subset_of(rm)) by {
                        assert forall|x: char| tm.count(x) <= rm.count(x) by {
                            if x != t {
                                assert(dm.subset_of(rm));
                            }
                        }
                    }
                } else {
                    assert(!tm.subset_of(rm)) by {
                        assert(tm.count(t) > rm.count(t));
                    }
                }
            },
            None => {
                assert(!dm.subset_of(rm));
                assert(!tm.subset_of(rm)) by {
                    let x = choose|x: char| dm.count(x) > rm.count(x);
                    assert(tm.count(x) >= dm.count(x));
                }
            },
        }
    }
}

/// `rack` without `tiles` taken one after the other, or `None` when some
/// tile is missing.
pub fn try_take(rack: &Vec<char>, tiles: &[char]) -> (r: Option<Vec<char>>)
    ensures
        match take_all(rack@, tiles@) {
            Some(w) => r matches Some(v) && v@ == w,
            None => r is None,
        },
{
    let mut working = rack.clone();
    assert(working@ =~= rack@);
    let n = tiles.len();
    for i in 0..n
        invariant
            n == tiles@.len(),
            take_all(rack@, tiles@.take(i as int)) == Some(working@),
    {
        let t = tiles[i];
        assert(tiles@.take(i + 1).drop_last() =~= tiles@.take(i as int));
        assert(tiles@.take(i + 1).last() == t);
        let len = working.len();
        let mut j: usize = 0;
        while j < len && working[j] != t
            invariant
                j <= len,
                len == working@.len(),
                forall|k: int| 0 <= k < j ==> working@[k] != t,
            decreases len - j,
        {
            j = j + 1;
        }
        proof {
            lemma_first_index(working@, t, 0);
        }
        if j == len {
            proof {
                lemma_take_none(rack@, tiles@, i as int);
            }
            return None;
        }
        working.remove(j);
    }
    assert(tiles@.take(n as int) =~= tiles@);
    Some(working)
}

proof fn lemma_take_none(rack: Seq<char>, tiles: Seq<char>, i: int)
    requires
        0 <= i < tiles.len(),
        take_all(rack, tiles.take(i + 1)) is None,
    ensures
        take_all(rack, tiles) is None,
    decreases tiles.len(),
{
    if i + 1 < tiles.len() {
        let d = tiles.drop_last();
        assert(d.take(i + 1) =~= tiles.take(i + 1));
        lemma_take_none(rack, d, i);
    } else {
        assert(tiles.take(i + 1) =~= tiles);
    }
}

} // verus!
