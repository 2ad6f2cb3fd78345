//! The tile bag: a pool of tiles drawn onto racks. Blanks are stored as the
//! `BLANK` character.
use vstd::prelude::*;
use rand::rngs::StdRng;
use rand::seq::SliceRandom;

use crate::engine::constants::{BAG_SIZE, BLANK, count_of, letter_count};

verus! {

/// rand's `StdRng`, the random source a bag is shuffled with. Nothing about
/// its state is claimed; it is only handed on to the shuffle.
#[verifier::external_type_specification]
#[verifier::external_body]
pub struct ExStdRng(StdRng);

/// `SliceRandom::shuffle` of rand on the tiles: a Fisher-Yates pass of swaps,
/// so the same tiles come back in an order that rests on the random source.
/// The order is left unsaid; only that the tiles are kept is claimed.
#[verifier::external_body]
fn shuffle_tiles(tiles: &mut Vec<char>, rng: &mut StdRng)
    ensures
        final(tiles)@.to_multiset() == old(tiles)@.to_multiset(),
        final(tiles)@.len() == old(tiles)@.len(),
{
    tiles.shuffle(rng);
}

#[derive(Debug, Clone)]
pub struct TileBag {
    pub tiles: Vec<char>,
}

/// The `i`-th letter of the alphabet, upper case.
pub open spec fn nth_letter(i: int) -> char {
    (('A' as u32) + i) as char
}

/// The letter tiles of the first `k` letters of the alphabet, in order, each
/// letter repeated as many times as a full bag holds it.
pub open spec fn letter_tiles(k: nat) -> Seq<char>
    decreases k,
{
    if k == 0 {
        Seq::empty()
    } else {
        letter_tiles((k - 1) as nat) + Seq::new(
            count_of(nth_letter(k - 1)),
            |j: int| nth_letter(k - 1),
        )
    }
}

/// A full, unshuffled bag: the letter tiles from A to Z, then two blanks.
pub open spec fn full_bag() -> Seq<char> {
    letter_tiles(26) + seq![BLANK, BLANK]
}

proof fn lemma_full_bag_len()
    ensures
        full_bag().len() == BAG_SIZE,
{
    reveal_with_fuel(letter_tiles, 27);
}

proof fn lemma_letter_tiles_are_letters(k: nat)
    requires
        k <= 26,
    ensures
        forall|i: int| 0 <= i < letter_tiles(k).len() ==> 'A' <= #[trigger] letter_tiles(k)[i] <= 'Z',
    decreases k,
{
    if k > 0 {
        lemma_letter_tiles_are_letters((k - 1) as nat);
        let a = letter_tiles((k - 1) as nat);
        let b = Seq::new(count_of(nth_letter(k - 1)), |j: int| nth_letter(k - 1));
        assert forall|i: int| 0 <= i < letter_tiles(k).len() implies 'A' <= #[trigger] letter_tiles(k)[i]
            <= 'Z' by {
            if i >= a.len() {
                assert(letter_tiles(k)[i] == b[i - a.len()]);
            } else {
                assert(letter_tiles(k)[i] == a[i]);
            }
        }
    }
}

/// A full bag holds 104 tiles: 102 letter tiles, then the two blanks.
pub proof fn lemma_full_bag_has_two_blanks()
    ensures
        full_bag().len() == BAG_SIZE,
        forall|i: int| 0 <= i < 102 ==> 'A' <= #[trigger] full_bag()[i] <= 'Z',
        full_bag()[102] == BLANK,
        full_bag()[103] == BLANK,
{
    lemma_full_bag_len();
    lemma_letter_tiles_are_letters(26);
    assert forall|i: int| 0 <= i < 102 implies 'A' <= #[trigger] full_bag()[i] <= 'Z' by {
        assert(full_bag()[i] == letter_tiles(26)[i]);
    }
}

impl View for TileBag {
    type V = Seq<char>;

    open spec fn view(&self) -> Seq<char> {
        self.tiles@
    }
}

impl TileBag {
    /// A full, unshuffled bag; the order is deterministic.
    pub fn full() -> (bag: TileBag)
        ensures
            bag@ == full_bag(),
            bag@.len() == BAG_SIZE,
    {
        let mut tiles: Vec<char> = Vec::with_capacity(BAG_SIZE);
        let mut b: u8 = 65u8;
        while b <= 90u8
            invariant
                65u8 <= b <= 90u8 + 1,
                tiles@ == letter_tiles((b - 65u8) as nat),
            decreases 90u8 + 1 - b,
        {
            let c = b as char;
            assert(c == nth_letter(b - 65u8));
            let n = letter_count(c);
            let ghost before = tiles@;
            let mut k: u8 = 0;
            while k < n
                invariant
                    k <= n,
                    n == count_of(c),
                    tiles@ =~= before + Seq::new(k as nat, |j: int| c),
                decreases n - k,
            {
                tiles.push(c);
                k = k + 1;
            }
            b = b + 1;
        }
        tiles.push(BLANK);
        tiles.push(BLANK);
        proof {
            lemma_full_bag_len();
            assert(tiles@ =~= full_bag());
        }
        TileBag { tiles }
    }

    /// A full bag, shuffled with `rng`.
    pub fn shuffled(rng: &mut StdRng) -> (bag: TileBag)
        ensures
            bag@.to_multiset() == full_bag().to_multiset(),
            bag@.len() == BAG_SIZE,
    {
        let mut bag = Self::full();
        bag.shuffle(rng);
        bag
    }

    pub fn shuffle(&mut self, rng: &mut StdRng)
        ensures
            final(self)@.to_multiset() == old(self)@.to_multiset(),
            final(self)@.len() == old(self)@.len(),
    {
        shuffle_tiles(&mut self.tiles, rng);
    }

    /// Draws up to `n` tiles off the top (the end) of the bag; fewer if it
    /// runs out.
    pub fn draw(&mut self, n: usize) -> (drawn: Vec<char>)
        ensures
            ({
                let take = if n < old(self)@.len() { n as int } else { old(self)@.len() as int };
                &&& final(self)@ == old(self)@.subrange(0, old(self)@.len() - take)
                &&& drawn@ == old(self)@.subrange(
                    old(self)@.len() - take,
                    old(self)@.len() as int,
                )
            }),
    {
        let take = if n < self.tiles.len() { n } else { self.tiles.len() };
        let at = self.tiles.len() - take;
        self.tiles.split_off(at)
    }

    /// Returns tiles to the bag (used by a swap) and reshuffles it.
    pub fn return_tiles(&mut self, tiles: &[char], rng: &mut StdRng)
        ensures
            final(self)@.to_multiset() == old(self)@.to_multiset().add(tiles@.to_multiset()),
            final(self)@.len() == old(self)@.len() + tiles@.len(),
    {
        let ghost before = self.tiles@;
        let n = tiles.len();
        for i in 0..n
            invariant
                n == tiles@.len(),
                self.tiles@ =~= before + tiles@.take(i as int),
        {
            self.tiles.push(tiles[i]);
        }
        proof {
            assert(tiles@.take(n as int) =~= tiles@);
            vstd::seq_lib::lemma_multiset_commutative(before, tiles@);
        }
        self.shuffle(rng);
    }

    pub fn remaining(&self) -> (n: usize)
        ensures
            n == self@.len(),
    {
        self.tiles.len()
    }

    pub fn is_empty(&self) -> (b: bool)
        ensures
            b == (self@.len() == 0),
    {
        self.tiles.len() == 0
    }
}

/// Drawing `n` tiles and putting them back into the bag leaves it holding the
/// same tiles as before, however many it could give.
pub proof fn lemma_draw_return_roundtrip(bag: Seq<char>, n: nat)
    ensures
        ({
            let take = if n < bag.len() { n as int } else { bag.len() as int };
            let kept = bag.subrange(0, bag.len() - take);
            let drawn = bag.subrange(bag.len() - take, bag.len() as int);
            &&& kept.to_multiset().add(drawn.to_multiset()) == bag.to_multiset()
            &&& kept.len() + drawn.len() == bag.len()
        }),
{
    let take = if n < bag.len() { n as int } else { bag.len() as int };
    let kept = bag.subrange(0, bag.len() - take);
    let drawn = bag.subrange(bag.len() - take, bag.len() as int);
    assert(bag =~= kept + drawn);
    vstd::seq_lib::lemma_multiset_commutative(kept, drawn);
}

} // verus!
