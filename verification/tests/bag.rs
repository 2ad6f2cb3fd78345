use rand::SeedableRng;
use rand::rngs::StdRng;
use words_with_fam::engine::bag::TileBag;
use words_with_fam::engine::constants::{BAG_SIZE, BLANK};

#[test]
fn full_bag_size_and_blanks() {
    let bag = TileBag::full();
    assert_eq!(bag.remaining(), BAG_SIZE);
    let blanks = bag.tiles.iter().filter(|&&c| c == BLANK).count();
    assert_eq!(blanks, 2);
}

#[test]
fn draw_reduces_remaining() {
    let mut rng = StdRng::seed_from_u64(1);
    let mut bag = TileBag::shuffled(&mut rng);
    let hand = bag.draw(7);
    assert_eq!(hand.len(), 7);
    assert_eq!(bag.remaining(), BAG_SIZE - 7);
}

#[test]
fn draw_past_empty_is_clamped() {
    let mut bag = TileBag::full();
    let all = bag.draw(1000);
    assert_eq!(all.len(), BAG_SIZE);
    assert!(bag.is_empty());
    assert!(bag.draw(5).is_empty());
}

#[test]
fn return_tiles_roundtrips_count() {
    let mut rng = StdRng::seed_from_u64(2);
    let mut bag = TileBag::shuffled(&mut rng);
    let hand = bag.draw(3);
    let before = bag.remaining();
    bag.return_tiles(&hand, &mut rng);
    assert_eq!(bag.remaining(), before + 3);
}

#[test]
fn full_bag_order_is_alphabetical_then_blanks() {
    let bag = TileBag::full();
    assert_eq!(&bag.tiles[0..9], &['A'; 9]);
    assert_eq!(bag.tiles[9], 'B');
    assert_eq!(&bag.tiles[102..], &[BLANK, BLANK]);
    assert_eq!(bag.tiles[101], 'Z');
}

#[test]
fn draw_takes_from_the_top() {
    let mut bag = TileBag::full();
    let hand = bag.draw(3);
    assert_eq!(hand, vec!['Z', BLANK, BLANK]);
    assert_eq!(bag.remaining(), BAG_SIZE - 3);
    assert_eq!(*bag.tiles.last().unwrap(), 'Y');
}

#[test]
fn shuffle_keeps_the_tiles() {
    let mut rng = StdRng::seed_from_u64(9);
    let mut bag = TileBag::shuffled(&mut rng);
    let mut tiles = bag.tiles.clone();
    tiles.sort();
    let mut full = TileBag::full().tiles;
    full.sort();
    assert_eq!(tiles, full);
    bag.shuffle(&mut rng);
    assert_eq!(bag.remaining(), BAG_SIZE);
}

#[test]
fn returned_tiles_are_in_the_bag() {
    let mut rng = StdRng::seed_from_u64(3);
    let mut bag = TileBag::full();
    let _ = bag.draw(BAG_SIZE);
    bag.return_tiles(&['Q', 'X'], &mut rng);
    let mut t = bag.tiles.clone();
    t.sort();
    assert_eq!(t, vec!['Q', 'X']);
}
