use bitboard_core::bits::{
    bb_complement, bb_intersect, bb_is_empty, bb_union, bb_with_bit, bb_without_bit, count_bits,
    lowest_set_square, pop_lowest_set_square,
};
use bitboard_core::magic::{find_magics, get_all_blockers_subsets, MagicEntry, SliderKind};
use bitboard_core::sliders::{
    bishop_attacks, bishop_mask, generate_bishop_blockers_masks, generate_rook_blockers_masks,
    rook_attacks, rook_mask,
};
use bitboard_core::types::SquareCoord;

#[test]
fn test_bit_primitives() {
    assert_eq!(count_bits(0), 0);
    assert_eq!(count_bits(0b101), 2);
    assert_eq!(count_bits(u64::MAX), 64);
    assert_eq!(lowest_set_square(0b1010_0000), 5);
    let (sq, rest) = pop_lowest_set_square(0b1010_0000);
    assert_eq!(sq, 5);
    assert_eq!(rest, 0b1000_0000);
}

#[test]
fn test_set_operations() {
    assert!(bb_is_empty(0));
    assert!(!bb_is_empty(0b100));
    assert_eq!(bb_union(0b101, 0b011), 0b111);
    assert_eq!(bb_intersect(0b101, 0b011), 0b001);
    assert_eq!(bb_complement(0), u64::MAX);
    assert_eq!(bb_with_bit(0b1, 3), 0b1001);
    assert_eq!(bb_without_bit(0b1001, 3), 0b1);
    assert_eq!(bb_without_bit(0b1, 3), 0b1);
}

#[test]
fn test_subset_enumeration_of_0b101() {
    // squares 0 and 2 give exactly the four subsets, each exactly once
    let subsets = get_all_blockers_subsets(0b101);
    assert_eq!(subsets, vec![0b000, 0b001, 0b100, 0b101]);
}

#[test]
fn test_subset_enumeration_counts() {
    assert_eq!(get_all_blockers_subsets(0), vec![0]);
    let m: u64 = 0b1101_0001;
    let subsets = get_all_blockers_subsets(m);
    assert_eq!(subsets.len(), 1 << 4);
    assert_eq!(subsets[0], 0);
    assert_eq!(*subsets.last().unwrap(), m);
    for w in subsets.windows(2) {
        assert!(w[0] < w[1]);
    }
    for s in &subsets {
        assert_eq!(s & m, *s);
    }
}

#[test]
fn test_rook_blockers_mask_of_corner() {
    // the rank squares short of the h-file edge and the file squares
    // short of the eighth-rank edge; both edge terminators are excluded
    let masks = generate_rook_blockers_masks();
    assert_eq!(masks.len(), 64);
    let expected: u64 = 0x0001_0101_0101_017E;
    assert_eq!(masks[0], expected);
    assert_eq!(rook_mask(SquareCoord::from_index(0)), expected);
    // the square itself is never relevant
    for s in 0..64usize {
        assert_eq!(masks[s] & (1u64 << s), 0);
    }
}

#[test]
fn test_bishop_blockers_mask() {
    let masks = generate_bishop_blockers_masks();
    assert_eq!(masks.len(), 64);
    // d4: the four diagonal runs, stopping short of every edge
    let expected: u64 = (1u64 << 36) | (1u64 << 45) | (1u64 << 54) | (1u64 << 34) | (1u64 << 41)
        | (1u64 << 20) | (1u64 << 13) | (1u64 << 18) | (1u64 << 9);
    assert_eq!(masks[27], expected);
    assert_eq!(bishop_mask(SquareCoord::from_index(27)), expected);
    for s in 0..64usize {
        assert_eq!(masks[s] & (1u64 << s), 0);
        // a bishop mask never reaches any board edge
        assert_eq!(masks[s] & 0xFF81_8181_8181_81FF, 0);
    }
}

#[test]
fn test_rook_attacks_stop_at_first_blocker() {
    // rook on a1 with only square 3 occupied: the rank run is 1, 2 and
    // the blocker itself, the file run is unobstructed to the edge
    let occ: u64 = 1u64 << 3;
    let attacks = rook_attacks(SquareCoord::from_index(0), occ);
    let rank_part: u64 = 0b1110;
    let file_part: u64 = (1u64 << 8) | (1u64 << 16) | (1u64 << 24) | (1u64 << 32) | (1u64 << 40)
        | (1u64 << 48) | (1u64 << 56);
    assert_eq!(attacks, rank_part | file_part);
    // an empty board lets the rook reach both full lines
    let open = rook_attacks(SquareCoord::from_index(0), 0);
    assert_eq!(open, 0xFE | file_part);
}

#[test]
fn test_bishop_attacks_stop_at_first_blocker() {
    let occ: u64 = 1u64 << 18;
    let attacks = bishop_attacks(SquareCoord::from_index(0), occ);
    assert_eq!(attacks, (1u64 << 9) | (1u64 << 18));
}

#[test]
fn test_magic_entry_shift() {
    let e = MagicEntry::new(0b101, 99);
    assert_eq!(e.number, 99);
    assert_eq!(e.blocker_mask, 0b101);
    assert_eq!(e.shift, 62);
}

#[test]
fn test_magic_lookup_matches_raycast_bishop() {
    let square = SquareCoord::from_index(0);
    let table = find_magics(square, SliderKind::BishopLike).unwrap();
    let mask = bishop_mask(square);
    for subset in get_all_blockers_subsets(mask) {
        assert_eq!(table.lookup(subset), bishop_attacks(square, subset));
    }
    // occupancy outside the mask is ignored by the lookup
    assert_eq!(table.lookup(u64::MAX), bishop_attacks(square, mask));
}

#[test]
fn test_magic_lookup_matches_raycast_rook() {
    let square = SquareCoord::from_index(28);
    let table = find_magics(square, SliderKind::RookLike).unwrap();
    let mask = rook_mask(square);
    for subset in get_all_blockers_subsets(mask) {
        assert_eq!(table.lookup(subset), rook_attacks(square, subset));
    }
}
