use chroma::{BoundsError, Pos, Section};

#[test]
fn test_new_is_empty() {
    let section: Section<16, 16, 16> = Section::new(2);
    assert!(section.is_empty());
}

#[test]
fn test_set_and_get_item() {
    let mut section: Section<16, 16, 16> = Section::new(4);
    let pos_1: Pos = Pos::new(15, 1, 1);
    let pos_2: Pos = Pos::new(15, 1, 2);

    section.set_item_unchecked(pos_1, 3);
    section.set_item_unchecked(pos_1, 2);
    section.set_item_unchecked(pos_2, 1);

    assert_eq!(section.item_unchecked(pos_1), 2);
    assert_eq!(section.item_unchecked(pos_2), 1);
}

#[test]
fn test_repack() {
    let mut section: Section<16, 16, 16> = Section::new(1);
    let pos: Pos = Pos::new(3, 5, 3);

    section.set_item_unchecked(pos, 30);
    assert_eq!(section.item_unchecked(pos), 30);
}

#[test]
fn fresh_section_is_empty() {
    let section: Section<4, 4, 4> = Section::new(1);
    assert!(section.is_empty());
}

#[test]
fn set_then_get_and_not_empty() {
    let mut section: Section<4, 4, 4> = Section::new(1);
    assert!(section.set_item(Pos::new(0, 0, 0), 7).is_ok());
    assert_eq!(section.item(Pos::new(0, 0, 0)).unwrap(), 7);
    assert!(!section.is_empty());
}

#[test]
fn set_back_to_zero() {
    let mut section: Section<4, 4, 4> = Section::new(1);
    assert!(section.set_item(Pos::new(3, 3, 3), 5).is_ok());
    assert!(section.set_item(Pos::new(3, 3, 3), 0).is_ok());
    assert_eq!(section.item(Pos::new(3, 3, 3)).unwrap(), 0);
}

#[test]
fn negative_coordinate_is_rejected() {
    let mut section: Section<4, 4, 4> = Section::new(1);
    let bad: Pos = Pos::new(-1, 0, 0);
    assert_eq!(section.set_item(bad, 1), Err(BoundsError::OutOfBounds(bad)));
    assert_eq!(section.item(bad), Err(BoundsError::OutOfBounds(bad)));
    assert!(section.is_empty());
}

#[test]
fn coordinate_at_dimension_is_rejected() {
    let mut section: Section<4, 4, 4> = Section::new(1);
    let bad: Pos = Pos::new(0, 4, 0);
    assert_eq!(section.set_item(bad, 9), Err(BoundsError::OutOfBounds(bad)));
    assert_eq!(section.item(bad), Err(BoundsError::OutOfBounds(bad)));
}

#[test]
fn five_values_survive_repacks() {
    let mut section: Section<4, 4, 4> = Section::new(1);
    let positions: [Pos; 5] = [
        Pos::new(0, 0, 0),
        Pos::new(1, 1, 1),
        Pos::new(2, 2, 2),
        Pos::new(3, 3, 3),
        Pos::new(0, 3, 2),
    ];
    let values: [u64; 5] = [10, 20, 30, 40, 50];
    let mut n: usize = 0;
    while n < 5 {
        assert!(section.set_item(positions[n], values[n]).is_ok());
        n += 1;
    }
    let mut m: usize = 0;
    while m < 5 {
        assert_eq!(section.item(positions[m]).unwrap(), values[m]);
        m += 1;
    }
    assert!(section.bits_per_item > 1);
}

#[test]
fn empty_again_after_clearing_every_cell() {
    let mut section: Section<4, 4, 4> = Section::new(2);
    assert!(section.set_item(Pos::new(1, 2, 3), 9).is_ok());
    assert!(section.set_item(Pos::new(2, 1, 0), 11).is_ok());
    assert!(!section.is_empty());
    for x in 0..4 {
        for y in 0..4 {
            for z in 0..4 {
                assert!(section.set_item(Pos::new(x, y, z), 0).is_ok());
            }
        }
    }
    assert!(section.is_empty());
}

#[test]
fn rewriting_same_value_is_idempotent() {
    let mut section: Section<4, 4, 4> = Section::new(1);
    assert!(section.set_item(Pos::new(1, 0, 2), 33).is_ok());
    let data_once = section.data.clone();
    let palette_once = section.palette.clone();
    let bits_once = section.bits_per_item;
    assert!(section.set_item(Pos::new(1, 0, 2), 33).is_ok());
    assert_eq!(section.data, data_once);
    assert_eq!(section.palette, palette_once);
    assert_eq!(section.bits_per_item, bits_once);
}

#[test]
fn writes_do_not_interfere() {
    let mut section: Section<4, 4, 4> = Section::new(2);
    assert!(section.set_item(Pos::new(0, 1, 0), 77).is_ok());
    assert!(section.set_item(Pos::new(0, 1, 1), 88).is_ok());
    assert_eq!(section.item(Pos::new(0, 1, 0)).unwrap(), 77);
    assert_eq!(section.item(Pos::new(0, 1, 1)).unwrap(), 88);
    assert_eq!(section.item(Pos::new(3, 2, 1)).unwrap(), 0);
}

#[test]
fn every_cell_round_trips_through_repacks() {
    let mut section: Section<8, 8, 8> = Section::new(1);
    for x in 0..8 {
        for y in 0..8 {
            for z in 0..8 {
                let v: u64 = (x * 64 + y * 8 + z) as u64 * 3 + 1;
                assert!(section.set_item(Pos::new(x, y, z), v).is_ok());
            }
        }
    }
    for x in 0..8 {
        for y in 0..8 {
            for z in 0..8 {
                let v: u64 = (x * 64 + y * 8 + z) as u64 * 3 + 1;
                assert_eq!(section.item(Pos::new(x, y, z)).unwrap(), v);
            }
        }
    }
    assert!(section.bits_per_item >= 10);
}

#[test]
fn volume_and_dimensions_report_the_grid() {
    let section: Section<4, 5, 6> = Section::new(1);
    assert_eq!(section.volume(), 120);
    assert_eq!(section.dimensions(), Pos::new(4, 5, 6));
}

#[test]
fn palette_starts_prefilled_with_zeros() {
    let section: Section<4, 4, 4> = Section::new(3);
    assert_eq!(section.palette.len(), 8);
    assert!(section.palette.iter().all(|&id| id == 0));
    assert_eq!(section.bits_per_item, 3);
}

#[test]
fn first_nonzero_write_forces_widening() {
    let mut section: Section<16, 16, 16> = Section::new(4);
    assert_eq!(section.bits_per_item, 4);
    assert!(section.set_item(Pos::new(0, 0, 0), 1).is_ok());
    assert_eq!(section.bits_per_item, 5);
    assert_eq!(section.palette.len(), 17);
}

#[test]
fn rebuild_from_fields_round_trips() {
    let mut section: Section<4, 4, 4> = Section::new(2);
    assert!(section.set_item(Pos::new(1, 2, 3), 42).is_ok());
    let data = section.data.clone();
    let palette = section.palette.clone();
    let bits = section.bits_per_item;
    let rebuilt: Section<4, 4, 4> =
        Section::try_from_parts(data.clone(), palette.clone(), bits).unwrap();
    assert_eq!(rebuilt.data, data);
    assert_eq!(rebuilt.palette, palette);
    assert_eq!(rebuilt.bits_per_item, bits);
    assert_eq!(rebuilt.item(Pos::new(1, 2, 3)).unwrap(), 42);
}

#[test]
fn rebuild_rejects_malformed_fields() {
    // a word count that does not match the width
    let wrong_len: Option<Section<4, 4, 4>> =
        Section::try_from_parts(vec![0u64; 3], vec![0u64; 2], 1);
    assert!(wrong_len.is_none());
    // stored indices pointing at a zero palette entry other than slot 0
    let stale_index: Option<Section<4, 4, 4>> =
        Section::try_from_parts(vec![u64::MAX; 1], vec![0u64; 2], 1);
    assert!(stale_index.is_none());
    // a zero item width
    let zero_width: Option<Section<4, 4, 4>> =
        Section::try_from_parts(vec![0u64; 1], vec![0u64; 2], 0);
    assert!(zero_width.is_none());
}
