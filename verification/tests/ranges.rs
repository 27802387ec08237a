use croaring::Bitmap;
use tessera_engine::ranges::{as_range, RangeSets, SegmentSpans};

/// A set built by hand, so the range arithmetic stands alone.
fn sets(rows: &[&[(u32, u32)]]) -> RangeSets {
    let mut at = vec![0u32];
    let mut ranges = Vec::new();
    for set in rows {
        ranges.extend_from_slice(set);
        at.push(ranges.len() as u32);
    }
    RangeSets { at, ranges }
}

/// The three questions the route asks, over ranges. A hole answers nothing, and past the level is
/// not a panic.
#[test]
fn ranges_answer_candidacy_counts_and_sizes() {
    let sets = sets(&[&[(0, 4), (10, 12)], &[], &[(20, 21)]]);
    assert_eq!(sets.len(), 3);
    assert_eq!(sets.declared_size(0), 6);
    assert_eq!(sets.declared_size(1), 0, "a hole spans nothing");
    assert_eq!(sets.declared_size(2), 1);
    assert_eq!(sets.declared_size(99), 0, "past the level is not a panic");

    // The count is over the whole mask, and it is the sum over disjoint ranges.
    let mask: Bitmap = [0u32, 1, 11, 20, 30].into_iter().collect();
    assert_eq!(sets.masked_count(0, &mask), 3);
    assert_eq!(sets.masked_count(1, &mask), 0);
    assert_eq!(sets.masked_count(2, &mask), 1);

    // Candidacy is against the visible rows of the viewport: row 11 is in artifact 0's second
    // range only.
    let here: Bitmap = [11u32].into_iter().collect();
    assert_eq!(sets.candidates(&here).iter().collect::<Vec<_>>(), vec![0]);
    let here: Bitmap = [5u32, 30].into_iter().collect();
    assert!(
        sets.candidates(&here).is_empty(),
        "no range holds either row"
    );
    let here: Bitmap = [1u32, 20].into_iter().collect();
    assert_eq!(
        sets.candidates(&here).iter().collect::<Vec<_>>(),
        vec![0, 2]
    );
}

/// The materialised set and the count agree.
#[test]
fn the_rows_and_the_count_are_the_same_set() {
    let sets = sets(&[&[(0, 4), (10, 12)]]);
    let mask: Bitmap = (0..40u32).filter(|r| r % 3 == 0).collect();
    assert_eq!(
        sets.masked_count(0, &mask),
        mask.and_cardinality(&sets.rows(0))
    );
    assert_eq!(sets.rows(0).cardinality(), sets.declared_size(0));
}

/// A hole is not a live artifact.
#[test]
fn holes_are_not_live() {
    let held = sets(&[&[(0, 4)], &[], &[(8, 9), (12, 13)]]);
    assert_eq!(held.live(), 2);
    assert_eq!(held.ranges.len(), 3);
    assert_eq!(sets(&[&[], &[]]).live(), 0);
    assert!(sets(&[]).is_empty());
    assert_eq!(held.ranges(2), &[(8, 9), (12, 13)]);
    assert_eq!(as_range((3, 9)), 3..9);
}

#[test]
fn building_joins_the_segments_spans() {
    let built = RangeSets::build(&vec![
        Some(vec![
            SegmentSpans {
                row_base: 0,
                spans: vec![(2, 4)],
            },
            SegmentSpans {
                row_base: 100,
                spans: vec![(0, 3), (7, 8)],
            },
        ]),
        None,
    ]);
    assert_eq!(built.len(), 2);
    assert_eq!(built.rows(0).to_vec(), vec![2, 3, 100, 101, 102, 107]);
    assert_eq!(built.rows(1).cardinality(), 0);
}
