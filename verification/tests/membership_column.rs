use std::cmp::Reverse;

use croaring::Bitmap;
use tessera_engine::lineage::{rank_of, Lineage, Rank, ServedArtifact};
use tessera_engine::membership_column::{LevelRows, Resolved, ServedLayer, ServedLevel};

/// A lineage of artifacts, each with its parents; an ordinal left out has none.
fn dag(nodes: &[(u32, Vec<u32>)]) -> Lineage {
    let mut parents: Vec<Vec<u32>> = Vec::new();
    for (ordinal, ups) in nodes {
        while parents.len() <= *ordinal as usize {
            parents.push(Vec::new());
        }
        parents[*ordinal as usize] = ups.clone();
    }
    Lineage { parents }
}

/// A lineage in which an artifact has one parent at most.
fn tree(nodes: &[(u32, Option<u32>)]) -> Lineage {
    let nodes: Vec<(u32, Vec<u32>)> = nodes
        .iter()
        .map(|&(o, up)| (o, up.into_iter().collect()))
        .collect();
    dag(&nodes)
}

/// Served artifacts with their response-local rung: the longest chain to each through the served
/// set alone.
fn with_rungs(lineage: &Lineage, served: &[(u32, u64)]) -> Vec<(u32, u64, u32)> {
    fn rung(o: u32, lineage: &Lineage, served: &[(u32, u64)]) -> u32 {
        let mut scratch = Vec::new();
        let mut best = 0;
        // The served parents in the response's forest are the nearest served ancestors on every
        // path.
        for &up in lineage.parents_of(o) {
            let mut stack = vec![up];
            while let Some(at) = stack.pop() {
                if scratch.contains(&at) {
                    continue;
                }
                scratch.push(at);
                if served.iter().any(|&(s, _)| s == at) {
                    best = best.max(rung(at, lineage, served) + 1);
                } else {
                    stack.extend_from_slice(lineage.parents_of(at));
                }
            }
        }
        best
    }
    served
        .iter()
        .map(|&(o, id)| (o, id, rung(o, lineage, served)))
        .collect()
}

/// Both routes over one level: the artifact-major form of `sets`, and the row-major form composed
/// from the same memberships.
fn both_routes(
    sets: &[Option<&[u32]>],
    row_count: u32,
    lineage: &Lineage,
    served: &[(u32, u64)],
) -> (ServedLayer, ServedLayer) {
    let served_artifacts = || -> Vec<ServedArtifact> {
        with_rungs(lineage, served)
            .into_iter()
            .map(|(ordinal, id, rung)| ServedArtifact { ordinal, id, rung })
            .collect()
    };
    let artifact_major =
        LevelRows::ArtifactMajor(sets.iter().map(|set| set.map(Bitmap::of)).collect());
    let row_major = LevelRows::RowMajor(
        (0..row_count)
            .map(|row| {
                (0..sets.len() as u32)
                    .filter(|&o| sets[o as usize].is_some_and(|m| m.contains(&row)))
                    .collect()
            })
            .collect(),
    );
    let layer = |rows: LevelRows| ServedLayer {
        name: "layer".to_string(),
        levels: vec![ServedLevel {
            level: 0,
            rows,
            lineage: Lineage {
                parents: lineage.parents.clone(),
            },
            served: served_artifacts(),
        }],
    };
    (layer(artifact_major), layer(row_major))
}

/// The rule, written the obvious way: over the served artifacts holding the row, the deepest by
/// response-local rung, then the lowest identifier.
fn expected(
    sets: &[Option<&[u32]>],
    lineage: &Lineage,
    served: &[(u32, u64)],
    row: u32,
) -> Option<u64> {
    with_rungs(lineage, served)
        .into_iter()
        .filter(|&(o, _, _)| sets[o as usize].is_some_and(|m| m.contains(&row)))
        .map(|(_, id, rung)| (rung, Reverse(id), id))
        .max()
        .map(|(_, _, id)| id)
}

fn column_of(layer: ServedLayer, rows: &[u32]) -> Vec<Option<u64>> {
    Resolved::new(rows.to_vec(), &vec![layer]).columns_for(rows)[0]
        .ids
        .clone()
}

fn assert_both_routes_agree(
    sets: &[Option<&[u32]>],
    row_count: u32,
    lineage: &Lineage,
    served: &[(u32, u64)],
) {
    let (artifact_major, row_major) = both_routes(sets, row_count, lineage, served);
    let rows: Vec<u32> = (0..row_count).collect();
    let a = column_of(artifact_major, &rows);
    let r = column_of(row_major, &rows);
    let want: Vec<Option<u64>> = rows
        .iter()
        .map(|&row| expected(sets, lineage, served, row))
        .collect();
    assert_eq!(a, want, "the artifact-major route disagrees with the rule");
    assert_eq!(r, want, "the row-major route disagrees with the rule");
}

/// `R → X → A` and `R → B`, a point held by all three, `X` withheld: `A` and `B` tie at one rung
/// and `B` wins, as in the world where `X` never existed.
#[test]
fn a_withheld_node_does_not_rank_a_served_artifact_deeper() {
    const R: u32 = 0;
    const X: u32 = 1;
    const A: u32 = 2;
    const B: u32 = 3;
    let with_x = tree(&[(R, None), (X, Some(R)), (A, Some(X)), (B, Some(R))]);
    let without_x = tree(&[(R, None), (A, Some(R)), (B, Some(R))]);
    let sets: [Option<&[u32]>; 4] = [
        Some(&[0, 1, 2]),
        Some(&[0, 1]),
        Some(&[0, 1]),
        Some(&[0, 2]),
    ];
    let sets_without: [Option<&[u32]>; 4] =
        [Some(&[0, 1, 2]), None, Some(&[0, 1]), Some(&[0, 2])];
    let served = [(R, 10), (A, 30), (B, 20)];
    assert_both_routes_agree(&sets, 3, &with_x, &served);
    assert_both_routes_agree(&sets_without, 3, &without_x, &served);
    let rows: Vec<u32> = (0..3).collect();
    let column = |sets: &[Option<&[u32]>], lineage: &Lineage| {
        let (artifact_major, row_major) = both_routes(sets, 3, lineage, &served);
        (
            column_of(artifact_major, &rows),
            column_of(row_major, &rows),
        )
    };
    let (a1, r1) = column(&sets, &with_x);
    let (a2, r2) = column(&sets_without, &without_x);
    assert_eq!(
        a1,
        vec![Some(20), Some(30), Some(20)],
        "row 0 is in A and B at one rung and names the lower id; row 1 is in A alone"
    );
    assert_eq!(a1, a2, "the same answer with and without X, artifact-major");
    assert_eq!(r1, r2, "and row-major");
    assert_eq!(a1, r1);
}

/// A flat layer with overlapping artifacts ties by the lowest identifier, on both routes.
#[test]
fn a_flat_overlap_names_the_lowest_identifier_on_both_routes() {
    let sets: [Option<&[u32]>; 3] = [Some(&[0, 1, 2, 3]), Some(&[2, 3, 4]), Some(&[3, 5])];
    let lineage = tree(&[(0, None), (1, None), (2, None)]);
    // Identifiers deliberately out of ordinal order: the lowest id is ordinal 1, not 0.
    let served = [(0, 300), (1, 100), (2, 200)];
    assert_both_routes_agree(&sets, 6, &lineage, &served);
    let (artifact_major, _) = both_routes(&sets, 6, &lineage, &served);
    let rows: Vec<u32> = (0..6).collect();
    let ids = column_of(artifact_major, &rows);
    assert_eq!(
        ids,
        vec![
            Some(300),
            Some(300),
            Some(100),
            Some(100),
            Some(100),
            Some(200)
        ],
        "row 2 is in ordinals 0 and 1 and names the lower identifier; row 3 is in all three"
    );
}

/// On a DAG two served artifacts may hold a point at one depth, and the row-major search reaches a
/// served ancestor on a second path: `0 → {1, 2} → 3`, memberships closed upward.
#[test]
fn a_dag_ties_by_depth_then_identifier_and_searches_every_path() {
    let lineage = dag(&[
        (0, vec![]),
        (1, vec![0]),
        (2, vec![0]),
        (3, vec![1, 2]),
        (4, vec![1]),
    ]);
    // 3's members are in both 1 and 2; 4's are in 1 only; 0 holds everything and row 9.
    let sets: [Option<&[u32]>; 5] = [
        Some(&[0, 1, 2, 3, 4, 5, 9]),
        Some(&[0, 1, 2, 4, 5]),
        Some(&[0, 1, 2, 3]),
        Some(&[0, 1, 2]),
        Some(&[4, 5]),
    ];
    // The cut served 1 and 2 (the same depth) and the root; 3 and 4 were cut away.
    let served = [(0, 10), (1, 22), (2, 21)];
    assert_both_routes_agree(&sets, 10, &lineage, &served);
    let (_, row_major) = both_routes(&sets, 10, &lineage, &served);
    let rows: Vec<u32> = (0..10).collect();
    let ids = column_of(row_major, &rows);
    assert_eq!(
        ids[0..3],
        [Some(21), Some(21), Some(21)],
        "a member of 3 is held by 1 and 2 at one depth, and 2 has the lower identifier"
    );
    assert_eq!(ids[3], Some(21), "a member of 2 alone");
    assert_eq!(ids[4..6], [Some(22), Some(22)], "a member of 4 climbs to 1");
    assert_eq!(ids[9], Some(10), "a member of the root alone");
    assert_eq!(ids[6..9], [None, None, None], "held by nothing served");

    // Serving 3 as well: it is deeper than both, so it wins where it holds the point.
    let served = [(0, 10), (1, 22), (2, 21), (3, 99)];
    assert_both_routes_agree(&sets, 10, &lineage, &served);
}

/// Random DAGs with memberships closed upward, random served subsets, both routes against the rule.
#[test]
fn the_two_routes_agree_over_random_closed_dags() {
    let mut state = 0x5EEDu64;
    let mut next = move || {
        state = state.wrapping_add(0x9E37_79B9_7F4A_7C15);
        let mut z = state;
        z = (z ^ (z >> 30)).wrapping_mul(0xBF58_476D_1CE4_E5B9);
        z = (z ^ (z >> 27)).wrapping_mul(0x94D0_49BB_1331_11EB);
        z ^ (z >> 31)
    };
    for _ in 0..100 {
        let n = 2 + (next() % 12) as u32;
        let parents: Vec<Vec<u32>> = (0..n)
            .map(|o| {
                let mut ups = Vec::new();
                if o > 0 && next() % 4 != 0 {
                    ups.push((next() % o as u64) as u32);
                    if next() % 2 == 0 {
                        ups.push((next() % o as u64) as u32);
                    }
                }
                ups.sort_unstable();
                ups.dedup();
                ups
            })
            .collect();
        let lineage = Lineage {
            parents: parents.clone(),
        };
        // Each node's own rows, and its descendants'.
        let own: Vec<Vec<u32>> = (0..n).map(|o| vec![o * 2, o * 2 + 1]).collect();
        let mut closed: Vec<Vec<u32>> = own.clone();
        for o in (0..n as usize).rev() {
            let mine = closed[o].clone();
            let mut stack = parents[o].clone();
            let mut seen = Vec::new();
            while let Some(up) = stack.pop() {
                if seen.contains(&up) {
                    continue;
                }
                seen.push(up);
                closed[up as usize].extend_from_slice(&mine);
                stack.extend_from_slice(&parents[up as usize]);
            }
        }
        for members in &mut closed {
            members.sort_unstable();
            members.dedup();
        }
        let sets: Vec<Option<&[u32]>> = closed.iter().map(|m| Some(m.as_slice())).collect();
        let served: Vec<(u32, u64)> = (0..n)
            .filter(|_| next() % 2 == 0)
            .map(|o| (o, 1000 - o as u64))
            .collect();
        if served.is_empty() {
            continue;
        }
        assert_both_routes_agree(&sets, n * 2, &lineage, &served);
    }
}

#[test]
fn a_deeper_level_outranks_a_shallower_one() {
    let rank = |level, rung, id| Rank { level, rung, id };
    assert!(rank(1, 0, 9).outranks(&rank(0, 5, 1)));
    assert!(rank(0, 2, 9).outranks(&rank(0, 1, 1)));
    assert!(rank(0, 1, 1).outranks(&rank(0, 1, 9)));
    assert!(!rank(0, 1, 9).outranks(&rank(0, 1, 9)));

    let served = vec![ServedArtifact {
        ordinal: 4,
        id: 40,
        rung: 2,
    }];
    assert_eq!(rank_of(3, &served, 4), Some(rank(3, 2, 40)));
    assert_eq!(rank_of(3, &served, 5), None);
    let lineage = dag(&[(4, vec![]), (5, vec![4]), (6, vec![5])]);
    assert_eq!(
        lineage.select_ancestor(6, 3, &served),
        Some(rank(3, 2, 40)),
        "an ancestor is reached through one withheld"
    );
    assert_eq!(lineage.select_ancestor(0, 3, &served), None);
}

/// A layer with nothing served has no column, and a chunk of the response's rows reads its part.
#[test]
fn a_column_is_read_for_a_part_of_the_rows() {
    let sets: [Option<&[u32]>; 1] = [Some(&[2, 3])];
    let lineage = tree(&[(0, None)]);
    let (layer, _) = both_routes(&sets, 4, &lineage, &[(0, 7)]);
    let unserved = ServedLayer {
        name: "unserved".to_string(),
        levels: vec![],
    };
    let resolved = Resolved::new(vec![3, 1, 3], &vec![unserved, layer]);
    assert!(!resolved.is_empty());
    assert_eq!(resolved.rows, vec![1, 3], "ascending, each once");
    let columns = resolved.columns_for(&[3, 0, 1]);
    assert_eq!(columns.len(), 1);
    assert_eq!(columns[0].layer, "layer");
    assert_eq!(columns[0].ids, vec![Some(7), None, None]);
    assert_eq!(resolved.empty_columns()[0].ids, Vec::<Option<u64>>::new());
    assert!(Resolved::new(vec![1], &vec![]).is_empty());
}
