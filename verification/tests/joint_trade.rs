use infra_core::joint_trade::{first_mask_disjoint_tuple, tuple_masks_are_disjoint, JointTradeRow};

fn row(_stable_id: u64, bits: u64) -> JointTradeRow {
    JointTradeRow {
        logical_mask: vec![bits],
    }
}

fn brute_force_first(lists: &[Vec<JointTradeRow>], prefix_mask: &[u64]) -> Option<Vec<usize>> {
    fn visit(
        lists: &[Vec<JointTradeRow>],
        prefix_mask: &[u64],
        indices: &mut Vec<usize>,
    ) -> Option<Vec<usize>> {
        if indices.len() == lists.len() {
            return if tuple_masks_are_disjoint(lists, indices, prefix_mask) {
                Some(indices.clone())
            } else {
                None
            };
        }
        for index in 0..lists[indices.len()].len() {
            indices.push(index);
            if let Some(found) = visit(lists, prefix_mask, indices) {
                return Some(found);
            }
            indices.pop();
        }
        None
    }
    visit(lists, prefix_mask, &mut Vec::new())
}

#[test]
fn indexed_join_matches_brute_force_for_two_and_three_rooms() {
    let two_rooms = vec![
        vec![row(0, 0b0001), row(1, 0b0010), row(2, 0b0100)],
        vec![row(3, 0b0001), row(4, 0b1000)],
    ];
    assert_eq!(
        first_mask_disjoint_tuple(&two_rooms, &[]),
        brute_force_first(&two_rooms, &[])
    );

    let three_rooms = vec![
        vec![row(0, 0b0001), row(1, 0b0010)],
        vec![row(2, 0b0001), row(3, 0b0100)],
        vec![row(4, 0b0100), row(5, 0b1000)],
    ];
    assert_eq!(
        first_mask_disjoint_tuple(&three_rooms, &[0b0010]),
        brute_force_first(&three_rooms, &[0b0010])
    );
}

#[test]
fn indexed_join_matches_brute_force_at_dimension_and_width_boundaries() {
    assert_eq!(
        first_mask_disjoint_tuple(&[], &[u64::MAX]),
        Some(Vec::new())
    );
    assert_eq!(first_mask_disjoint_tuple(&[Vec::new()], &[]), None);

    let one_room = vec![vec![
        JointTradeRow {
            logical_mask: vec![0, 0b1],
        },
        JointTradeRow {
            logical_mask: vec![0b1],
        },
    ]];
    assert_eq!(
        first_mask_disjoint_tuple(&one_room, &[0, 0b1]),
        brute_force_first(&one_room, &[0, 0b1])
    );

    let four_rooms = vec![
        vec![row(0, 0b0001), row(1, 0b0010)],
        vec![row(2, 0b0001), row(3, 0b0100)],
        vec![row(4, 0b0100), row(5, 0b1000)],
        vec![row(6, 0b1000), row(7, 0b1_0000)],
    ];
    assert_eq!(
        first_mask_disjoint_tuple(&four_rooms, &[]),
        brute_force_first(&four_rooms, &[])
    );
}

#[test]
fn complete_lists_find_winner_that_local_top_one_loses() {
    let complete = vec![
        vec![row(0, 0b0001), row(1, 0b0010)],
        vec![row(2, 0b0011), row(3, 0b0100)],
    ];
    assert_eq!(first_mask_disjoint_tuple(&complete, &[]), Some(vec![0, 1]));

    let top_one = complete
        .iter()
        .map(|list| vec![list[0].clone()])
        .collect::<Vec<_>>();
    assert_eq!(first_mask_disjoint_tuple(&top_one, &[]), None);
}

#[test]
fn prefix_mask_is_a_hard_constraint() {
    let lists = vec![vec![row(0, 0b0001), row(1, 0b0010)]];
    assert_eq!(first_mask_disjoint_tuple(&lists, &[0b0001]), Some(vec![1]));
}

#[test]
fn first_tuple_skips_colliding_prefixes_in_lexicographic_order() {
    let lists = vec![
        vec![row(0, 0b0011), row(1, 0b0100)],
        vec![row(2, 0b0001), row(3, 0b0010), row(4, 0b1000)],
    ];
    // (0,0) and (0,1) collide on the first room's bits; (0,2) is the first fit.
    assert_eq!(first_mask_disjoint_tuple(&lists, &[]), Some(vec![0, 2]));
    assert!(!tuple_masks_are_disjoint(&lists, &[0, 0], &[]));
    assert!(tuple_masks_are_disjoint(&lists, &[1, 0], &[]));
    assert!(!tuple_masks_are_disjoint(&lists, &[1, 0], &[0b0100]));
}

#[test]
fn disjointness_ignores_rooms_past_the_shorter_input() {
    let lists = vec![vec![row(0, 0b01)], vec![row(1, 0b01)]];
    assert!(tuple_masks_are_disjoint(&lists, &[0], &[]));
    assert!(!tuple_masks_are_disjoint(&lists, &[0, 0], &[]));
}
