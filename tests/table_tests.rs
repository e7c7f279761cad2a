use custom_ecs::{NodeBundle, NodeFilter, NodeId, Table, TableError};

fn filter(get: &[usize], with: &[usize], without: &[usize]) -> NodeFilter {
    NodeFilter::new(&get.to_vec(), &with.to_vec(), &without.to_vec())
}

fn rows(bundles: &[NodeBundle]) -> Vec<usize> {
    bundles.iter().map(|b| b.id()).collect()
}

fn sample_table() -> Table {
    let mut table = Table::new();
    table.enable_node([0, 0]).unwrap();
    table.enable_node([1, 0]).unwrap();
    table.enable_node([1, 1]).unwrap();
    table.enable_node([0, 2]).unwrap();
    table
}

#[test]
pub fn table_test() -> Result<(), TableError> {
    let mut new_table = Table::new();

    new_table.enable_node([0, 0])?;
    new_table.enable_node([1, 0])?;
    new_table.enable_node([1, 1])?;
    new_table.enable_node([0, 2])?;
    let node_bundles = new_table.get_dimension_at_indices(1, filter(&[0], &[], &[2]))?;
    println!("{:?}", node_bundles);

    Ok(())
}

#[test]
fn component_hash() {
    // Two component types are two distinct column identifiers, kept apart.
    let health_bar: usize = 11;
    let health: usize = 12;
    let mut table = Table::new();
    table.enable_node([0, health_bar]).unwrap();
    table.enable_node([0, health]).unwrap();
    assert_eq!(table.size(), 2);
    let bars = table.get_dimension_at_indices(1, filter(&[health_bar], &[], &[])).unwrap();
    assert_eq!(bars.len(), 1);
    assert!(bars[0].contains(&NodeId::new(0, health_bar)));
    assert!(!bars[0].contains(&NodeId::new(0, health)));
}

#[test]
fn query_excludes_rows_with_a_without_column() {
    let table = sample_table();
    let bundles = table.get_dimension_at_indices(1, filter(&[0], &[], &[2])).unwrap();
    assert_eq!(rows(&bundles), vec![1]);
    assert_eq!(bundles[0].len(), 1);
    assert!(bundles[0].contains(&NodeId::new(1, 0)));
}

#[test]
fn disable_returns_the_coordinate_and_shrinks_the_table() {
    let mut table = sample_table();
    assert_eq!(table.size(), 4);
    let removed = table.disable_node(&NodeId::new(1, 1)).unwrap();
    assert_eq!(removed, NodeId::new(1, 1));
    assert_eq!(table.size(), 3);
    assert!(!table.is_enabled(&NodeId::new(1, 1)));
}

#[test]
fn enable_then_disable_restores_the_count() {
    let mut table = sample_table();
    table.enable_node([1, 1]).unwrap();
    assert_eq!(table.size(), 4);
    assert_eq!(table.disable_node(&NodeId::new(1, 1)), Ok(NodeId::new(1, 1)));
    assert_eq!(table.size(), 3);
}

#[test]
fn enable_twice_is_enable_once() {
    let mut table = sample_table();
    assert_eq!(table.enable_node([1, 1]), Ok(NodeId::new(1, 1)));
    assert_eq!(table.size(), 4);
    let bundles = table.get_dimension_at_indices(1, filter(&[1], &[], &[])).unwrap();
    assert_eq!(rows(&bundles), vec![1]);
}

#[test]
fn disable_of_unknown_coordinate_fails_and_changes_nothing() {
    let mut table = sample_table();
    assert_eq!(
        table.disable_node(&NodeId::new(5, 5)),
        Err(TableError::NoEnabledNodeForId(NodeId::new(5, 5)))
    );
    assert_eq!(table.size(), 4);
    let bundles = table.get_dimension_at_indices(1, filter(&[0], &[], &[])).unwrap();
    assert_eq!(rows(&bundles), vec![0, 1]);
}

#[test]
fn query_on_a_bad_axis_fails() {
    let table = sample_table();
    assert!(matches!(
        table.get_dimension_at_indices(2, filter(&[0], &[], &[])),
        Err(TableError::DimensionOutOfBounds(2))
    ));
}

#[test]
fn query_with_required_column_returns_only_get_coordinates() {
    let table = sample_table();
    let bundles = table.get_dimension_at_indices(1, filter(&[0], &[1], &[])).unwrap();
    assert_eq!(rows(&bundles), vec![1]);
    assert_eq!(bundles[0].len(), 1);
    assert!(bundles[0].contains(&NodeId::new(1, 0)));
    assert!(!bundles[0].contains(&NodeId::new(1, 1)));
}

#[test]
fn query_returns_rows_in_increasing_order() {
    let mut table = Table::new();
    for row in [7usize, 3, 9, 0, 5] {
        table.enable_node([row, 4]).unwrap();
    }
    table.enable_node([3, 6]).unwrap();
    let bundles = table.get_dimension_at_indices(1, filter(&[4, 6], &[], &[])).unwrap();
    assert_eq!(rows(&bundles), vec![3]);
    assert_eq!(bundles[0].len(), 2);
    let all = table.get_dimension_at_indices(1, filter(&[4], &[], &[])).unwrap();
    assert_eq!(rows(&all), vec![0, 3, 5, 7, 9]);
}

#[test]
fn query_along_rows_groups_by_column() {
    let table = sample_table();
    let bundles = table.get_dimension_at_indices(0, filter(&[0, 1], &[], &[])).unwrap();
    assert_eq!(rows(&bundles), vec![0]);
    assert!(bundles[0].contains(&NodeId::new(0, 0)));
    assert!(bundles[0].contains(&NodeId::new(1, 0)));
    let row_one = table.get_dimension_at_indices(0, filter(&[1], &[], &[])).unwrap();
    assert_eq!(rows(&row_one), vec![0, 1]);
}

#[test]
fn query_for_a_missing_column_is_empty() {
    let table = sample_table();
    let bundles = table.get_dimension_at_indices(1, filter(&[0, 8], &[], &[])).unwrap();
    assert!(bundles.is_empty());
}

#[test]
fn query_without_get_or_with_is_empty() {
    let table = sample_table();
    assert!(table.get_dimension_at_indices(1, filter(&[], &[], &[])).unwrap().is_empty());
    assert!(table.get_dimension_at_indices(1, filter(&[], &[], &[2])).unwrap().is_empty());
}

#[test]
fn column_both_got_and_excluded_matches_nothing() {
    let table = sample_table();
    assert!(table.get_dimension_at_indices(1, filter(&[0], &[], &[0])).unwrap().is_empty());
}

#[test]
fn chains_stay_whole_after_mixed_enables_and_disables() {
    let mut table = Table::new();
    for row in 0..6usize {
        for col in 0..4usize {
            if (row + col) % 2 == 0 {
                table.enable_node([row, col]).unwrap();
            }
        }
    }
    table.disable_node(&NodeId::new(2, 0)).unwrap();
    table.disable_node(&NodeId::new(0, 0)).unwrap();
    table.enable_node([1, 0]).unwrap();
    table.disable_node(&NodeId::new(5, 3)).unwrap();
    table.enable_node([0, 0]).unwrap();

    let mut expected = Vec::new();
    for row in 0..6usize {
        for col in 0..4usize {
            let on = ((row + col) % 2 == 0 && (row, col) != (2, 0) && (row, col) != (5, 3))
                || (row, col) == (1, 0);
            if on {
                expected.push((row, col));
            }
        }
    }
    assert_eq!(table.size(), expected.len());
    for col in 0..4usize {
        let bundles = table.get_dimension_at_indices(1, filter(&[col], &[], &[])).unwrap();
        let want: Vec<usize> = expected.iter().filter(|c| c.1 == col).map(|c| c.0).collect();
        assert_eq!(rows(&bundles), want);
    }
    for row in 0..6usize {
        let bundles = table.get_dimension_at_indices(0, filter(&[row], &[], &[])).unwrap();
        let want: Vec<usize> = expected.iter().filter(|c| c.0 == row).map(|c| c.1).collect();
        assert_eq!(rows(&bundles), want);
    }
}

#[test]
fn head_is_promoted_when_first_coordinate_leaves() {
    let mut table = Table::new();
    table.enable_node([2, 0]).unwrap();
    table.enable_node([4, 0]).unwrap();
    table.enable_node([6, 0]).unwrap();
    table.disable_node(&NodeId::new(2, 0)).unwrap();
    let bundles = table.get_dimension_at_indices(1, filter(&[0], &[], &[])).unwrap();
    assert_eq!(rows(&bundles), vec![4, 6]);
    table.disable_node(&NodeId::new(4, 0)).unwrap();
    table.enable_node([1, 0]).unwrap();
    let bundles = table.get_dimension_at_indices(1, filter(&[0], &[], &[])).unwrap();
    assert_eq!(rows(&bundles), vec![1, 6]);
}

#[test]
fn node_id_accessors() {
    let id = NodeId::new(3, 8);
    assert_eq!(id.row(), 3);
    assert_eq!(id.col(), 8);
}

#[test]
fn default_table_is_empty() {
    let table = Table::default();
    assert_eq!(table.size(), 0);
    assert!(!table.is_enabled(&NodeId::new(0, 0)));
}
