use noahroboros::backtest::curves::merge_plan;
use noahroboros::backtest::grouping::group_by_symbol;
use noahroboros::sorting::stable_order_by_key;

#[test]
fn stable_order_sorts_by_key_keeping_ties_in_order() {
    assert_eq!(stable_order_by_key(&vec![3, 1, 3, 2, 1]), vec![1, 4, 3, 0, 2]);
    assert_eq!(stable_order_by_key(&vec![]), Vec::<usize>::new());
    assert_eq!(stable_order_by_key(&vec![5]), vec![0]);
    assert_eq!(stable_order_by_key(&vec![-4, i64::MAX, i64::MIN, 0]), vec![2, 0, 3, 1]);
}

#[test]
fn stable_order_matches_std_sort_by_key() {
    let keys: Vec<i64> = (0..500).map(|i| ((i * 7919) % 37) as i64 - 18).collect();
    let mut expected: Vec<usize> = (0..keys.len()).collect();
    expected.sort_by_key(|&i| keys[i]);
    assert_eq!(stable_order_by_key(&keys), expected);
}

#[test]
fn groups_by_symbol_in_symbol_order() {
    let symbols: Vec<String> =
        ["ETHUSDT", "BTCUSDT", "ETHUSDT", "SOLUSDT", "BTCUSDT"].iter().map(|s| s.to_string()).collect();
    let groups = group_by_symbol(&symbols);
    let summary: Vec<(String, Vec<usize>)> =
        groups.into_iter().map(|g| (g.symbol, g.members)).collect();
    assert_eq!(
        summary,
        vec![
            ("BTCUSDT".to_string(), vec![1, 4]),
            ("ETHUSDT".to_string(), vec![0, 2]),
            ("SOLUSDT".to_string(), vec![3]),
        ]
    );
}

#[test]
fn groups_order_like_string_ord() {
    let symbols: Vec<String> = ["b", "a", "ab", "B", "", "a"].iter().map(|s| s.to_string()).collect();
    let names: Vec<String> = group_by_symbol(&symbols).into_iter().map(|g| g.symbol).collect();
    let mut expected: Vec<String> = symbols.clone();
    expected.sort();
    expected.dedup();
    assert_eq!(names, expected);
    assert!(group_by_symbol(&vec![]).is_empty());
}

#[test]
fn merge_plan_single_curve_is_identity() {
    let plan = merge_plan(&vec![vec![5, 5, 7]]);
    assert_eq!(plan.timestamps, vec![5, 5, 7]);
    assert_eq!(plan.picks, vec![vec![Some(0)], vec![Some(1)], vec![Some(2)]]);
}

#[test]
fn merge_plan_takes_latest_bar_of_each_curve() {
    let plan = merge_plan(&vec![vec![1, 3, 5], vec![2, 3, 6]]);
    assert_eq!(plan.timestamps, vec![1, 2, 3, 5, 6]);
    assert_eq!(
        plan.picks,
        vec![
            vec![Some(0), Some(0)],
            vec![Some(0), Some(0)],
            vec![Some(1), Some(1)],
            vec![Some(2), Some(1)],
            vec![Some(2), Some(2)],
        ]
    );
}

#[test]
fn merge_plan_empty_inputs() {
    let plan = merge_plan(&vec![]);
    assert!(plan.timestamps.is_empty() && plan.picks.is_empty());
    let plan = merge_plan(&vec![vec![4], vec![]]);
    assert_eq!(plan.timestamps, vec![4]);
    assert_eq!(plan.picks, vec![vec![Some(0), None]]);
}
