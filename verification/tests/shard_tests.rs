use forum_threads::shard::ShardPlanner;

#[test]
fn everything_fits_one_shard() {
    let mut planner = ShardPlanner::new(10);
    assert_eq!(planner.place(2), 0);
    assert_eq!(planner.place(3), 0);
    assert_eq!(planner.place(5), 0);
}

#[test]
fn uniform_records_fill_to_the_ceiling() {
    // total 10 bytes over a 4-byte budget: ceil(10 / 4) = 3 shard files
    let mut planner = ShardPlanner::new(4);
    assert_eq!(planner.place(2), 0);
    assert_eq!(planner.place(2), 0);
    assert_eq!(planner.place(2), 1);
    assert_eq!(planner.place(2), 1);
    assert_eq!(planner.place(2), 2);
}

#[test]
fn greedy_split_can_exceed_the_ceiling() {
    // total 18 bytes over a 10-byte budget: the ceiling would be 2 files,
    // but no two of these records fit one file together, so three open
    let mut planner = ShardPlanner::new(10);
    assert_eq!(planner.place(6), 0);
    assert_eq!(planner.place(6), 1);
    assert_eq!(planner.place(6), 2);
}

#[test]
fn oversize_record_sits_alone() {
    let mut planner = ShardPlanner::new(5);
    assert_eq!(planner.place(3), 0);
    assert_eq!(planner.place(9), 1);
    assert_eq!(planner.place(2), 2);
}

#[test]
fn boundary_fill_is_kept_in_shard() {
    let mut planner = ShardPlanner::new(6);
    assert_eq!(planner.place(3), 0);
    assert_eq!(planner.place(3), 0);
    assert_eq!(planner.place(1), 1);
}
