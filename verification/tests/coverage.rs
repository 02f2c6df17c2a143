use greybox::block_cov::BlockCoverage;
use greybox::cfg::CfgIndex;
use greybox::edge_cov::EdgeCoverage;
use greybox::feedback::CoverageFeedback;
use greybox::metrics::{
    get_coverage_metric_by_name, get_metric_priority, summarize_coverage, validate_coverage_type,
    CoverageDump, CoverageMetric, CoverageMetricAggregator,
};
use greybox::per_function::PerFunctionPathCoverage;
use greybox::raw_path_cov::RawPathCoverage;

#[test]
fn block_coverage_reports_new_then_old() {
    let mut cov = BlockCoverage::new();
    let fb = cov.update_from_path(&vec![1, 2, 3]);
    assert_eq!(fb, CoverageFeedback::NewBlock { uniqueness: 1 });
    let fb2 = cov.update_from_path(&vec![1, 2, 3]);
    assert_eq!(fb2, CoverageFeedback::NoCoverage(2));
}

#[test]
fn block_uniqueness_is_min_post_update_count() {
    let mut cov = BlockCoverage::new();
    // Block 5 is hit twice: the running minimum sees counts 1 then 2.
    assert_eq!(
        cov.update_from_path(&vec![5, 5]),
        CoverageFeedback::NewBlock { uniqueness: 1 }
    );
    // Second observation: counts climb to 3 and 4; the minimum seen is 3.
    assert_eq!(
        cov.update_from_path(&vec![5, 5]),
        CoverageFeedback::NoCoverage(3)
    );
}

#[test]
fn block_hit_counts_accumulate() {
    let mut cov = BlockCoverage::new();
    cov.update_from_path(&vec![1, 2, 1]);
    cov.update_from_path(&vec![1, 3]);
    let full = cov.full_cov();
    let mut hits = std::collections::HashMap::new();
    for (b, c) in full {
        hits.insert(b, c);
    }
    assert_eq!(hits.get(&1), Some(&3));
    assert_eq!(hits.get(&2), Some(&1));
    assert_eq!(hits.get(&3), Some(&1));
    assert_eq!(cov.cov_info(), 3);
}

#[test]
fn block_empty_trace_is_no_coverage_with_sentinel() {
    let mut cov = BlockCoverage::new();
    let fb = cov.update_from_path(&vec![]);
    assert_eq!(fb, CoverageFeedback::NoCoverage(usize::MAX));
    assert_eq!(cov.cov_info(), 0);
}

#[test]
fn edge_coverage_reports_new_then_old() {
    let mut cov = EdgeCoverage::new();
    let fb = cov.update_from_path(&vec![1, 2, 3]);
    assert_eq!(fb, CoverageFeedback::NewEdge { uniqueness: 1 });
    let fb2 = cov.update_from_path(&vec![1, 2, 3]);
    assert_eq!(fb2, CoverageFeedback::NoCoverage(2));
    assert_eq!(cov.cov_info(), 2);
}

#[test]
fn edge_single_block_trace_has_no_edges() {
    let mut cov = EdgeCoverage::new();
    let fb = cov.update_from_path(&vec![7]);
    assert_eq!(fb, CoverageFeedback::NoCoverage(usize::MAX));
    assert_eq!(cov.cov_info(), 0);
}

#[test]
fn edge_full_cov_lists_pairs() {
    let mut cov = EdgeCoverage::new();
    cov.update_from_path(&vec![1, 2, 1, 2]);
    let full = cov.full_cov();
    let mut counts = std::collections::HashMap::new();
    for (s, d, c) in full {
        counts.insert((s, d), c);
    }
    assert_eq!(counts.get(&(1, 2)), Some(&2));
    assert_eq!(counts.get(&(2, 1)), Some(&1));
}

#[test]
fn rawpath_new_path_once() {
    let mut cov = RawPathCoverage::new();
    assert_eq!(
        cov.update_from_path(&vec![1, 2, 3]),
        CoverageFeedback::NewPath { uniqueness: 0 }
    );
    assert_eq!(
        cov.update_from_path(&vec![1, 2, 3]),
        CoverageFeedback::NoCoverage(0)
    );
    // A different order is a different path.
    assert_eq!(
        cov.update_from_path(&vec![3, 2, 1]),
        CoverageFeedback::NewPath { uniqueness: 0 }
    );
    assert_eq!(cov.cov_info(), 2);
}

#[test]
fn rawpath_empty_trace_changes_nothing() {
    let mut cov = RawPathCoverage::new();
    assert_eq!(cov.update_from_path(&vec![]), CoverageFeedback::NoCoverage(0));
    assert_eq!(cov.cov_info(), 0);
}

#[test]
fn per_function_feedback_prefers_blocks_then_edges_then_paths() {
    let mut pfp = PerFunctionPathCoverage::empty();
    pfp.insert_function(1, vec![3]);
    // First observation: fresh blocks win.
    let fb = pfp.update_from_path(&vec![1, 2, 2, 2, 3]).unwrap();
    assert_eq!(fb, CoverageFeedback::NewBlock { uniqueness: 1 });
    // Same trace again: blocks, edges and the reduced path are all old.
    let fb2 = pfp.update_from_path(&vec![1, 2, 2, 2, 3]).unwrap();
    assert!(matches!(fb2, CoverageFeedback::NoCoverage(_)));
    // Same blocks and edges, but a new reduced path: one loop iteration.
    // The uniqueness is the edge metric's: edges (1,2) and (2,3) reach
    // post-update counts 3 and 3, so the minimum is 3.
    let fb3 = pfp.update_from_path(&vec![1, 2, 3]).unwrap();
    assert_eq!(fb3, CoverageFeedback::NewPath { uniqueness: 3 });
}

#[test]
fn per_function_digest_set_after_collapse() {
    // One function, entry 1, exit 3; trace [1,2,2,2,3] under K = 2 leaves
    // exactly one digest, the one of the reduced trace [1,2,2,3].
    let mut pfp = PerFunctionPathCoverage::empty();
    pfp.insert_function(1, vec![3]);
    pfp.update_from_path(&vec![1, 2, 2, 2, 3]).unwrap();
    assert_eq!(pfp.cov_info(), 1);
    let same = pfp.reduce_fun(&vec![1, 2, 2, 3]).unwrap();
    assert!(!same);
    assert_eq!(pfp.cov_info(), 1);
}

#[test]
fn per_function_empty_trace_is_no_coverage() {
    let mut pfp = PerFunctionPathCoverage::empty();
    pfp.insert_function(1, vec![2]);
    let fb = pfp.update_from_path(&vec![]).unwrap();
    assert_eq!(fb, CoverageFeedback::NoCoverage(usize::MAX));
    assert_eq!(pfp.cov_info(), 0);
}

#[test]
fn metric_names_and_priorities() {
    let cfg = CfgIndex::new();
    let m = get_coverage_metric_by_name("block", cfg).unwrap();
    assert_eq!(m.name(), "block");
    assert_eq!(m.priority(), 100);
    let m = get_coverage_metric_by_name("edge", CfgIndex::new()).unwrap();
    assert_eq!(m.name(), "edge");
    assert_eq!(m.priority(), 90);
    let m = get_coverage_metric_by_name("path", CfgIndex::new()).unwrap();
    assert_eq!(m.name(), "path");
    assert_eq!(m.priority(), 20);
    // The alias selects the same metric, under the same name.
    let m = get_coverage_metric_by_name("pfp", CfgIndex::new()).unwrap();
    assert_eq!(m.name(), "path");
    let m = get_coverage_metric_by_name("rawpath", CfgIndex::new()).unwrap();
    assert_eq!(m.name(), "rawpath");
    assert_eq!(m.priority(), 10);
    assert!(get_coverage_metric_by_name("bogus", CfgIndex::new()).is_none());
    assert_eq!(get_metric_priority("block"), 100);
    assert_eq!(get_metric_priority("edge"), 90);
    assert_eq!(get_metric_priority("path"), 20);
    assert_eq!(get_metric_priority("pfp"), 20);
    assert_eq!(get_metric_priority("rawpath"), 10);
    assert_eq!(get_metric_priority("bogus"), 0);
}

#[test]
fn validate_coverage_type_accepts_known_names() {
    assert_eq!(validate_coverage_type("block").unwrap(), "block");
    assert_eq!(validate_coverage_type("edge").unwrap(), "edge");
    assert_eq!(validate_coverage_type("path").unwrap(), "path");
    assert_eq!(
        validate_coverage_type("bogus").unwrap_err(),
        "Invalid coverage type: bogus"
    );
}

#[test]
fn aggregator_reports_each_metric() {
    let block = get_coverage_metric_by_name("block", CfgIndex::new()).unwrap();
    let edge = get_coverage_metric_by_name("edge", CfgIndex::new()).unwrap();
    let mut agg = CoverageMetricAggregator::new(vec![block, edge]);
    assert!(agg.ready_for(3));
    let fbs = agg.update_from_path(&vec![1, 2, 3]).unwrap();
    assert_eq!(fbs.len(), 2);
    assert_eq!(fbs[0].0, "block");
    assert_eq!(fbs[0].1, CoverageFeedback::NewBlock { uniqueness: 1 });
    assert_eq!(fbs[1].0, "edge");
    assert_eq!(fbs[1].1, CoverageFeedback::NewEdge { uniqueness: 1 });
    let fbs2 = agg.update_from_path(&vec![1, 2, 3]).unwrap();
    assert_eq!(fbs2[0].1, CoverageFeedback::NoCoverage(2));
    assert_eq!(fbs2[1].1, CoverageFeedback::NoCoverage(2));
    let info = agg.cov_info();
    assert_eq!(info[0], ("block", 3));
    assert_eq!(info[1], ("edge", 2));
}

#[test]
fn aggregator_observes_with_per_function_metric() {
    let mut cfg = CfgIndex::new();
    cfg.insert_function(1, vec![3]);
    let pfp = get_coverage_metric_by_name("pfp", cfg).unwrap();
    let mut agg = CoverageMetricAggregator::new(vec![pfp]);
    let fbs = agg.update_from_path(&vec![1, 2, 3]).unwrap();
    assert_eq!(fbs[0].1, CoverageFeedback::NewBlock { uniqueness: 1 });
}

#[test]
fn path_metric_drives_queue_decisions() {
    // A fuzzer configured to track and use path coverage: the metric's
    // feedback must match the configured name, so new coverage triggers a
    // save.
    let mut cfg = CfgIndex::new();
    cfg.insert_function(1, vec![4]);
    let path_metric = get_coverage_metric_by_name("path", cfg).unwrap();
    let mut agg = CoverageMetricAggregator::new(vec![path_metric]);
    let use_cov = vec![String::from("path")];
    let fbs = agg.update_from_path(&vec![1, 2, 3, 4]).unwrap();
    assert_eq!(fbs[0].0, "path");
    let (any, prio) = summarize_coverage(&fbs, &use_cov);
    assert!(any);
    assert_eq!(prio, 5);
    // Re-observing yields nothing new under the same configuration.
    let fbs2 = agg.update_from_path(&vec![1, 2, 3, 4]).unwrap();
    let (any2, _) = summarize_coverage(&fbs2, &use_cov);
    assert!(!any2);
    // Cover the remaining edges, then a new reduced path built of old
    // blocks and old edges triggers at the path rank.
    agg.update_from_path(&vec![1, 3, 2, 4]).unwrap();
    let fbs3 = agg.update_from_path(&vec![1, 2, 3, 2, 4]).unwrap();
    assert!(matches!(fbs3[0].1, CoverageFeedback::NewPath { .. }));
    let (any3, prio3) = summarize_coverage(&fbs3, &use_cov);
    assert!(any3);
    assert_eq!(prio3, 3);
}

#[test]
fn projection_takes_the_highest_rank_in_use() {
    let fbs: Vec<(&'static str, CoverageFeedback)> = vec![
        ("block", CoverageFeedback::NewBlock { uniqueness: 1 }),
        ("edge", CoverageFeedback::NoCoverage(2)),
    ];
    let use_cov = vec![String::from("block"), String::from("edge")];
    let (any, prio) = summarize_coverage(&fbs, &use_cov);
    assert!(any);
    assert_eq!(prio, 5);
    // With only the edge metric configured, nothing new is seen.
    let use_edge = vec![String::from("edge")];
    let (any2, prio2) = summarize_coverage(&fbs, &use_edge);
    assert!(!any2);
    assert_eq!(prio2, 2);
    // A metric outside the configured subset is ignored entirely.
    let use_none: Vec<String> = vec![];
    let (any3, prio3) = summarize_coverage(&fbs, &use_none);
    assert!(!any3);
    assert_eq!(prio3, 0);
}

#[test]
fn aggregator_full_cov_dumps_block_and_edge_tables() {
    let block = get_coverage_metric_by_name("block", CfgIndex::new()).unwrap();
    let edge = get_coverage_metric_by_name("edge", CfgIndex::new()).unwrap();
    let raw = get_coverage_metric_by_name("rawpath", CfgIndex::new()).unwrap();
    let mut agg = CoverageMetricAggregator::new(vec![block, edge, raw]);
    agg.update_from_path(&vec![1, 2]).unwrap();
    let dumps = agg.full_cov();
    // The raw-path metric has no full representation; the other two do.
    assert_eq!(dumps.len(), 2);
    assert_eq!(dumps[0].0, "block");
    match &dumps[0].1 {
        CoverageDump::Blocks(pairs) => {
            let mut sorted = pairs.clone();
            sorted.sort();
            assert_eq!(sorted, vec![(1, 1), (2, 1)]);
        }
        _ => panic!("expected a block dump"),
    }
    assert_eq!(dumps[1].0, "edge");
    match &dumps[1].1 {
        CoverageDump::Edges(triples) => assert_eq!(triples, &vec![(1, 2, 1)]),
        _ => panic!("expected an edge dump"),
    }
}

#[test]
fn ready_for_guards_overflow() {
    let m = CoverageMetric::Block(BlockCoverage::new());
    assert!(m.ready_for(usize::MAX));
    let mut b = BlockCoverage::new();
    b.update_from_path(&vec![1]);
    let m = CoverageMetric::Block(b);
    assert!(!m.ready_for(usize::MAX));
}
