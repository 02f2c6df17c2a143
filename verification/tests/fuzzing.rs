use greybox::engine::{
    validate_target_cmd, CrashTracker, SeedNamer, Stats, TestCase, TestCaseQueue,
};
use greybox::feedback::CoverageFeedback;
use greybox::is_crash_signal;
use greybox::mutate::{copy_bytes, delete_range, flip_bit, insert_copy, insert_repeat, mutate, replace_byte};
use greybox::numtext::{dec_string, dec_string_padded, parse_dec_or_zero};
use greybox::trace::decode_trace;
use std::cmp::Ordering;

#[test]
fn feedback_order_by_variant_rank() {
    let nb = CoverageFeedback::NewBlock { uniqueness: 3 };
    let ne = CoverageFeedback::NewEdge { uniqueness: 0 };
    let np = CoverageFeedback::NewPath { uniqueness: 0 };
    let nc = CoverageFeedback::NoCoverage(0);
    let old = CoverageFeedback::Old(Box::new(CoverageFeedback::NewBlock { uniqueness: 0 }));
    assert_eq!(nb.cmp(&ne), Ordering::Greater);
    assert_eq!(ne.cmp(&np), Ordering::Greater);
    assert_eq!(np.cmp(&nc), Ordering::Greater);
    assert_eq!(nc.cmp(&old), Ordering::Greater);
    assert_eq!(old.cmp(&nb), Ordering::Less);
}

#[test]
fn feedback_order_rarer_wins_within_a_bucket() {
    let rare = CoverageFeedback::NewBlock { uniqueness: 1 };
    let common = CoverageFeedback::NewBlock { uniqueness: 10 };
    assert_eq!(rare.cmp(&common), Ordering::Greater);
    assert_eq!(common.cmp(&rare), Ordering::Less);
    assert_eq!(rare.cmp(&CoverageFeedback::NewBlock { uniqueness: 1 }), Ordering::Equal);
}

#[test]
fn feedback_order_old_compares_by_inner() {
    let a = CoverageFeedback::Old(Box::new(CoverageFeedback::NewBlock { uniqueness: 1 }));
    let b = CoverageFeedback::Old(Box::new(CoverageFeedback::NewEdge { uniqueness: 1 }));
    assert_eq!(a.cmp(&b), Ordering::Greater);
    let c = CoverageFeedback::Old(Box::new(CoverageFeedback::NewBlock { uniqueness: 5 }));
    assert_eq!(a.cmp(&c), Ordering::Greater);
}

#[test]
fn feedback_priority_ranks() {
    assert_eq!(CoverageFeedback::NewBlock { uniqueness: 0 }.priority(), 5);
    assert_eq!(CoverageFeedback::NewEdge { uniqueness: 0 }.priority(), 4);
    assert_eq!(CoverageFeedback::NewPath { uniqueness: 0 }.priority(), 3);
    assert_eq!(CoverageFeedback::NoCoverage(0).priority(), 2);
    assert_eq!(
        CoverageFeedback::Old(Box::new(CoverageFeedback::NoCoverage(0))).priority(),
        1
    );
}

#[test]
fn seed_post_fix_encodes_metric_and_uniqueness() {
    assert_eq!(
        CoverageFeedback::NewBlock { uniqueness: 5 }.seed_post_fix(),
        "block_5"
    );
    assert_eq!(
        CoverageFeedback::NewEdge { uniqueness: 12 }.seed_post_fix(),
        "edge_12"
    );
    assert_eq!(
        CoverageFeedback::NewPath { uniqueness: 0 }.seed_post_fix(),
        "path_0"
    );
    assert_eq!(CoverageFeedback::NoCoverage(7).seed_post_fix(), "nocov_7");
}

#[test]
fn from_file_name_round_trips() {
    let fb = CoverageFeedback::from_file_name("id:000003:+cov_block_5");
    assert_eq!(
        fb,
        CoverageFeedback::Old(Box::new(CoverageFeedback::NewBlock { uniqueness: 5 }))
    );
    let fb = CoverageFeedback::from_file_name("id:000004_edge_12");
    assert_eq!(
        fb,
        CoverageFeedback::Old(Box::new(CoverageFeedback::NewEdge { uniqueness: 12 }))
    );
    let fb = CoverageFeedback::from_file_name("x_nocov_9");
    assert_eq!(fb, CoverageFeedback::Old(Box::new(CoverageFeedback::NoCoverage(9))));
    // A malformed number falls back to zero.
    let fb = CoverageFeedback::from_file_name("x_path_abc");
    assert_eq!(
        fb,
        CoverageFeedback::Old(Box::new(CoverageFeedback::NewPath { uniqueness: 0 }))
    );
}

#[test]
fn decimal_rendering() {
    assert_eq!(dec_string(0), "0");
    assert_eq!(dec_string(42), "42");
    assert_eq!(dec_string(1000000), "1000000");
    assert_eq!(dec_string_padded(7, 6), "000007");
    assert_eq!(dec_string_padded(1234567, 6), "1234567");
    assert_eq!(parse_dec_or_zero("450"), 450);
    assert_eq!(parse_dec_or_zero(""), 0);
    assert_eq!(parse_dec_or_zero("4x"), 0);
    assert_eq!(parse_dec_or_zero("99999999999999999999999"), 0);
}

#[test]
fn seed_and_crash_names() {
    let mut namer = SeedNamer::new();
    assert_eq!(namer.next_seed_name(true), "id:000000:+cov");
    assert_eq!(namer.next_seed_name(false), "id:000001");
    // Crash names advance the id too: two crashes get distinct files.
    assert_eq!(namer.crash_name(11), "crash:000002,sig:11");
    assert_eq!(namer.crash_name(6), "crash:000003,sig:6");
    assert_eq!(namer.next_id(), 4);
}

#[test]
fn crash_signals() {
    assert!(is_crash_signal(11));
    assert!(is_crash_signal(6));
    assert!(is_crash_signal(7));
    assert!(!is_crash_signal(9));
    assert!(!is_crash_signal(0));
}

#[test]
fn crash_dedup_by_last_block() {
    // A first crash ending at block 42 is saved; a second one at the same
    // block is not.
    let mut tracker = CrashTracker::new();
    assert!(tracker.record(42));
    assert!(!tracker.record(42));
    assert!(tracker.record(43));
}

#[test]
fn queue_pops_highest_priority() {
    let mut q = TestCaseQueue::new();
    q.push(TestCase { filename: String::from("a"), priority: 1 });
    q.push(TestCase { filename: String::from("b"), priority: 5 });
    q.push(TestCase { filename: String::from("c"), priority: 3 });
    assert_eq!(q.len(), 3);
    assert_eq!(q.pop().unwrap().filename, "b");
    assert_eq!(q.pop().unwrap().filename, "c");
    assert_eq!(q.pop().unwrap().filename, "a");
    assert!(q.pop().is_none());
}

#[test]
fn stats_timing() {
    let stats = Stats::new(10_000);
    assert_eq!(stats.start_ms, Some(10_000));
    // No status was printed yet, so one is due immediately.
    assert!(stats.should_update_status(10_000));
    // The state was logged at construction; the next log is due after the
    // interval.
    assert!(!stats.should_log_state(10_500));
    assert!(stats.should_log_state(40_000));
    let mut stats = stats;
    stats.last_status_ms = Some(20_000);
    assert!(!stats.should_update_status(20_500));
    assert!(stats.should_update_status(21_000));
}

#[test]
fn target_cmd_marker_validation() {
    let ok = validate_target_cmd(&vec![String::from("target"), String::from("@@")]).unwrap();
    assert!(ok);
    let no_marker = validate_target_cmd(&vec![String::from("target")]).unwrap();
    assert!(!no_marker);
    assert!(validate_target_cmd(&vec![
        String::from("target"),
        String::from("@@"),
        String::from("@@"),
    ])
    .is_err());
}

#[test]
fn trace_decoding() {
    // Length word 2, then blocks 7 and 9, one trailing slot ignored.
    let mut data = vec![2, 0, 0, 0, 7, 0, 0, 0, 9, 0, 0, 0, 1, 1, 1, 1];
    assert_eq!(decode_trace(&data), vec![7, 9]);
    // An oversized length word is clamped to the region capacity.
    data[0] = 255;
    assert_eq!(decode_trace(&data), vec![7, 9, 16843009]);
    // A region too small for the length word yields an empty trace.
    assert_eq!(decode_trace(&[1, 0]), Vec::<u32>::new());
    // A zero length word yields an empty trace.
    assert_eq!(decode_trace(&[0, 0, 0, 0, 5, 0, 0, 0]), Vec::<u32>::new());
}

#[test]
fn mutation_operations_are_exact() {
    let data = vec![1u8, 2, 3, 4];
    assert_eq!(copy_bytes(&data), data);
    assert_eq!(flip_bit(&data, 0, 0), vec![0, 2, 3, 4]);
    assert_eq!(flip_bit(&data, 3, 7), vec![1, 2, 3, 132]);
    assert_eq!(replace_byte(&data, 2, 9), vec![1, 2, 9, 4]);
    assert_eq!(delete_range(&data, 1, 2), vec![1, 4]);
    assert_eq!(insert_copy(&data, 4, 0, 2), vec![1, 2, 3, 4, 1, 2]);
    assert_eq!(insert_copy(&data, 0, 2, 2), vec![3, 4, 1, 2, 3, 4]);
    assert_eq!(insert_repeat(&data, 2, 8, 3), vec![1, 2, 8, 8, 8, 3, 4]);
}

#[test]
fn mutation_respects_size_bounds() {
    let empty: Vec<u8> = vec![];
    assert_eq!(mutate(&empty), empty);
    let data = vec![0u8; 32];
    for _ in 0..200 {
        let out = mutate(&data);
        assert!(out.len() <= data.len() + 16);
        assert!(out.len() + 8 >= data.len());
    }
}
