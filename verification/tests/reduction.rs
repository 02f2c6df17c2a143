use greybox::per_function::PerFunctionPathCoverage;

#[test]
fn test1() {
    let mut pfp = PerFunctionPathCoverage::empty();
    // f = 1 (f | 2)
    pfp.insert_function(1, vec![2]);
    let path = vec![1, 1, 2, 2];
    pfp.reduce_fun(&path).unwrap();
}

#[test]
fn test1_() {
    let mut pfp = PerFunctionPathCoverage::empty();
    // f = 1 (f | 2)
    pfp.insert_function(1, vec![2]);
    let path = vec![1, 1, 2, 2];
    pfp.reduce_fun1(&path, 2).unwrap();
}

#[test]
fn test2() {
    let mut pfp = PerFunctionPathCoverage::empty();
    // f = 1 (2)* 3
    pfp.insert_function(1, vec![3]);
    let path = vec![1, 2, 2, 2, 3];
    pfp.reduce_fun(&path).unwrap();
}

#[test]
fn test2_() {
    let mut pfp = PerFunctionPathCoverage::empty();
    // f = 1 (2)* 3
    pfp.insert_function(1, vec![3]);
    let path = vec![1, 2, 2, 2, 3];
    pfp.reduce_fun1(&path, 2).unwrap();
}

#[test]
fn test3() {
    let mut pfp = PerFunctionPathCoverage::empty();
    // f = 1 (23)* 4
    pfp.insert_function(1, vec![4]);
    let path = vec![1, 2, 3, 2, 3, 4];
    pfp.reduce_fun(&path).unwrap();
}

#[test]
fn test3_() {
    let mut pfp = PerFunctionPathCoverage::empty();
    // f = 1 (23)* 4
    pfp.insert_function(1, vec![4]);
    let path = vec![1, 2, 3, 2, 3, 4];
    pfp.reduce_fun1(&path, 2).unwrap();
}

#[test]
fn test4() {
    let mut pfp = PerFunctionPathCoverage::empty();
    // f = 1 (2(3|4)*)*5
    pfp.insert_function(1, vec![5]);
    let path = vec![1, 2, 3, 3, 3, 4, 2, 3, 4, 5];
    pfp.reduce_fun(&path).unwrap();
}

#[test]
fn test4_() {
    let mut pfp = PerFunctionPathCoverage::empty();
    // f = 1 (2(3|4)*)*5
    pfp.insert_function(1, vec![5]);
    let path = vec![1, 2, 3, 3, 3, 4, 2, 3, 4, 5];
    pfp.reduce_fun1(&path, 2).unwrap();
}

#[test]
fn test5() {
    let mut pfp = PerFunctionPathCoverage::empty();
    // f = 1 (23)* 4
    pfp.insert_function(1, vec![4]);
    let path = vec![1, 2, 3, 2, 3, 2, 3, 4];
    pfp.reduce_fun(&path).unwrap();
}

#[test]
fn test5_() {
    let mut pfp = PerFunctionPathCoverage::empty();
    // f = 1 (23)* 4
    pfp.insert_function(1, vec![4]);
    let path = vec![1, 2, 3, 2, 3, 2, 3, 4];
    pfp.reduce_fun1(&path, 2).unwrap();
}

#[test]
fn test6() {
    let mut pfp = PerFunctionPathCoverage::empty();
    // f = 1 (23*)* 4
    pfp.insert_function(1, vec![4]);
    let path = vec![1, 2, 3, 3, 3, 2, 3, 3, 3, 4];
    pfp.reduce_fun(&path).unwrap();
}

#[test]
fn test6_() {
    let mut pfp = PerFunctionPathCoverage::empty();
    // f = 1 (23*)* 4
    pfp.insert_function(1, vec![4]);
    let path = vec![1, 2, 3, 3, 3, 2, 3, 3, 3, 4];
    pfp.reduce_fun1(&path, 2).unwrap();
}

#[test]
fn test7() {
    let mut pfp = PerFunctionPathCoverage::empty();
    // f = 1 (23*)* 4
    pfp.insert_function(1, vec![4]);
    let path = vec![1, 2, 3, 3, 3, 2, 3, 3, 3, 2, 3, 3, 3, 3, 4];
    pfp.reduce_fun(&path).unwrap();
}

#[test]
fn test7_() {
    let mut pfp = PerFunctionPathCoverage::empty();
    // f = 1 (23*)* 4
    pfp.insert_function(1, vec![4]);
    let path = vec![1, 2, 3, 3, 3, 2, 3, 3, 3, 2, 3, 3, 3, 3, 4];
    pfp.reduce_fun1(&path, 2).unwrap();
}

#[test]
fn test8() {
    let mut pfp = PerFunctionPathCoverage::empty();
    // f = 1 (23*)* 4
    pfp.insert_function(1, vec![5]);
    let path = vec![1, 3, 2, 2, 3, 4, 3, 5];
    pfp.reduce_fun(&path).unwrap();
}

#[test]
fn test8_() {
    let mut pfp = PerFunctionPathCoverage::empty();
    // f = 1 (23*)* 4
    pfp.insert_function(1, vec![5]);
    let path = vec![1, 3, 2, 2, 3, 4, 3, 5];
    pfp.reduce_fun1(&path, 2).unwrap();
}

#[test]
fn test9() {
    let mut pfp = PerFunctionPathCoverage::empty();
    pfp.insert_function(1, vec![4]);
    pfp.insert_function(2, vec![3]);
    let path = vec![1, 2, 3, 2, 3, 4];
    pfp.reduce_fun(&path).unwrap();
}

#[test]
fn test9_() {
    let mut pfp = PerFunctionPathCoverage::empty();
    pfp.insert_function(1, vec![4]);
    pfp.insert_function(2, vec![3]);
    let path = vec![1, 2, 3, 2, 3, 4];
    pfp.reduce_fun1(&path, 2).unwrap();
}

#[test]
fn test_nested_loops() {
    let mut pfp = PerFunctionPathCoverage::empty();
    // Function with nested loops:
    // 1 -> (2 -> (3 -> 4)* -> 5)* -> 6
    pfp.insert_function(1, vec![6]);
    // Path that exercises nested loops multiple times:
    // Outer loop iterates twice
    // Inner loop iterates 2-3 times per outer iteration
    let path = vec![
        1, // Enter function
        2, // Enter outer loop first time
        3, // Enter inner loop
        4, // Inner loop iteration 1
        3, // Enter inner loop again
        4, // Inner loop iteration 2
        5, // Exit inner loop
        2, // Enter outer loop second time
        3, // Enter inner loop
        4, // Inner loop iteration 1
        3, // Enter inner loop again
        4, // Inner loop iteration 2
        3, // Enter inner loop again
        4, // Inner loop iteration 3
        5, // Exit inner loop
        6, // Exit function
    ];
    pfp.reduce_fun(&path).unwrap();
}

#[test]
fn test_nested_loops_() {
    let mut pfp = PerFunctionPathCoverage::empty();
    pfp.insert_function(1, vec![6]);
    let path = vec![1, 2, 3, 4, 3, 4, 5, 2, 3, 4, 3, 4, 3, 4, 5, 6];
    pfp.reduce_fun1(&path, 2).unwrap();
}

#[test]
fn test_deep_nested_loops() {
    let mut pfp = PerFunctionPathCoverage::empty();
    // Function with triple-nested loops:
    // 1 -> (2 -> (3 -> (4 -> 5)* -> 6)* -> 7)* -> 8
    pfp.insert_function(1, vec![8]);
    // Path that exercises nested loops multiple times:
    // Outermost loop iterates three times
    // Middle loop iterates 2-3 times per outer iteration
    // Innermost loop iterates 1-3 times per middle iteration
    let path = vec![
        1, //
        2, //
        3, //
        4, 5, //
        6, //
        3, //
        4, 5, 4, 5, 4, 5, //
        6, //
        7, //
        2, //
        3, //
        4, 5, 4, 5, //
        6, //
        3, //
        4, 5, //
        6, //
        7, //
        2, //
        3, //
        4, 5, //
        6, //
        3, //
        4, 5, 4, 5, 4, 5, //
        6, //
        7, //
        8, //
    ];
    pfp.reduce_fun(&path).unwrap();
}

#[test]
fn test_deep_nested_loops_() {
    let mut pfp = PerFunctionPathCoverage::empty();
    pfp.insert_function(1, vec![8]);
    let path = vec![
        1, 2, 3, 4, 5, 6, 3, 4, 5, 4, 5, 4, 5, 6, 7, 2, 3, 4, 5, 4, 5, 6, 3, 4, 5, 6, 7, 2, 3, 4,
        5, 6, 3, 4, 5, 4, 5, 4, 5, 6, 7, 8,
    ];
    pfp.reduce_fun1(&path, 2).unwrap();
}

#[test]
fn test_single_loop() {
    let mut pfp = PerFunctionPathCoverage::empty();
    pfp.insert_function(1, vec![3]);
    let path = vec![1, 2, 2, 2, 2, 2, 2, 2, 3];
    pfp.reduce_fun(&path).unwrap();
}

#[test]
fn test_single_loop_() {
    let mut pfp = PerFunctionPathCoverage::empty();
    pfp.insert_function(1, vec![3]);
    let path = vec![1, 2, 2, 2, 2, 2, 2, 2, 3];
    pfp.reduce_fun1(&path, 2).unwrap();
}

#[test]
fn single_loop_collapses_to_two_iterations() {
    // f has entry 1, exit 3; the trace loops through 2 three times, K = 2.
    let mut pfp = PerFunctionPathCoverage::empty();
    pfp.insert_function(1, vec![3]);
    let fresh = pfp.reduce_fun(&vec![1, 2, 2, 2, 3]).unwrap();
    assert!(fresh);
    assert_eq!(pfp.cov_info(), 1);
    // The reduced buffer is [1, 2, 2, 3]: reducing that canonical trace
    // produces the same digest and nothing new.
    let again = pfp.reduce_fun(&vec![1, 2, 2, 3]).unwrap();
    assert!(!again);
    assert_eq!(pfp.cov_info(), 1);
    // A longer tail still collapses to the same reduced path.
    let longer = pfp.reduce_fun(&vec![1, 2, 2, 2, 2, 2, 3]).unwrap();
    assert!(!longer);
    assert_eq!(pfp.cov_info(), 1);
}

#[test]
fn two_iterations_stay_exact() {
    // Trace [1,2,3,2,3,4] is canonical under K = 2: it reduces to itself.
    let mut pfp = PerFunctionPathCoverage::empty();
    pfp.insert_function(1, vec![4]);
    let fresh = pfp.reduce_fun(&vec![1, 2, 3, 2, 3, 4]).unwrap();
    assert!(fresh);
    assert_eq!(pfp.cov_info(), 1);
    let again = pfp.reduce_fun(&vec![1, 2, 3, 2, 3, 4]).unwrap();
    assert!(!again);
}

#[test]
fn runs_after_the_second_collapse() {
    // Trace with three 3-runs after block 2; K = 2 keeps only two per run
    // and collapses the third outer iteration onto the second.
    let mut pfp = PerFunctionPathCoverage::empty();
    pfp.insert_function(1, vec![4]);
    let fresh = pfp
        .reduce_fun(&vec![1, 2, 3, 3, 3, 2, 3, 3, 3, 2, 3, 3, 3, 3, 4])
        .unwrap();
    assert!(fresh);
    assert_eq!(pfp.cov_info(), 1);
    // The collapsed form reduces to the same digest.
    let same = pfp.reduce_fun(&vec![1, 2, 3, 3, 2, 3, 3, 4]).unwrap();
    assert!(!same);
    assert_eq!(pfp.cov_info(), 1);
}

#[test]
fn recursion_keeps_caller_and_callee_paths_apart() {
    // f has entry 1 and exit 2 and calls itself: the inner call consumes
    // [1,2], the outer resumes and sees 2 as its exit: two distinct digests.
    let mut pfp = PerFunctionPathCoverage::empty();
    pfp.insert_function(1, vec![2]);
    let fresh = pfp.reduce_fun(&vec![1, 1, 2, 2]).unwrap();
    assert!(fresh);
    assert_eq!(pfp.cov_info(), 2);
    // The inner instance's reduced path [1,2] is already recorded.
    let inner = pfp.reduce_fun(&vec![1, 2]).unwrap();
    assert!(!inner);
    assert_eq!(pfp.cov_info(), 2);
}

#[test]
fn unknown_entry_is_an_error() {
    let mut pfp = PerFunctionPathCoverage::empty();
    pfp.insert_function(1, vec![2]);
    assert!(pfp.reduce_fun(&vec![7, 1, 2]).is_err());
}

#[test]
fn empty_trace_reduces_to_nothing() {
    let mut pfp = PerFunctionPathCoverage::empty();
    pfp.insert_function(1, vec![2]);
    let fresh = pfp.reduce_fun(&vec![]).unwrap();
    assert!(!fresh);
    assert_eq!(pfp.cov_info(), 0);
}
