use stackmerge::frames::Frame;
use stackmerge::merge::MergeError;
use stackmerge::merge::process_and_merge_callstacks;

fn cframe(func: &str, file: &str, lineno: u32) -> Frame {
    Frame::CFrame {
        file: file.as_bytes().to_vec(),
        func: func.as_bytes().to_vec(),
        ip: b"0x0".to_vec(),
        lineno,
    }
}

fn pyframe(func: &str, file: &str, lineno: u32) -> Frame {
    Frame::PyFrame {
        file: file.as_bytes().to_vec(),
        func: func.as_bytes().to_vec(),
        lineno,
        locals: b"{}".to_vec(),
    }
}

fn lines_to_strings(lines: Vec<Vec<u8>>) -> Vec<String> {
    lines.into_iter().map(|l| String::from_utf8(l).unwrap()).collect()
}

#[test]
fn scenario_single_shared_frame() {
    // three workers each report the single frame `main (a.c:1)`
    let stacks = vec![
        vec![cframe("main", "a.c", 1)],
        vec![cframe("main", "a.c", 1)],
        vec![cframe("main", "a.c", 1)],
    ];
    let ranks = vec![0u32, 1, 2];
    let out = process_and_merge_callstacks(&stacks, &ranks, None).unwrap();
    assert_eq!(lines_to_strings(out), vec!["main (a.c:1)@0-2| @0-2| 1".to_string()]);
}

#[test]
fn scenario_diverging_paths() {
    // workers 0 and 1 go through main into foo; worker 2 stops at main
    let deep = vec![cframe("foo", "b.c", 5), cframe("main", "a.c", 1)];
    let shallow = vec![cframe("main", "a.c", 1)];
    let stacks = vec![deep.clone(), deep, shallow];
    let ranks = vec![0u32, 1, 2];
    let out = process_and_merge_callstacks(&stacks, &ranks, None).unwrap();
    assert_eq!(
        lines_to_strings(out),
        vec![
            "main (a.c:1)@0-2| @0-2| 1".to_string(),
            "main (a.c:1)@0-2|;foo (b.c:5)@0-1|2 @0-1|2 1".to_string(),
        ]
    );
}

#[test]
fn scenario_empty_stack() {
    // a worker reporting an empty stack terminates at the root itself
    let stacks: Vec<Vec<Frame>> = vec![vec![]];
    let ranks = vec![0u32];
    let out = process_and_merge_callstacks(&stacks, &ranks, None).unwrap();
    assert_eq!(lines_to_strings(out), vec![" @0| 1".to_string()]);
}

#[test]
fn scenario_excess_stacks() {
    // four stacks against three declared ranks: a hard cardinality error
    let one = vec![cframe("main", "a.c", 1)];
    let stacks = vec![one.clone(), one.clone(), one.clone(), one];
    let ranks = vec![0u32, 1, 2];
    let r = process_and_merge_callstacks(&stacks, &ranks, None);
    assert_eq!(r, Err(MergeError::CardinalityMismatch));
}

#[test]
fn empty_batch_is_refused() {
    let stacks: Vec<Vec<Frame>> = vec![];
    let ranks = vec![0u32, 1];
    let r = process_and_merge_callstacks(&stacks, &ranks, None);
    assert_eq!(r, Err(MergeError::EmptyInput));
}

#[test]
fn zero_declared_ranks_is_refused() {
    let stacks = vec![vec![cframe("main", "a.c", 1)]];
    let ranks: Vec<u32> = vec![];
    let r = process_and_merge_callstacks(&stacks, &ranks, None);
    assert_eq!(r, Err(MergeError::CardinalityMismatch));
}

#[test]
fn surplus_declared_ranks_leak_everywhere() {
    // one stack, two declared ranks: rank 1 never appears and leaks
    let stacks = vec![vec![cframe("main", "a.c", 1)]];
    let ranks = vec![0u32, 1];
    let out = process_and_merge_callstacks(&stacks, &ranks, None).unwrap();
    assert_eq!(lines_to_strings(out), vec!["main (a.c:1)@0|1 @0|1 1".to_string()]);
}

#[test]
fn marker_truncates_stack() {
    // the marker frame and everything deeper (leafward) are dropped
    let stacks = vec![vec![
        cframe("gomp_lto_priv.0", "x.c", 9), // leaf, dropped
        cframe("main", "a.c", 1),            // root, kept
    ]];
    let ranks = vec![0u32];
    let marker = b"lto_priv".to_vec();
    let out = process_and_merge_callstacks(&stacks, &ranks, Some(&marker)).unwrap();
    assert_eq!(lines_to_strings(out), vec!["main (a.c:1)@0| @0| 1".to_string()]);
}

#[test]
fn marker_on_root_frame_empties_stack() {
    let stacks = vec![vec![cframe("deep", "x.c", 2), cframe("lto_priv_root", "x.c", 1)]];
    let ranks = vec![0u32];
    let marker = b"lto_priv".to_vec();
    let out = process_and_merge_callstacks(&stacks, &ranks, Some(&marker)).unwrap();
    // nothing survives: the stack ends at the root
    assert_eq!(lines_to_strings(out), vec![" @0| 1".to_string()]);
}

#[test]
fn native_and_interpreted_frames_share_a_key() {
    // an accepted simplification: identical func/file/line merge across kinds
    let stacks = vec![
        vec![cframe("run", "m.py", 12)],
        vec![pyframe("run", "m.py", 12)],
    ];
    let ranks = vec![0u32, 1];
    let out = process_and_merge_callstacks(&stacks, &ranks, None).unwrap();
    assert_eq!(lines_to_strings(out), vec!["run (m.py:12)@0-1| @0-1| 1".to_string()]);
}

#[test]
fn output_lines_follow_key_order() {
    // children are visited in lexicographic key order, not insertion order
    let stacks = vec![
        vec![cframe("zeta", "z.c", 1)],
        vec![cframe("alpha", "a.c", 1)],
    ];
    let ranks = vec![0u32, 1];
    let out = process_and_merge_callstacks(&stacks, &ranks, None).unwrap();
    assert_eq!(
        lines_to_strings(out),
        vec![
            "alpha (a.c:1)@1|0 @1|0 1".to_string(),
            "zeta (z.c:1)@0|1 @0|1 1".to_string(),
        ]
    );
}

#[test]
fn merge_is_deterministic() {
    let stacks = vec![
        vec![cframe("b", "b.c", 2), cframe("a", "a.c", 1)],
        vec![cframe("a", "a.c", 1)],
    ];
    let ranks = vec![0u32, 1];
    let first = process_and_merge_callstacks(&stacks, &ranks, None).unwrap();
    let second = process_and_merge_callstacks(&stacks, &ranks, None).unwrap();
    assert_eq!(first, second);
}
