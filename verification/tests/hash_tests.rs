use bao_hash::Finalization;
use bao_hash::State;
use bao_hash::StateFinish;
use bao_hash::Writer;
use bao_hash::CHUNK_SIZE;
use bao_hash::JOB_SIZE;
use bao_hash::hash;
use bao_hash::hash_node;
use bao_hash::hash_recurse;
use bao_hash::hash_recurse_rayon;
use bao_hash::largest_power_of_two;
use bao_hash::left_len;

fn test_cases() -> Vec<usize> {
    vec![
        0,
        1,
        10,
        CHUNK_SIZE - 1,
        CHUNK_SIZE,
        CHUNK_SIZE + 1,
        2 * CHUNK_SIZE - 1,
        2 * CHUNK_SIZE,
        2 * CHUNK_SIZE + 1,
        3 * CHUNK_SIZE - 1,
        3 * CHUNK_SIZE,
        3 * CHUNK_SIZE + 1,
        4 * CHUNK_SIZE - 1,
        4 * CHUNK_SIZE,
        4 * CHUNK_SIZE + 1,
        16 * CHUNK_SIZE - 1,
        16 * CHUNK_SIZE,
        16 * CHUNK_SIZE + 1,
    ]
}

#[test]
fn test_power_of_two() {
    let input_output = &[
        (1u64, 1u64),
        (2, 2),
        (3, 2),
        (4, 4),
        (5, 4),
        (6, 4),
        (7, 4),
        (8, 8),
        // the largest possible u64
        (0xffffffffffffffff, 0x8000000000000000),
    ];
    for &(input, output) in input_output {
        assert_eq!(
            output,
            largest_power_of_two(input),
            "wrong output for n={}",
            input
        );
    }
}

#[test]
fn test_left_subtree_len() {
    let s = CHUNK_SIZE as u64;
    let input_output = &[(s + 1, s), (2 * s - 1, s), (2 * s, s), (2 * s + 1, 2 * s)];
    for &(input, output) in input_output {
        println!("testing {} and {}", input, output);
        assert_eq!(left_len(input), output);
    }
}

#[test]
fn test_serial_vs_parallel() {
    for case in test_cases() {
        println!("case {}", case);
        let input = vec![0x42; case];
        let hash_serial = hash_recurse(&input, Finalization::Root(case as u64));
        let hash_parallel = hash_recurse_rayon(&input, Finalization::Root(case as u64));
        let hash_highlevel = hash(&input);
        assert_eq!(hash_serial, hash_parallel, "hashes don't match");
        assert_eq!(hash_serial, hash_highlevel, "hashes don't match");
    }
}

fn drive_state(mut input: &[u8]) -> [u8; 32] {
    let mut state = State::new();
    let finalization = if input.len() <= CHUNK_SIZE {
        Finalization::Root(input.len() as u64)
    } else {
        Finalization::NotRoot
    };
    while input.len() > CHUNK_SIZE {
        let hash = hash_node(&input[..CHUNK_SIZE], Finalization::NotRoot);
        state.push_subtree(&hash, CHUNK_SIZE);
        input = &input[CHUNK_SIZE..];
    }
    let hash = hash_node(input, finalization);
    state.push_subtree(&hash, input.len());
    state.finish()
}

#[test]
fn test_state() {
    for case in test_cases() {
        println!("case {}", case);
        let input = vec![0x42; case];
        let expected = hash(&input);
        let found = drive_state(&input);
        assert_eq!(expected, found, "hashes don't match");
    }
}

#[test]
fn test_writer() {
    let mut cases = test_cases();
    let max_jobs = 2 * num_cpus::get();
    cases.push(JOB_SIZE - 1);
    cases.push(JOB_SIZE);
    cases.push(JOB_SIZE + 1);
    cases.push(max_jobs * JOB_SIZE - 1);
    cases.push(max_jobs * JOB_SIZE);
    cases.push(max_jobs * JOB_SIZE + 1);
    cases.push(2 * max_jobs * JOB_SIZE - 1);
    cases.push(2 * max_jobs * JOB_SIZE);
    cases.push(2 * max_jobs * JOB_SIZE + 1);
    for case in cases {
        println!("case {}", case);
        let input = vec![0x42; case];
        let expected = hash(&input);

        let mut writer = Writer::new();
        let n = writer.write(&input);
        assert_eq!(n, input.len());
        let found = writer.finish();
        assert_eq!(expected, found, "hashes don't match");
    }
}

#[test]
fn test_writer_any_partition() {
    let input = vec![0x42u8; 3 * CHUNK_SIZE + 5];
    let expected = hash(&input);
    let mut writer = Writer::new();
    for piece in input.chunks(7) {
        writer.write(piece);
    }
    assert_eq!(expected, writer.finish());
}

#[test]
fn test_writer_benchmarking_job_sizes() {
    let input = vec![0x42u8; 5 * CHUNK_SIZE + 1];
    let expected = hash(&input);
    for &(job_size, max_jobs) in &[(CHUNK_SIZE, 1), (2 * CHUNK_SIZE, 3), (8 * CHUNK_SIZE, 2)] {
        let mut writer = Writer::new_benchmarking(job_size, max_jobs);
        writer.write(&input);
        assert_eq!(expected, writer.finish(), "job size {}", job_size);
    }
}

#[test]
fn test_merge_parent_and_merge_finish() {
    // three chunks: drive the encoding path by hand
    let input = vec![0x42u8; 3 * CHUNK_SIZE];
    let c = hash_node(&input[..CHUNK_SIZE], Finalization::NotRoot);
    let mut state = State::new();
    state.push_subtree(&c, CHUNK_SIZE);
    assert!(state.merge_parent().is_none());
    state.push_subtree(&c, CHUNK_SIZE);
    let first = state.merge_parent().expect("a parent is due");
    let mut expected_parent = Vec::new();
    expected_parent.extend_from_slice(&c);
    expected_parent.extend_from_slice(&c);
    assert_eq!(first, expected_parent);
    assert!(state.merge_parent().is_none());
    state.push_subtree(&c, CHUNK_SIZE);
    // after the final push, fold with merge_finish
    let p12 = parent_digest(&c, &c, Finalization::NotRoot);
    match state.merge_finish() {
        StateFinish::Parent(bytes) => {
            let mut expected_root_parent = Vec::new();
            expected_root_parent.extend_from_slice(&p12);
            expected_root_parent.extend_from_slice(&c);
            assert_eq!(bytes, expected_root_parent);
        }
        StateFinish::Root(_) => panic!("too early for a root"),
    }
    match state.merge_finish() {
        StateFinish::Parent(_) => panic!("only the root is left"),
        StateFinish::Root(root) => assert_eq!(root, hash(&input)),
    }
}

fn parent_digest(left: &[u8; 32], right: &[u8; 32], fin: Finalization) -> [u8; 32] {
    bao_hash::parent_hash(left, right, fin)
}
