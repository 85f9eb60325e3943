use stackmerge::config_rankpid::ProcessRank;
use stackmerge::config_rankpid::ProcessRankApi;
use stackmerge::config_rankpid::ProcessRankError;
use stackmerge::config_rankpid::build_probing_address;
use stackmerge::config_rankpid::build_probing_command;
use stackmerge::config_rankpid::build_probing_config;
use stackmerge::config_rankpid::parse_u32;
use stackmerge::config_rankpid::rank_ports_json;

fn env(vars: &[&str]) -> Vec<Vec<u8>> {
    vars.iter().map(|v| v.as_bytes().to_vec()).collect()
}

#[test]
fn parse_u32_examples() {
    assert_eq!(parse_u32(&b"42".to_vec()), Some(42));
    assert_eq!(parse_u32(&b"+7".to_vec()), Some(7));
    assert_eq!(parse_u32(&b"0012".to_vec()), Some(12));
    assert_eq!(parse_u32(&b"4294967295".to_vec()), Some(4294967295));
    assert_eq!(parse_u32(&b"4294967296".to_vec()), None);
    assert_eq!(parse_u32(&b"".to_vec()), None);
    assert_eq!(parse_u32(&b"+".to_vec()), None);
    assert_eq!(parse_u32(&b"12a".to_vec()), None);
    assert_eq!(parse_u32(&b"-3".to_vec()), None);
}

#[test]
fn find_env_var_picks_the_first_match() {
    let vars = env(&["PATH=/usr/bin", "LOCAL_RANK=3", "LOCAL_RANK=9"]);
    let r = ProcessRankApi::find_env_var(&vars, &b"LOCAL_RANK=".to_vec());
    assert_eq!(r, Some(b"3".to_vec()));
    assert_eq!(ProcessRankApi::find_env_var(&vars, &b"MISSING=".to_vec()), None);
}

#[test]
fn ranks_are_collected_and_sorted() {
    let envs = vec![
        (501u32, env(&["LOCAL_RANK=2"])),
        (502u32, env(&["PATH=/usr/bin"])),      // no rank: skipped
        (503u32, env(&["LOCAL_RANK=zero"])),    // unparseable: skipped
        (504u32, env(&["LOCAL_RANK=0"])),
        (505u32, env(&["LOCAL_RANK=1"])),
    ];
    let ranks = ProcessRankApi::get_all_python_local_ranks(&envs).unwrap();
    assert_eq!(
        ranks,
        vec![
            ProcessRank { pid: 504, local_rank: 0 },
            ProcessRank { pid: 505, local_rank: 1 },
            ProcessRank { pid: 501, local_rank: 2 },
        ]
    );
}

#[test]
fn equal_ranks_keep_their_order() {
    let envs = vec![
        (7u32, env(&["LOCAL_RANK=1"])),
        (8u32, env(&["LOCAL_RANK=0"])),
        (9u32, env(&["LOCAL_RANK=1"])),
    ];
    let ranks = ProcessRankApi::get_all_python_local_ranks(&envs).unwrap();
    assert_eq!(
        ranks,
        vec![
            ProcessRank { pid: 8, local_rank: 0 },
            ProcessRank { pid: 7, local_rank: 1 },
            ProcessRank { pid: 9, local_rank: 1 },
        ]
    );
}

#[test]
fn no_declared_rank_is_an_error() {
    let envs = vec![(7u32, env(&["PATH=/usr/bin"]))];
    assert_eq!(ProcessRankApi::get_all_python_local_ranks(&envs), Err(ProcessRankError::NoProcessesFound));
}

#[test]
fn probing_strings_are_exact() {
    let addr = build_probing_address(&b"10.0.0.1".to_vec(), 12345);
    assert_eq!(String::from_utf8(addr.clone()).unwrap(), "10.0.0.1:12345");
    let config = build_probing_config(&addr);
    assert_eq!(
        String::from_utf8(config.clone()).unwrap(),
        "probing.server.address='10.0.0.1:12345'"
    );
    let command = build_probing_command(321, &config);
    assert_eq!(
        String::from_utf8(command).unwrap(),
        "probing -t 321 config \"probing.server.address='10.0.0.1:12345'\""
    );
}

#[test]
fn configure_pairs_processes_with_endpoints() {
    let processes = vec![
        ProcessRank { pid: 11, local_rank: 0 },
        ProcessRank { pid: 12, local_rank: 1 },
    ];
    let endpoints = vec![
        (b"10.0.0.1".to_vec(), 9001u16),
        (b"10.0.0.2".to_vec(), 9002u16),
    ];
    let configured = ProcessRankApi::configure_processes_with_ports(&processes, &endpoints);
    assert_eq!(configured.len(), 2);
    assert_eq!(configured[0].0, 11);
    assert_eq!(String::from_utf8(configured[0].1.clone()).unwrap(), "10.0.0.1:9001");
    assert_eq!(configured[0].2, 9001);
    assert_eq!(configured[1].0, 12);
    assert_eq!(String::from_utf8(configured[1].1.clone()).unwrap(), "10.0.0.2:9002");
}

#[test]
fn rank_ports_json_matches_the_encoder() {
    let configured = vec![
        (11u32, b"10.0.0.1:9001".to_vec(), 9001u16),
        (12u32, b"10.0.0.2:9002".to_vec(), 9002u16),
    ];
    let text = rank_ports_json(&configured).unwrap();
    // the same object rendered by the encoder directly
    let mut map = serde_json::Map::new();
    map.insert(
        "rank0".to_string(),
        serde_json::Value::String("10.0.0.1:9001".to_string()),
    );
    map.insert(
        "rank1".to_string(),
        serde_json::Value::String("10.0.0.2:9002".to_string()),
    );
    let expected = serde_json::to_string_pretty(&map).unwrap();
    assert_eq!(String::from_utf8(text).unwrap(), expected);
}

#[test]
fn configuration_pass_renders_the_table() {
    let envs = vec![
        (21u32, env(&["LOCAL_RANK=1"])),
        (22u32, env(&["LOCAL_RANK=0"])),
    ];
    let endpoints = vec![
        (b"10.0.0.1".to_vec(), 9001u16),
        (b"10.0.0.2".to_vec(), 9002u16),
    ];
    let text = ProcessRankApi::get_configure_and_write(&envs, &endpoints).unwrap();
    let parsed: serde_json::Value =
        serde_json::from_slice(&text).expect("the pass must emit valid JSON");
    assert_eq!(parsed["rank0"], serde_json::Value::String("10.0.0.1:9001".to_string()));
    assert_eq!(parsed["rank1"], serde_json::Value::String("10.0.0.2:9002".to_string()));
}

#[test]
fn configuration_pass_without_ranks_fails() {
    let envs = vec![(21u32, env(&["PATH=/usr/bin"]))];
    let endpoints = vec![(b"10.0.0.1".to_vec(), 9001u16)];
    assert_eq!(
        ProcessRankApi::get_configure_and_write(&envs, &endpoints),
        Err(ProcessRankError::NoProcessesFound)
    );
}
