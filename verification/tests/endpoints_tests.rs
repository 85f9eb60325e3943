use stackmerge::endpoints::build_callstack_url;
use stackmerge::endpoints::parse_pid_lines;
use stackmerge::endpoints::parse_rank_key;
use stackmerge::endpoints::parse_rank_spec;
use stackmerge::frames::canonical_key;
use stackmerge::frames::normalize_stack;
use stackmerge::frames::Frame;

#[test]
fn rank_keys_parse() {
    assert_eq!(parse_rank_key(&b"rank7".to_vec()), Some(7));
    assert_eq!(parse_rank_key(&b"rank12".to_vec()), Some(12));
    // repeated prefixes are all stripped, as repeated trimming does
    assert_eq!(parse_rank_key(&b"rankrank7".to_vec()), Some(7));
    assert_eq!(parse_rank_key(&b"7".to_vec()), Some(7));
    assert_eq!(parse_rank_key(&b"rank".to_vec()), None);
    assert_eq!(parse_rank_key(&b"rankx".to_vec()), None);
}

#[test]
fn callstack_urls_are_exact() {
    let url = build_callstack_url(&b"1.2.3.4:80".to_vec());
    assert_eq!(
        String::from_utf8(url).unwrap(),
        "http://1.2.3.4:80/apis/pythonext/callstack"
    );
}

#[test]
fn rank_specs_split_at_the_first_colon() {
    let r = parse_rank_spec(&b"0:<10.0.0.5:9922>".to_vec()).unwrap();
    assert_eq!(r.0, Some(0));
    assert_eq!(String::from_utf8(r.1).unwrap(), "10.0.0.5:9922");

    let r = parse_rank_spec(&b"<1>:1.2.3.4:80".to_vec()).unwrap();
    assert_eq!(r.0, Some(1));
    assert_eq!(String::from_utf8(r.1).unwrap(), "1.2.3.4:80");

    let r = parse_rank_spec(&b"x:addr".to_vec()).unwrap();
    assert_eq!(r.0, None);
    assert_eq!(String::from_utf8(r.1).unwrap(), "addr");

    assert!(parse_rank_spec(&b"no-colon-here".to_vec()).is_none());
}

#[test]
fn pid_listings_parse_line_by_line() {
    assert_eq!(parse_pid_lines(&b"123\n456".to_vec()), vec![123, 456]);
    assert_eq!(parse_pid_lines(&b"123\n456\n".to_vec()), vec![123, 456]);
    assert_eq!(parse_pid_lines(&b"123\nabc\n7".to_vec()), vec![123, 7]);
    assert_eq!(parse_pid_lines(&b"".to_vec()), Vec::<u32>::new());
}

#[test]
fn canonical_keys_are_exact() {
    let f = Frame::CFrame {
        file: b"a.c".to_vec(),
        func: b"main".to_vec(),
        ip: b"0xdeadbeef".to_vec(),
        lineno: 42,
    };
    assert_eq!(String::from_utf8(canonical_key(&f)).unwrap(), "main (a.c:42)");
    let g = Frame::PyFrame {
        file: b"m.py".to_vec(),
        func: b"run".to_vec(),
        lineno: 7,
        locals: b"{\"x\": 1}".to_vec(),
    };
    assert_eq!(String::from_utf8(canonical_key(&g)).unwrap(), "run (m.py:7)");
}

#[test]
fn normalization_reverses_to_root_first() {
    let stack = vec![
        Frame::CFrame {
            file: b"b.c".to_vec(),
            func: b"leaf".to_vec(),
            ip: b"0x1".to_vec(),
            lineno: 2,
        },
        Frame::CFrame {
            file: b"a.c".to_vec(),
            func: b"root".to_vec(),
            ip: b"0x0".to_vec(),
            lineno: 1,
        },
    ];
    let keys = normalize_stack(&stack, None);
    let texts: Vec<String> =
        keys.into_iter().map(|k| String::from_utf8(k).unwrap()).collect();
    assert_eq!(texts, vec!["root (a.c:1)".to_string(), "leaf (b.c:2)".to_string()]);
}
