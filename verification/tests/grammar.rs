use areacodes::codes::{code_dist, parent, Level};
use areacodes::parser::{parse_line, read_data, ChangeLine, Line, Selector};

fn bv(s: &str) -> Vec<u8> {
    s.as_bytes().to_vec()
}

fn change(line: &str) -> ChangeLine {
    match parse_line(&bv(line)) {
        Some(Line::Change(cl)) => cl,
        other => panic!("expected a change line, got {:?}", other),
    }
}

#[test]
fn level_from_code() {
    assert!(matches!(Level::from_code(110101), Level::County));
    assert!(matches!(Level::from_code(110100), Level::Prefecture));
    assert!(matches!(Level::from_code(110000), Level::Province));
}

#[test]
fn level_desc_strings() {
    assert_eq!(Level::Province.desc(), "省级");
    assert_eq!(Level::Prefecture.desc(), "地级");
    assert_eq!(Level::County.desc(), "县级");
}

#[test]
fn parent_truncates_by_level() {
    assert_eq!(parent(110101), 110100);
    assert_eq!(parent(110100), 110000);
    assert_eq!(parent(110000), 0);
    assert_eq!(parent(0), 0);
}

#[test]
fn code_dist_levels() {
    assert_eq!(code_dist(110101, 110102), 1);
    assert_eq!(code_dist(110101, 110201), 2);
    assert_eq!(code_dist(110101, 210101), 3);
}

#[test]
fn parse_empty_line() {
    assert!(matches!(parse_line(&bv("")), Some(Line::Empty)));
}

#[test]
fn parse_comment_line() {
    match parse_line(&bv("#hello")) {
        Some(Line::Comment(b)) => assert_eq!(b, bv("hello")),
        other => panic!("unexpected: {:?}", other),
    }
}

#[test]
fn parse_forward_without_relation() {
    let cl = change("-110100 某地");
    assert!(cl.fwd);
    assert!(!cl.transfer);
    assert_eq!(cl.code, 110100);
    assert_eq!(cl.name, bv("某地"));
    assert!(cl.attr.is_none());
}

#[test]
fn parse_transfer_requires_relation() {
    assert!(parse_line(&bv("=110100 某地")).is_none());
}

#[test]
fn parse_transfer_direction_from_relation() {
    let fwd = change("=110100 某地>.");
    assert!(fwd.fwd && fwd.transfer);
    let bwd = change("=110100 某地<.");
    assert!(!bwd.fwd && bwd.transfer);
}

#[test]
fn parse_direction_mismatch_is_fatal() {
    assert!(parse_line(&bv("-110100 某地<.")).is_none());
    assert!(parse_line(&bv("+110100 某地>.")).is_none());
}

#[test]
fn parse_backward_with_selectors() {
    let cl = change("+110100 某地<甲,乙");
    assert!(!cl.fwd);
    let attr = cl.attr.unwrap();
    assert_eq!(attr.len(), 2);
    match &attr[0] {
        Selector::Name { name, parent } => {
            assert_eq!(*name, bv("甲"));
            assert!(parent.is_none());
        }
        other => panic!("unexpected: {:?}", other),
    }
    match &attr[1] {
        Selector::Name { name, .. } => assert_eq!(*name, bv("乙")),
        other => panic!("unexpected: {:?}", other),
    }
}

#[test]
fn parse_dot_selectors() {
    let cl = change("-110100 某地>.,..");
    let attr = cl.attr.unwrap();
    assert!(matches!(attr[0], Selector::CurCode));
    assert!(matches!(attr[1], Selector::ParentCode));
}

#[test]
fn parse_non_binding_selector_dropped() {
    let cl = change("-110100 某地>甲?,乙");
    let attr = cl.attr.unwrap();
    assert_eq!(attr.len(), 1);
    match &attr[0] {
        Selector::Name { name, .. } => assert_eq!(*name, bv("乙")),
        other => panic!("unexpected: {:?}", other),
    }
}

#[test]
fn parse_bang_suffix_stripped() {
    let cl = change("-110100 某地>甲!");
    match &cl.attr.unwrap()[0] {
        Selector::Name { name, .. } => assert_eq!(*name, bv("甲")),
        other => panic!("unexpected: {:?}", other),
    }
}

#[test]
fn parse_parent_qualifier() {
    let cl = change("-110100 某地>甲(乙)");
    match &cl.attr.unwrap()[0] {
        Selector::Name { name, parent } => {
            assert_eq!(*name, bv("甲"));
            assert_eq!(parent.as_ref().unwrap(), &bv("乙"));
        }
        other => panic!("unexpected: {:?}", other),
    }
}

#[test]
fn parse_unbalanced_qualifier_is_fatal() {
    assert!(parse_line(&bv("-110100 某地>甲(乙")).is_none());
}

#[test]
fn parse_self_reference_expands() {
    let cl = change("-110100 某地>#");
    match &cl.attr.unwrap()[0] {
        Selector::Name { name, .. } => assert_eq!(*name, bv("某地")),
        other => panic!("unexpected: {:?}", other),
    }
    let cl = change("-110100 某地>_(乙)");
    match &cl.attr.unwrap()[0] {
        Selector::Name { name, parent } => {
            assert_eq!(*name, bv("某地"));
            assert_eq!(parent.as_ref().unwrap(), &bv("乙"));
        }
        other => panic!("unexpected: {:?}", other),
    }
}

#[test]
fn parse_bad_marker_or_code() {
    assert!(parse_line(&bv("*110100 某地")).is_none());
    assert!(parse_line(&bv("-11010a 某地")).is_none());
    assert!(parse_line(&bv("-110100_某地")).is_none());
    assert!(parse_line(&bv("-110100")).is_none());
}

#[test]
fn read_data_parses_records() {
    let lines = vec![bv("110000\t北京市"), bv("110101\t东城区")];
    let pairs = read_data(&lines).unwrap();
    assert_eq!(pairs.len(), 2);
    assert_eq!(pairs[0].0, 110000);
    assert_eq!(pairs[0].1, bv("北京市"));
    assert_eq!(pairs[1].0, 110101);
    assert_eq!(pairs[1].1, bv("东城区"));
}

#[test]
fn read_data_rejects_malformed_line() {
    let lines = vec![bv("110000\t北京市"), bv("1101x1\t东城区")];
    assert_eq!(read_data(&lines), Err(1));
    assert_eq!(read_data(&vec![bv("110000 北京市")]), Err(0));
    assert_eq!(read_data(&vec![bv("11000")]), Err(0));
}

#[test]
fn read_data_allows_empty_name() {
    let pairs = read_data(&vec![bv("110000\t")]).unwrap();
    assert_eq!(pairs[0].1, Vec::<u8>::new());
}
