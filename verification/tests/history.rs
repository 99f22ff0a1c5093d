use areacodes::process::snapshot_from_pairs;
use areacodes::table::DataTable;
use areacodes::timeline::{Area, Entry, Successor, Timeline};
use areacodes::FwdDiff;

fn bv(s: &str) -> Vec<u8> {
    s.as_bytes().to_vec()
}

fn pairs(list: &[(u32, &str)]) -> Vec<(u32, Vec<u8>)> {
    list.iter().map(|&(c, n)| (c, bv(n))).collect()
}

#[test]
fn table_root_name() {
    let t = DataTable::new();
    assert_eq!(t.name_by_code(0).unwrap(), bv("中华人民共和国"));
    assert!(t.name_by_code(110000).is_none());
}

#[test]
fn table_lookup_and_children() {
    let mut t = DataTable::new();
    t.insert(110000, bv("北京市"));
    t.insert(110100, bv("市辖区"));
    t.insert(110101, bv("东城区"));
    assert_eq!(t.name_by_code(110101).unwrap(), bv("东城区"));
    assert_eq!(t.codes_by_name(&bv("东城区")), vec![110101]);
    assert_eq!(t.codes_by_name(&bv("不存在")), Vec::<u32>::new());
    assert!(t.has_children(110100));
    assert!(t.has_children(110000));
    assert!(!t.has_children(110101));
}

#[test]
fn table_parent_code_skips_absent_level() {
    let mut t = DataTable::new();
    t.insert(110000, bv("北京市"));
    t.insert(110101, bv("东城区"));
    assert_eq!(t.parent_code(110101), 110000);
    t.insert(110100, bv("市辖区"));
    assert_eq!(t.parent_code(110101), 110100);
    assert_eq!(t.parent_code(110100), 110000);
    assert_eq!(t.parent_code(110000), 0);
}

#[test]
fn ingest_creates_and_versions() {
    let mut tl = Timeline::new();
    let s1 = snapshot_from_pairs(&pairs(&[(110000, "北京市"), (110100, "市辖区")]));
    tl.ingest(2000, &s1);
    let s2 = snapshot_from_pairs(&pairs(&[(110000, "北京"), (110100, "市辖区")]));
    tl.ingest(2010, &s2);
    let a = tl.get(110000).unwrap();
    assert_eq!(a.entries.len(), 2);
    assert_eq!(a.entries[0].time, 2000);
    assert_eq!(a.entries[0].name.as_ref().unwrap(), &bv("北京市"));
    assert_eq!(a.entries[1].time, 2010);
    assert_eq!(a.entries[1].name.as_ref().unwrap(), &bv("北京"));
    assert!(!a.deprecated);
    // 110100's own name did not change, but its parent's did.
    let b = tl.get(110100).unwrap();
    assert_eq!(b.entries.len(), 2);
    assert!(b.entries[0].parent_name_changed);
    assert_eq!(b.entries[0].parent_name.as_ref().unwrap(), &bv("北京市"));
    assert_eq!(b.entries[1].parent_name.as_ref().unwrap(), &bv("北京"));
}

#[test]
fn ingest_closes_and_reopens() {
    let mut tl = Timeline::new();
    let s1 = snapshot_from_pairs(&pairs(&[(110100, "甲")]));
    tl.ingest(2000, &s1);
    let s2 = snapshot_from_pairs(&pairs(&[]));
    tl.ingest(2010, &s2);
    {
        let a = tl.get(110100).unwrap();
        assert!(a.deprecated);
        assert_eq!(a.entries.len(), 2);
        assert!(a.entries[1].name.is_none());
        assert_eq!(a.entries[1].time, 2010);
    }
    let s3 = snapshot_from_pairs(&pairs(&[(110100, "甲")]));
    tl.ingest(2020, &s3);
    let a = tl.get(110100).unwrap();
    assert!(!a.deprecated);
    assert_eq!(a.entries.len(), 3);
    assert_eq!(a.entries[2].name.as_ref().unwrap(), &bv("甲"));
}

#[test]
fn ingest_identical_snapshot_is_idempotent() {
    let mut tl = Timeline::new();
    let snap = snapshot_from_pairs(&pairs(&[(110000, "北京市"), (110100, "市辖区")]));
    tl.ingest(2000, &snap);
    let count = |tl: &Timeline| {
        let a = tl.get(110000).unwrap().entries.len();
        let b = tl.get(110100).unwrap().entries.len();
        (a, b)
    };
    let before = count(&tl);
    // Replaying the same snapshot at the same tick changes nothing,
    tl.ingest(2000, &snap);
    assert_eq!(count(&tl), before);
    // and neither does replaying it at a later tick.
    tl.ingest(2010, &snap);
    assert_eq!(count(&tl), before);
}

#[test]
fn attach_adds_successor_once() {
    let mut tl = Timeline::new();
    tl.ingest(2000, &snapshot_from_pairs(&pairs(&[(110100, "甲")])));
    tl.ingest(2010, &snapshot_from_pairs(&pairs(&[(110100, "乙")])));
    let fd = FwdDiff { time: 2010, code: 110100, transfer: false, attr: vec![110100], desc_id: None };
    assert!(tl.attach(&fd).is_ok());
    assert!(tl.attach(&fd).is_ok());
    let a = tl.get(110100).unwrap();
    assert_eq!(a.entries[0].attr, vec![Successor { time: 2010, code: 110100, desc: None }]);
    assert!(a.entries[1].attr.is_empty());
}

#[test]
fn attach_skips_root_and_reports_errors() {
    let mut tl = Timeline::new();
    tl.ingest(2000, &snapshot_from_pairs(&pairs(&[(110100, "甲")])));
    let root = FwdDiff { time: 2010, code: 0, transfer: false, attr: vec![110100], desc_id: None };
    assert!(tl.attach(&root).is_ok());
    let unknown = FwdDiff { time: 2010, code: 999999, transfer: false, attr: vec![1], desc_id: None };
    assert!(tl.attach(&unknown).is_err());
    let too_early = FwdDiff { time: 2000, code: 110100, transfer: false, attr: vec![1], desc_id: None };
    assert!(tl.attach(&too_early).is_err());
}

#[test]
fn missing_diff_reported_without_successor() {
    let mut tl = Timeline::new();
    tl.ingest(2000, &snapshot_from_pairs(&pairs(&[(110000, "甲"), (110100, "丙")])));
    tl.ingest(2010, &snapshot_from_pairs(&pairs(&[(110000, "乙"), (110100, "丙")])));
    // 110100's parent name changed from 甲 to 乙 with no attached change.
    assert_eq!(tl.missing_diff_report(), vec![(110100, 2010)]);
    let fd = FwdDiff { time: 2010, code: 110100, transfer: true, attr: vec![110100], desc_id: None };
    tl.attach(&fd).unwrap();
    assert_eq!(tl.missing_diff_report(), Vec::<(u32, u32)>::new());
}

#[test]
fn last_name_intersecting_scans_versions() {
    let area = Area {
        entries: vec![
            Entry { time: 2000, name: Some(bv("甲")), parent_name: None, attr: vec![], parent_name_changed: false },
            Entry { time: 2010, name: Some(bv("乙")), parent_name: None, attr: vec![], parent_name_changed: false },
        ],
        deprecated: false,
    };
    assert_eq!(area.last_name_intersecting(2000, None).unwrap(), bv("乙"));
    assert_eq!(area.last_name_intersecting(2000, Some(2010)).unwrap(), bv("甲"));
    assert_eq!(area.last_name_intersecting(2005, Some(2020)).unwrap(), bv("乙"));
    assert!(area.last_name_intersecting(2000, Some(2000)).is_none());
    let closed = Area {
        entries: vec![
            Entry { time: 2000, name: Some(bv("甲")), parent_name: None, attr: vec![], parent_name_changed: false },
            Entry { time: 2010, name: None, parent_name: None, attr: vec![], parent_name_changed: false },
        ],
        deprecated: true,
    };
    assert_eq!(closed.last_name_intersecting(2000, Some(2010)).unwrap(), bv("甲"));
    assert!(closed.last_name_intersecting(2010, Some(2020)).is_none());
}

#[test]
fn duplicate_snapshot_codes_last_wins() {
    let snap = snapshot_from_pairs(&pairs(&[(110100, "甲"), (110100, "乙")]));
    let mut tl = Timeline::new();
    tl.ingest(2000, &snap);
    let a = tl.get(110100).unwrap();
    assert_eq!(a.entries[0].name.as_ref().unwrap(), &bv("乙"));
}

#[test]
fn duplicate_table_codes_keep_stale_name_index() {
    // A re-recorded code answers to its newest name, but the name index
    // still lists it under the old one: duplicate records within one
    // snapshot are taken silently, last occurrence winning.
    let mut t = DataTable::new();
    t.insert(110100, bv("甲"));
    t.insert(110100, bv("乙"));
    assert_eq!(t.name_by_code(110100).unwrap(), bv("乙"));
    assert_eq!(t.codes_by_name(&bv("乙")), vec![110100]);
    assert_eq!(t.codes_by_name(&bv("甲")), vec![110100]);
}
