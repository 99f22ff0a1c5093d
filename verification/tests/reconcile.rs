use areacodes::parser::{ChangeLine, Selector};
use areacodes::process::{build_table, snapshot_from_pairs, EmptySelectorPolicy, FilePass};
use areacodes::resolve::{select, Ledger};
use areacodes::timeline::{Successor, Timeline};
use areacodes::{ErrorKind, ProcessError};

fn bv(s: &str) -> Vec<u8> {
    s.as_bytes().to_vec()
}

fn pairs(list: &[(u32, &str)]) -> Vec<(u32, Vec<u8>)> {
    list.iter().map(|&(c, n)| (c, bv(n))).collect()
}

fn pass(time: u32, src: &[(u32, &str)], dst: &[(u32, &str)]) -> FilePass {
    FilePass::new(
        time,
        bv("![described]"),
        EmptySelectorPolicy::AllowUndescribed,
        &pairs(src),
        &pairs(dst),
    )
}

#[test]
fn ledger_pairs_reciprocal_relations() {
    let mut l = Ledger::new();
    l.record(true, 110100, 110200);
    assert_eq!(l.remaining(), vec![(-110100, 110200)]);
    l.record(false, 110200, 110100);
    assert_eq!(l.remaining(), Vec::<(i32, i32)>::new());
}

#[test]
fn ledger_keeps_duplicate_relations_counted() {
    let mut l = Ledger::new();
    l.record(true, 110100, 110200);
    l.record(true, 110100, 110200);
    l.record(false, 110200, 110100);
    assert_eq!(l.remaining(), vec![(-110100, 110200)]);
}

#[test]
fn error_kinds_classify() {
    assert_eq!(ProcessError::MalformedLine.kind(), ErrorKind::MalformedInput);
    assert_eq!(ProcessError::NotFound.kind(), ErrorKind::ResolutionFailure);
    assert_eq!(ProcessError::MultipleRecords.kind(), ErrorKind::ResolutionFailure);
    assert_eq!(ProcessError::NameMismatch.kind(), ErrorKind::ConsistencyViolation);
    assert_eq!(ProcessError::DuplicateDeletion.kind(), ErrorKind::OmissionDefect);
    assert_eq!(ProcessError::Omission.kind(), ErrorKind::OmissionDefect);
}

#[test]
fn scenario_rename_in_place() {
    // snapshot@2000 maps 110100 to A; snapshot@2010 maps it to B; the log
    // records the rename from both sides with the self selector.
    let mut tl = Timeline::new();
    tl.ingest(2000, &snapshot_from_pairs(&pairs(&[(110100, "A")])));
    tl.ingest(2010, &snapshot_from_pairs(&pairs(&[(110100, "B")])));
    let mut p = pass(2010, &[(110100, "A")], &[(110100, "B")]);
    p.process_line(&bv("-110100 A>.")).unwrap();
    p.process_line(&bv("+110100 B<.")).unwrap();
    assert!(p.asymmetries().is_empty());
    assert!(p.check_omission());
    for fd in &p.out {
        tl.attach(fd).unwrap();
    }
    let a = tl.get(110100).unwrap();
    assert_eq!(a.entries.len(), 2);
    assert_eq!(a.entries[0].time, 2000);
    assert_eq!(a.entries[0].name.as_ref().unwrap(), &bv("A"));
    assert_eq!(a.entries[1].time, 2010);
    assert_eq!(a.entries[1].name.as_ref().unwrap(), &bv("B"));
    assert_eq!(a.entries[0].attr, vec![Successor { time: 2010, code: 110100, desc: None }]);
}

#[test]
fn scenario_merge_forward_only_is_asymmetric() {
    // 110100 merges into 110200 via a forward deletion line only; the
    // validator reports exactly one asymmetry for the pair.
    let mut p = pass(2010, &[(110100, "X"), (110200, "Y")], &[(110200, "Y")]);
    p.process_line(&bv("-110100 X>Y")).unwrap();
    assert_eq!(p.asymmetries(), vec![(-110100, 110200)]);
    assert!(p.check_omission());
    assert_eq!(p.out.len(), 1);
    assert_eq!(p.out[0].code, 110100);
    assert_eq!(p.out[0].attr, vec![110200]);
}

#[test]
fn scenario_children_forbid_selectors() {
    // 110100 is a prefecture with children; a non-transfer change on it
    // carrying selectors is a consistency violation.
    let src = &[(110100, "市辖区"), (110101, "东城区")];
    let dst = &[(110100, "市辖区"), (110101, "东城区")];
    let mut p = pass(2010, src, dst);
    let e = p.process_line(&bv("-110100 市辖区>.")).unwrap_err();
    assert_eq!(e, ProcessError::NonemptyAttrWithChildren);
    assert_eq!(e.kind(), ErrorKind::ConsistencyViolation);
}

#[test]
fn scenario_qualified_name_selects_by_parent() {
    // Two candidates bear the same name; the explicit qualifier keeps
    // only the one whose resolved parent bears the qualifier name.
    let table = &[
        (110100, "北京市"),
        (110105, "朝阳区"),
        (210500, "朝阳市"),
        (210502, "朝阳区"),
    ];
    let t = build_table(&pairs(table));
    let o = build_table(&pairs(table));
    let mut l = Ledger::new();
    let line = ChangeLine {
        fwd: true,
        transfer: false,
        code: 110102,
        name: bv("某地"),
        attr: Some(vec![Selector::Name { name: bv("朝阳区"), parent: Some(bv("北京市")) }]),
    };
    assert_eq!(select(&t, &o, &mut l, &line).unwrap(), vec![110105]);
}

#[test]
fn scenario_two_qualifying_candidates_fail() {
    // When two candidates qualify equally, resolution fails with
    // multiple records found.
    let table = &[
        (110100, "北京市"),
        (110105, "朝阳区"),
        (110107, "朝阳区"),
    ];
    let t = build_table(&pairs(table));
    let o = build_table(&pairs(table));
    let mut l = Ledger::new();
    let line = ChangeLine {
        fwd: true,
        transfer: false,
        code: 110102,
        name: bv("某地"),
        attr: Some(vec![Selector::Name { name: bv("朝阳区"), parent: Some(bv("北京市")) }]),
    };
    assert_eq!(select(&t, &o, &mut l, &line).unwrap_err(), ProcessError::MultipleRecords);
}

#[test]
fn name_splitting_resolves_qualified_prefix() {
    // 北京市东城区 names nothing directly, so the text is split into the
    // parent 北京市 and the local name 东城区.
    let table = &[(110000, "北京市"), (110101, "东城区")];
    let t = build_table(&pairs(table));
    let o = build_table(&pairs(table));
    let mut l = Ledger::new();
    let line = ChangeLine {
        fwd: true,
        transfer: false,
        code: 110102,
        name: bv("某地"),
        attr: Some(vec![Selector::Name { name: bv("北京市东城区"), parent: None }]),
    };
    assert_eq!(select(&t, &o, &mut l, &line).unwrap(), vec![110101]);
}

#[test]
fn unresolvable_name_is_not_found() {
    let t = build_table(&pairs(&[(110000, "北京市")]));
    let o = build_table(&pairs(&[(110000, "北京市")]));
    let mut l = Ledger::new();
    let line = ChangeLine {
        fwd: true,
        transfer: false,
        code: 110102,
        name: bv("某地"),
        attr: Some(vec![Selector::Name { name: bv("不存在"), parent: None }]),
    };
    assert_eq!(select(&t, &o, &mut l, &line).unwrap_err(), ProcessError::NotFound);
}

#[test]
fn parent_selector_resolves_against_origin() {
    let t = build_table(&pairs(&[(110000, "北京市")]));
    let o = build_table(&pairs(&[(110000, "北京市"), (110101, "东城区")]));
    let mut l = Ledger::new();
    // The origin table lacks 110100, so the parent of 110101 skips one
    // level to 110000, which the target does hold.
    let line = ChangeLine {
        fwd: true,
        transfer: false,
        code: 110101,
        name: bv("东城区"),
        attr: Some(vec![Selector::ParentCode]),
    };
    assert_eq!(select(&t, &o, &mut l, &line).unwrap(), vec![110000]);
}

#[test]
fn declared_name_must_match_snapshot() {
    let mut p = pass(2010, &[(110100, "甲")], &[(110100, "乙")]);
    let e = p.process_line(&bv("-110100 错>.")).unwrap_err();
    assert_eq!(e, ProcessError::NameMismatch);
}

#[test]
fn duplicate_deletion_is_fatal() {
    let mut p = pass(2010, &[(110100, "甲"), (110200, "乙")], &[(110200, "乙")]);
    p.process_line(&bv("-110100 甲>乙")).unwrap();
    let e = p.process_line(&bv("-110100 甲>乙")).unwrap_err();
    assert_eq!(e, ProcessError::DuplicateDeletion);
}

#[test]
fn transfer_requires_same_name_on_both_sides() {
    let mut p = pass(2010, &[(110100, "甲")], &[(110100, "甲")]);
    p.process_line(&bv("=110100 甲>.")).unwrap();
    let mut q = pass(2010, &[(110100, "甲")], &[(110100, "乙")]);
    let e = q.process_line(&bv("=110100 甲>.")).unwrap_err();
    assert_eq!(e, ProcessError::NameMismatch);
}

#[test]
fn omission_detected_when_record_left_over() {
    let p = pass(2010, &[(110100, "X"), (110200, "Y")], &[(110200, "Y")]);
    // The deletion of 110100 is never logged.
    assert!(!p.check_omission());
    assert_eq!(p.finish().unwrap_err(), ProcessError::Omission);
}

#[test]
fn omission_detects_unlogged_rename() {
    let mut p = pass(2010, &[(110100, "甲")], &[(110100, "乙")]);
    // The code survives but its name changed, so the remaining records
    // of the two snapshots disagree until both sides are logged.
    assert!(!p.check_omission());
    p.process_line(&bv("-110100 甲>.")).unwrap();
    p.process_line(&bv("+110100 乙<.")).unwrap();
    assert!(p.check_omission());
}

#[test]
fn description_capture_and_flush() {
    let mut p = pass(2010, &[(110100, "甲"), (110200, "乙")], &[(110200, "乙")]);
    p.process_line(&bv("#![described]")).unwrap();
    p.process_line(&bv("# 甲并入乙")).unwrap();
    p.process_line(&bv("#  第二行")).unwrap();
    p.process_line(&bv("-110100 甲>乙")).unwrap();
    assert_eq!(p.descriptions.len(), 1);
    assert_eq!(p.descriptions[0], bv("甲并入乙\n第二行"));
    assert_eq!(p.desc_id, Some(0));
    assert_eq!(p.out[0].desc_id, Some(0));
}

#[test]
fn comments_without_marker_are_ignored() {
    let mut p = pass(2010, &[(110100, "甲"), (110200, "乙")], &[(110200, "乙")]);
    p.process_line(&bv("#just a note")).unwrap();
    p.process_line(&bv("-110100 甲>乙")).unwrap();
    assert_eq!(p.descriptions.len(), 0);
    assert_eq!(p.out[0].desc_id, None);
}

#[test]
fn separator_resets_capture_and_id() {
    let mut p = pass(2010, &[(110100, "甲"), (110200, "乙")], &[(110200, "乙")]);
    p.process_line(&bv("#![described]")).unwrap();
    p.process_line(&bv("# 说明")).unwrap();
    p.process_line(&bv("")).unwrap();
    assert_eq!(p.dangling, 1);
    p.process_line(&bv("-110100 甲>乙")).unwrap();
    assert_eq!(p.descriptions.len(), 0);
    assert_eq!(p.out[0].desc_id, None);
}

#[test]
fn description_id_persists_until_separator() {
    let mut p = pass(
        2010,
        &[(110100, "甲"), (110200, "乙"), (110300, "丙")],
        &[(110200, "乙"), (110300, "丙")],
    );
    p.process_line(&bv("#![described]")).unwrap();
    p.process_line(&bv("# 调整")).unwrap();
    p.process_line(&bv("-110100 甲>乙")).unwrap();
    p.process_line(&bv("+110200 乙<甲")).unwrap();
    assert_eq!(p.out.len(), 2);
    assert_eq!(p.out[0].desc_id, Some(0));
    assert_eq!(p.out[1].desc_id, Some(0));
}

#[test]
fn empty_selector_policy_variants() {
    let src = &[(110100, "甲"), (110200, "乙")];
    let dst = &[(110200, "乙")];
    // All selectors non-binding leaves an empty list on a childless code.
    let line = bv("-110100 甲>乙?");
    let mut strict = FilePass::new(2010, bv("![described]"), EmptySelectorPolicy::AlwaysFatal, &pairs(src), &pairs(dst));
    assert_eq!(strict.process_line(&line).unwrap_err(), ProcessError::EmptyAttrWithoutChildren);
    let mut lax = FilePass::new(2010, bv("![described]"), EmptySelectorPolicy::AllowAll, &pairs(src), &pairs(dst));
    lax.process_line(&line).unwrap();
    assert!(lax.out.is_empty());
    let mut mid = FilePass::new(2010, bv("![described]"), EmptySelectorPolicy::AllowUndescribed, &pairs(src), &pairs(dst));
    mid.process_line(&line).unwrap();
    assert!(mid.out.is_empty());
    let mut mid2 = FilePass::new(2010, bv("![described]"), EmptySelectorPolicy::AllowUndescribed, &pairs(src), &pairs(dst));
    mid2.process_line(&bv("#![described]")).unwrap();
    mid2.process_line(&bv("# 弃用说明")).unwrap();
    assert_eq!(mid2.process_line(&line).unwrap_err(), ProcessError::EmptyAttrWithoutChildren);
}

#[test]
fn malformed_line_is_fatal() {
    let mut p = pass(2010, &[(110100, "甲")], &[(110100, "甲")]);
    let e = p.process_line(&bv("!110100 甲>.")).unwrap_err();
    assert_eq!(e, ProcessError::MalformedLine);
    assert_eq!(e.kind(), ErrorKind::MalformedInput);
}

#[test]
fn backward_line_emits_one_record_per_origin() {
    // 110100 and 110200 merge into 110300: the backward addition line
    // names both origins and yields one forward record for each.
    let mut p = pass(
        2010,
        &[(110100, "甲"), (110200, "乙")],
        &[(110300, "丙")],
    );
    p.process_line(&bv("+110300 丙<甲,乙")).unwrap();
    assert_eq!(p.out.len(), 2);
    assert_eq!(p.out[0].code, 110100);
    assert_eq!(p.out[0].attr, vec![110300]);
    assert_eq!(p.out[1].code, 110200);
    assert_eq!(p.out[1].attr, vec![110300]);
}

#[test]
fn parent_chain_reaches_root() {
    let mut t = areacodes::table::DataTable::new();
    t.insert(110000, bv("北京市"));
    t.insert(110100, bv("市辖区"));
    t.insert(110101, bv("东城区"));
    let step1 = t.parent_code(110101);
    let step2 = t.parent_code(step1);
    let step3 = t.parent_code(step2);
    assert_eq!((step1, step2, step3), (110100, 110000, 0));
    // From a county with no recorded ancestors the chain still bottoms out.
    let empty = areacodes::table::DataTable::new();
    assert_eq!(empty.parent_code(empty.parent_code(empty.parent_code(654321))), 0);
}

#[test]
fn parent_selector_can_target_the_root() {
    // A province's parent resolves to the synthetic root, which answers
    // to the fixed country name; the emitted record on the root side is
    // skipped when attached.
    let mut p = pass(2010, &[(110000, "甲省")], &[]);
    p.process_line(&bv("-110000 甲省>..")).unwrap();
    assert_eq!(p.out.len(), 1);
    assert_eq!(p.out[0].attr, vec![0]);
    let mut tl = Timeline::new();
    tl.ingest(2000, &snapshot_from_pairs(&pairs(&[(110000, "甲省")])));
    let back = areacodes::FwdDiff { time: 2010, code: 0, transfer: false, attr: vec![110000], desc_id: None };
    assert!(tl.attach(&back).is_ok());
    assert!(tl.get(0).is_none());
}

#[test]
fn transfer_relations_pair_like_any_other() {
    let mut p = pass(2010, &[(110100, "甲")], &[(110100, "甲")]);
    p.process_line(&bv("=110100 甲>.")).unwrap();
    assert_eq!(p.asymmetries(), vec![(-110100, 110100)]);
    p.process_line(&bv("=110100 甲<.")).unwrap();
    assert!(p.asymmetries().is_empty());
    assert!(p.check_omission());
}

#[test]
fn failed_selector_keeps_earlier_relations() {
    // Resolution stops at the first failing selector; the relations
    // already resolved stay posted in the ledger.
    let mut p = pass(2010, &[(110100, "甲"), (110200, "乙")], &[(110200, "乙")]);
    let e = p.process_line(&bv("-110100 甲>乙,不存在")).unwrap_err();
    assert_eq!(e, ProcessError::NotFound);
    assert_eq!(p.asymmetries(), vec![(-110100, 110200)]);
}
