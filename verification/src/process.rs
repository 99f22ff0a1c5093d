//! Replaying one change-log file against its two snapshots.
//!
//! A [`FilePass`] holds the per-file state: the two snapshot lookup
//! tables, the remaining unconsumed records of both snapshots, the
//! symmetry ledger, the description capture, and the resolved changes
//! emitted so far. Lines are fed in order through [`FilePass::process_line`];
//! at end of file the caller reads the asymmetry report and runs the
//! omission check.

use vstd::prelude::*;
use crate::{FwdDiff, ProcessError};
use crate::bytes::{bytes_copy, bytes_eq};
use crate::codemap::{view_seq, CodeMap};
use crate::parser::{parse_line, spec_parse_line, ChangeLineV, Line, LineV};
use crate::resolve::{
    attr_sels, first_fail, found_code, record_upto, resolve_selector, select, Ledger, Resolution,
};
use crate::table::{table_insert, table_name_of, DataTable, TableV};

verus! {

/// The mathematical content of a [`FwdDiff`].
pub ghost struct FwdDiffV {
    pub time: u32,
    pub code: u32,
    pub transfer: bool,
    pub attr: Seq<u32>,
    pub desc_id: Option<u32>,
}

impl View for FwdDiff {
    type V = FwdDiffV;

    open spec fn view(&self) -> FwdDiffV {
        FwdDiffV {
            time: self.time,
            code: self.code,
            transfer: self.transfer,
            attr: self.attr@,
            desc_id: self.desc_id,
        }
    }
}

/// What to do with a change on a childless code whose selector list is
/// empty. Revisions of the authored grammar disagree on whether such a
/// line may carry a description, so the rule is configurable.
#[derive(Clone, Copy, Debug, PartialEq, Eq, Structural)]
pub enum EmptySelectorPolicy {
    /// Always fatal.
    AlwaysFatal,
    /// Accepted and skipped when undescribed, fatal when a description
    /// is attached.
    AllowUndescribed,
    /// Always accepted and skipped.
    AllowAll,
}

/// The mathematical content of a [`FilePass`].
pub ghost struct PassV {
    pub time: u32,
    pub marker: Seq<u8>,
    pub policy: EmptySelectorPolicy,
    pub src: TableV,
    pub dst: TableV,
    pub rem_src: Map<u32, Seq<u8>>,
    pub rem_dst: Map<u32, Seq<u8>>,
    pub ledger: Seq<(i32, i32)>,
    pub capturing: bool,
    pub buf: Seq<u8>,
    pub desc_id: Option<u32>,
    pub descriptions: Seq<Seq<u8>>,
    pub out: Seq<FwdDiffV>,
    pub dangling: u32,
}

/// Whether a byte is ASCII whitespace.
pub open spec fn is_space(b: u8) -> bool {
    b == 32 || b == 9 || b == 10 || b == 13 || b == 12
}

/// A comment body with its leading whitespace removed.
pub open spec fn trim_start(b: Seq<u8>) -> Seq<u8>
    decreases b.len(),
{
    if b.len() > 0 && is_space(b[0]) {
        trim_start(b.drop_first())
    } else {
        b
    }
}

/// The pass after an empty separator line: a pending capture is
/// discarded (counted as dangling when nonempty) and the current
/// description id is reset.
pub open spec fn step_empty(s: PassV) -> PassV {
    PassV {
        capturing: false,
        buf: Seq::empty(),
        desc_id: None,
        dangling: if s.buf.len() > 0 && s.dangling < u32::MAX {
            (s.dangling + 1) as u32
        } else {
            s.dangling
        },
        ..s
    }
}

/// The pass after a comment line: the toggle marker starts a capture,
/// captured lines accumulate trimmed with a newline, other comments are
/// ignored.
pub open spec fn step_comment(s: PassV, body: Seq<u8>) -> PassV {
    if body == s.marker {
        PassV { capturing: true, ..s }
    } else if s.capturing {
        PassV { buf: s.buf + trim_start(body) + seq![10u8], ..s }
    } else {
        s
    }
}

/// The pass after a pending description is flushed onto a change line:
/// the captured text (without its final newline) becomes the next
/// description block and the current id.
pub open spec fn flush(s: PassV) -> PassV {
    if s.buf.len() > 0 {
        PassV {
            capturing: false,
            buf: Seq::empty(),
            desc_id: Some(s.descriptions.len() as u32),
            descriptions: s.descriptions.push(s.buf.drop_last()),
            ..s
        }
    } else {
        s
    }
}

/// The resolved target of every selector, in order.
pub open spec fn resolved_seq(t: TableV, o: TableV, own: u32, sels: Seq<crate::parser::SelectorV>)
    -> Seq<u32> {
    Seq::new(sels.len(), |k: int| found_code(resolve_selector(t, o, own, sels[k])))
}

/// The forward records a backward change emits: one per resolved origin
/// code, each pointing at the change's own code.
pub open spec fn back_diffs(
    time: u32,
    code: u32,
    transfer: bool,
    res: Seq<u32>,
    desc: Option<u32>,
) -> Seq<FwdDiffV> {
    Seq::new(res.len(), |k: int| FwdDiffV {
        time,
        code: res[k],
        transfer,
        attr: seq![code],
        desc_id: desc,
    })
}

/// The pass and verdict after one change assertion: flush the pending
/// description, hold the declared name against the authoritative
/// snapshot, consume the code from the remaining records, resolve the
/// selectors (posting each relation to the ledger), enforce the
/// selector-emptiness policy, and emit the resolved change.
pub open spec fn step_change(s: PassV, cl: ChangeLineV) -> (PassV, Option<ProcessError>) {
    let s1 = flush(s);
    if cl.transfer && !(table_name_of(s1.src, cl.code) == table_name_of(s1.dst, cl.code)
        && table_name_of(s1.src, cl.code) == Some(cl.name)) {
        (s1, Some(ProcessError::NameMismatch))
    } else if !cl.transfer && cl.fwd && table_name_of(s1.src, cl.code) != Some(cl.name) {
        (s1, Some(ProcessError::NameMismatch))
    } else if !cl.transfer && !cl.fwd && table_name_of(s1.dst, cl.code) != Some(cl.name) {
        (s1, Some(ProcessError::NameMismatch))
    } else if !cl.transfer && cl.fwd && !(s1.rem_src.contains_key(cl.code)
        && s1.rem_src[cl.code] == cl.name) {
        (s1, Some(ProcessError::DuplicateDeletion))
    } else if !cl.transfer && !cl.fwd && !(s1.rem_dst.contains_key(cl.code)
        && s1.rem_dst[cl.code] == cl.name) {
        (s1, Some(ProcessError::DuplicateAddition))
    } else {
        let s2 = if cl.transfer {
            s1
        } else if cl.fwd {
            PassV { rem_src: s1.rem_src.remove(cl.code), ..s1 }
        } else {
            PassV { rem_dst: s1.rem_dst.remove(cl.code), ..s1 }
        };
        let t = if cl.fwd {
            s2.dst
        } else {
            s2.src
        };
        let o = if cl.fwd {
            s2.src
        } else {
            s2.dst
        };
        let sels = attr_sels(cl);
        let ff = first_fail(t, o, cl.code, sels, 0);
        if ff != -1 {
            let s3 = PassV {
                ledger: record_upto(s2.ledger, t, o, cl.fwd, cl.code, sels, ff),
                ..s2
            };
            let e = if resolve_selector(t, o, cl.code, sels[ff]) == Resolution::Multiple {
                ProcessError::MultipleRecords
            } else {
                ProcessError::NotFound
            };
            (s3, Some(e))
        } else {
            let s3 = PassV {
                ledger: record_upto(s2.ledger, t, o, cl.fwd, cl.code, sels, sels.len() as int),
                ..s2
            };
            let res = resolved_seq(t, o, cl.code, sels);
            let has_kids = o.kids.contains(cl.code);
            if has_kids && !cl.transfer {
                if res.len() > 0 {
                    (s3, Some(ProcessError::NonemptyAttrWithChildren))
                } else {
                    (s3, None)
                }
            } else if !has_kids && res.len() == 0 {
                match s3.policy {
                    EmptySelectorPolicy::AlwaysFatal => (
                        s3,
                        Some(ProcessError::EmptyAttrWithoutChildren),
                    ),
                    EmptySelectorPolicy::AllowUndescribed => if s3.desc_id is None {
                        (s3, None)
                    } else {
                        (s3, Some(ProcessError::EmptyAttrWithoutChildren))
                    },
                    EmptySelectorPolicy::AllowAll => (s3, None),
                }
            } else {
                if cl.fwd {
                    (
                        PassV {
                            out: s3.out.push(FwdDiffV {
                                time: s3.time,
                                code: cl.code,
                                transfer: cl.transfer,
                                attr: res,
                                desc_id: s3.desc_id,
                            }),
                            ..s3
                        },
                        None,
                    )
                } else {
                    (
                        PassV {
                            out: s3.out + back_diffs(
                                s3.time,
                                cl.code,
                                cl.transfer,
                                res,
                                s3.desc_id,
                            ),
                            ..s3
                        },
                        None,
                    )
                }
            }
        }
    }
}

/// The target and origin tables a change points at: forward changes
/// point into the later snapshot from the earlier one, backward changes
/// the other way around.
pub open spec fn step_tables(s: PassV, cl: ChangeLineV) -> (TableV, TableV) {
    if cl.fwd {
        (s.dst, s.src)
    } else {
        (s.src, s.dst)
    }
}

/// The pass and verdict after one line of the change-log file.
pub open spec fn step(s: PassV, line: Seq<u8>) -> (PassV, Option<ProcessError>) {
    match spec_parse_line(line) {
        None => (s, Some(ProcessError::MalformedLine)),
        Some(LineV::Empty) => (step_empty(s), None),
        Some(LineV::Comment(b)) => (step_comment(s, b), None),
        Some(LineV::Change(cl)) => step_change(s, cl),
    }
}

/// The lookup table a sequence of snapshot records builds, in order.
pub open spec fn table_of(pairs: Seq<(u32, Vec<u8>)>) -> TableV
    decreases pairs.len(),
{
    if pairs.len() == 0 {
        TableV {
            c2n: Map::empty(),
            n2c: Map::empty(),
            kids: Set::empty(),
        }
    } else {
        table_insert(table_of(pairs.drop_last()), pairs.last().0, pairs.last().1@)
    }
}

/// The code-to-name map a sequence of snapshot records builds, the last
/// occurrence of a code winning.
pub open spec fn snap_of(pairs: Seq<(u32, Vec<u8>)>) -> Map<u32, Seq<u8>>
    decreases pairs.len(),
{
    if pairs.len() == 0 {
        Map::empty()
    } else {
        snap_of(pairs.drop_last()).insert(pairs.last().0, pairs.last().1@)
    }
}

/// Build the code-to-name map of one snapshot; see [`snap_of`].
pub fn snapshot_from_pairs(pairs: &Vec<(u32, Vec<u8>)>) -> (r: CodeMap<Vec<u8>>)
    ensures
        r.wf(),
        r@ =~= snap_of(pairs@),
{
    let n = pairs.len();
    let mut r: CodeMap<Vec<u8>> = CodeMap::new();
    let mut i: usize = 0;
    while i < n
        invariant
            i <= n,
            n == pairs@.len(),
            r.wf(),
            r@ =~= snap_of(pairs@.subrange(0, i as int)),
        decreases n - i,
    {
        r.insert(pairs[i].0, bytes_copy(&pairs[i].1));
        proof {
            assert(pairs@.subrange(0, i as int + 1).drop_last()
                =~= pairs@.subrange(0, i as int));
            assert(pairs@.subrange(0, i as int + 1).last() == pairs@[i as int]);
        }
        i += 1;
    }
    proof {
        assert(pairs@.subrange(0, n as int) =~= pairs@);
    }
    r
}

/// The per-file state of one reconciliation pass.
pub struct FilePass {
    /// The later snapshot's tick: the effective time of every change.
    pub time: u32,
    /// The comment body that begins a description capture.
    pub marker: Vec<u8>,
    /// The rule for childless changes with an empty selector list.
    pub policy: EmptySelectorPolicy,
    /// The earlier snapshot's lookup table.
    pub src: DataTable,
    /// The later snapshot's lookup table.
    pub dst: DataTable,
    /// The earlier snapshot's records not yet consumed by a deletion.
    pub rem_src: CodeMap<Vec<u8>>,
    /// The later snapshot's records not yet consumed by an addition.
    pub rem_dst: CodeMap<Vec<u8>>,
    /// The symmetry ledger.
    pub ledger: Ledger,
    /// Whether comment lines are being captured.
    pub capturing: bool,
    /// The captured description text, one trailing newline per line.
    pub buf: Vec<u8>,
    /// The description id the next emitted change references.
    pub desc_id: Option<u32>,
    /// The description blocks flushed so far, indexed by id.
    pub descriptions: Vec<Vec<u8>>,
    /// The resolved changes emitted so far, in forward form.
    pub out: Vec<FwdDiff>,
    /// How many pending captures were discarded by separator lines.
    pub dangling: u32,
}

impl View for FilePass {
    type V = PassV;

    open spec fn view(&self) -> PassV {
        PassV {
            time: self.time,
            marker: self.marker@,
            policy: self.policy,
            src: self.src@,
            dst: self.dst@,
            rem_src: self.rem_src@,
            rem_dst: self.rem_dst@,
            ledger: self.ledger@,
            capturing: self.capturing,
            buf: self.buf@,
            desc_id: self.desc_id,
            descriptions: self.descriptions@.map_values(|d: Vec<u8>| d@),
            out: self.out@.map_values(|f: FwdDiff| f@),
            dangling: self.dangling,
        }
    }
}

/// Where a comment body's leading whitespace ends.
fn trim_index(body: &Vec<u8>) -> (r: usize)
    ensures
        r <= body@.len(),
        trim_start(body@) == body@.subrange(r as int, body@.len() as int),
{
    let n = body.len();
    proof {
        assert(body@.subrange(0, n as int) =~= body@);
    }
    let mut i: usize = 0;
    while i < n
        invariant
            i <= n,
            n == body@.len(),
            trim_start(body@) == trim_start(body@.subrange(i as int, n as int)),
        decreases n - i,
    {
        let b = body[i];
        if !(b == 32 || b == 9 || b == 10 || b == 13 || b == 12) {
            proof {
                assert(body@.subrange(i as int, n as int)[0] == body@[i as int]);
            }
            return i;
        }
        proof {
            assert(body@.subrange(i as int, n as int)[0] == body@[i as int]);
            assert(body@.subrange(i as int, n as int).drop_first()
                =~= body@.subrange(i as int + 1, n as int));
        }
        i += 1;
    }
    proof {
        assert(body@.subrange(n as int, n as int) =~= Seq::<u8>::empty());
    }
    n
}

/// Append a trimmed comment line and a newline to the capture buffer.
fn buf_extend(buf: &mut Vec<u8>, body: &Vec<u8>)
    ensures
        final(buf)@ == old(buf)@ + trim_start(body@) + seq![10u8],
{
    let n = body.len();
    let i = trim_index(body);
    let mut j: usize = i;
    while j < n
        invariant
            i <= j <= n,
            n == body@.len(),
            buf@ == old(buf)@ + body@.subrange(i as int, j as int),
        decreases n - j,
    {
        buf.push(body[j]);
        proof {
            assert(buf@ =~= old(buf)@ + body@.subrange(i as int, j as int + 1));
        }
        j += 1;
    }
    buf.push(10);
    proof {
        assert(final(buf)@ =~= old(buf)@ + trim_start(body@) + seq![10u8]);
    }
}

impl FilePass {
    /// The tables and remaining-record maps are well formed.
    pub open spec fn wf(&self) -> bool {
        self.src.wf() && self.dst.wf() && self.rem_src.wf() && self.rem_dst.wf()
    }

    /// A fresh pass over one snapshot pair: the records build the two
    /// lookup tables and the two remaining-record maps; everything else
    /// starts empty.
    pub fn new(
        time: u32,
        marker: Vec<u8>,
        policy: EmptySelectorPolicy,
        src_pairs: &Vec<(u32, Vec<u8>)>,
        dst_pairs: &Vec<(u32, Vec<u8>)>,
    ) -> (r: FilePass)
        requires
            forall|i: int| 0 <= i < src_pairs@.len() ==> (#[trigger] src_pairs@[i]).0 <= 999999,
            forall|i: int| 0 <= i < dst_pairs@.len() ==> (#[trigger] dst_pairs@[i]).0 <= 999999,
        ensures
            r.wf(),
            r@.time == time,
            r@.marker == marker@,
            r@.policy == policy,
            r@.src == table_of(src_pairs@),
            r@.dst == table_of(dst_pairs@),
            r@.rem_src =~= snap_of(src_pairs@),
            r@.rem_dst =~= snap_of(dst_pairs@),
            r@.ledger =~= Seq::<(i32, i32)>::empty(),
            !r@.capturing,
            r@.buf =~= Seq::<u8>::empty(),
            r@.desc_id is None,
            r@.descriptions =~= Seq::<Seq<u8>>::empty(),
            r@.out =~= Seq::<FwdDiffV>::empty(),
            r@.dangling == 0,
    {
        let src = build_table(src_pairs);
        let dst = build_table(dst_pairs);
        let rem_src = snapshot_from_pairs(src_pairs);
        let rem_dst = snapshot_from_pairs(dst_pairs);
        let r = FilePass {
            time,
            marker,
            policy,
            src,
            dst,
            rem_src,
            rem_dst,
            ledger: Ledger::new(),
            capturing: false,
            buf: Vec::new(),
            desc_id: None,
            descriptions: Vec::new(),
            out: Vec::new(),
            dangling: 0,
        };
        proof {
            assert(r@.descriptions =~= Seq::<Seq<u8>>::empty());
            assert(r@.out =~= Seq::<FwdDiffV>::empty());
        }
        r
    }

    /// Feed one line of the change-log file through the pass; see
    /// [`step`] for the exact effect and [`ProcessError`] for the fatal
    /// verdicts.
    #[verifier::rlimit(80)]
    pub fn process_line(&mut self, line: &Vec<u8>) -> (r: Result<(), ProcessError>)
        requires
            old(self).wf(),
            old(self)@.descriptions.len() < u32::MAX,
        ensures
            final(self).wf(),
            final(self)@ == step(old(self)@, line@).0,
            r == (match step(old(self)@, line@).1 {
                None => Ok::<(), ProcessError>(()),
                Some(e) => Err::<(), ProcessError>(e),
            }),
    {
        let ghost s0 = self@;
        let parsed = match parse_line(line) {
            None => {
                return Err(ProcessError::MalformedLine);
            },
            Some(l) => l,
        };
        match parsed {
            Line::Empty => {
                if self.buf.len() > 0 && self.dangling < u32::MAX {
                    self.dangling = self.dangling + 1;
                }
                self.capturing = false;
                self.buf.clear();
                self.desc_id = None;
                proof {
                    assert(self@.buf =~= Seq::<u8>::empty());
                    assert(self@ == step_empty(s0));
                }
                Ok(())
            },
            Line::Comment(body) => {
                if bytes_eq(&body, &self.marker) {
                    self.capturing = true;
                    proof {
                        assert(self@ == step_comment(s0, body@));
                    }
                } else if self.capturing {
                    buf_extend(&mut self.buf, &body);
                    proof {
                        assert(self@ == step_comment(s0, body@));
                    }
                } else {
                    proof {
                        assert(self@ == step_comment(s0, body@));
                    }
                }
                Ok(())
            },
            Line::Change(cl) => {
                proof {
                    crate::parser::lemma_change_code_bounded(line@);
                }
                if self.buf.len() > 0 {
                    let mut b = bytes_copy(&self.buf);
                    b.pop();
                    self.descriptions.push(b);
                    self.buf.clear();
                    self.capturing = false;
                    self.desc_id = Some((self.descriptions.len() - 1) as u32);
                    proof {
                        assert(self@.buf =~= Seq::<u8>::empty());
                        assert(self@.descriptions
                            =~= s0.descriptions.push(s0.buf.drop_last()));
                        assert(self@ == flush(s0));
                    }
                } else {
                    proof {
                        assert(self@ == flush(s0));
                    }
                }
                let ghost s1 = self@;
                if cl.transfer {
                    let sn = self.src.name_by_code(cl.code);
                    let dn = self.dst.name_by_code(cl.code);
                    let same = match (&sn, &dn) {
                        (Some(a), Some(b)) => bytes_eq(a, b) && bytes_eq(a, &cl.name),
                        _ => false,
                    };
                    if !same {
                        proof {
                            assert(step_change(s0, cl@).0 == s1);
                            assert(step_change(s0, cl@).1
                                == Some(ProcessError::NameMismatch));
                        }
                        return Err(ProcessError::NameMismatch);
                    }
                } else if cl.fwd {
                    let sn = self.src.name_by_code(cl.code);
                    let ok = match &sn {
                        Some(a) => bytes_eq(a, &cl.name),
                        None => false,
                    };
                    if !ok {
                        return Err(ProcessError::NameMismatch);
                    }
                    let present = match self.rem_src.get(cl.code) {
                        Some(v) => bytes_eq(v, &cl.name),
                        None => false,
                    };
                    if !present {
                        return Err(ProcessError::DuplicateDeletion);
                    }
                    self.rem_src.remove(cl.code);
                } else {
                    let dn = self.dst.name_by_code(cl.code);
                    let ok = match &dn {
                        Some(a) => bytes_eq(a, &cl.name),
                        None => false,
                    };
                    if !ok {
                        return Err(ProcessError::NameMismatch);
                    }
                    let present = match self.rem_dst.get(cl.code) {
                        Some(v) => bytes_eq(v, &cl.name),
                        None => false,
                    };
                    if !present {
                        return Err(ProcessError::DuplicateAddition);
                    }
                    self.rem_dst.remove(cl.code);
                }
                let ghost s2 = self@;
                let sel_res = if cl.fwd {
                    select(&self.dst, &self.src, &mut self.ledger, &cl)
                } else {
                    select(&self.src, &self.dst, &mut self.ledger, &cl)
                };
                let res = match sel_res {
                    Ok(res) => res,
                    Err(e) => {
                        proof {
                            assert(step_change(s0, cl@).0 == self@);
                            assert(step_change(s0, cl@).1 == Some(e));
                        }
                        return Err(e);
                    },
                };
                let ghost s3 = self@;
                let has_kids = if cl.fwd {
                    self.src.has_children(cl.code)
                } else {
                    self.dst.has_children(cl.code)
                };
                if has_kids && !cl.transfer {
                    if res.len() > 0 {
                        return Err(ProcessError::NonemptyAttrWithChildren);
                    }
                    proof {
                        assert(step_change(s0, cl@) == (s3, None::<ProcessError>));
                    }
                    return Ok(());
                }
                if !has_kids && res.len() == 0 {
                    match self.policy {
                        EmptySelectorPolicy::AlwaysFatal => {
                            return Err(ProcessError::EmptyAttrWithoutChildren);
                        },
                        EmptySelectorPolicy::AllowUndescribed => {
                            match &self.desc_id {
                                None => {
                                    proof {
                                        assert(step_change(s0, cl@)
                                            == (s3, None::<ProcessError>));
                                    }
                                    return Ok(());
                                },
                                Some(_) => {
                                    return Err(ProcessError::EmptyAttrWithoutChildren);
                                },
                            }
                        },
                        EmptySelectorPolicy::AllowAll => {
                            proof {
                                assert(step_change(s0, cl@) == (s3, None::<ProcessError>));
                            }
                            return Ok(());
                        },
                    }
                }
                let ghost tt = step_tables(s2, cl@).0;
                let ghost oo = step_tables(s2, cl@).1;
                let ghost resv = resolved_seq(tt, oo, cl@.code, attr_sels(cl@));
                proof {
                    assert(res@ =~= resv);
                }
                if cl.fwd {
                    let fd = FwdDiff {
                        time: self.time,
                        code: cl.code,
                        transfer: cl.transfer,
                        attr: res,
                        desc_id: self.desc_id,
                    };
                    let ghost fdv = fd@;
                    self.out.push(fd);
                    proof {
                        assert(fdv == (FwdDiffV {
                            time: s3.time,
                            code: cl@.code,
                            transfer: cl@.transfer,
                            attr: resv,
                            desc_id: s3.desc_id,
                        }));
                        assert(self@.out =~= s3.out.push(fdv));
                        assert(self@ == step_change(s0, cl@).0);
                    }
                    Ok(())
                } else {
                    let n = res.len();
                    let mut k: usize = 0;
                    while k < n
                        invariant
                            k <= n,
                            n == res@.len(),
                            res@ == resv,
                            cl.code <= 999999,
                            self.wf(),
                            self@ == (PassV {
                                out: s3.out + back_diffs(
                                    s3.time,
                                    cl@.code,
                                    cl@.transfer,
                                    resv.subrange(0, k as int),
                                    s3.desc_id,
                                ),
                                ..s3
                            }),
                            cl@.transfer == cl.transfer,
                            cl@.code == cl.code,
                            self@.descriptions.len() < u32::MAX || true,
                        decreases n - k,
                    {
                        let ghost outk = self@.out;
                        let mut attr: Vec<u32> = Vec::new();
                        attr.push(cl.code);
                        let fd = FwdDiff {
                            time: self.time,
                            code: res[k],
                            transfer: cl.transfer,
                            attr,
                            desc_id: self.desc_id,
                        };
                        let ghost fdv = fd@;
                        self.out.push(fd);
                        proof {
                            assert(fdv.attr =~= seq![cl@.code]);
                            assert(fdv == back_diffs(
                                s3.time,
                                cl@.code,
                                cl@.transfer,
                                resv,
                                s3.desc_id,
                            )[k as int]);
                            assert(self@.out =~= outk.push(fdv));
                            assert(self@.out =~= s3.out + back_diffs(
                                s3.time,
                                cl@.code,
                                cl@.transfer,
                                resv.subrange(0, k as int + 1),
                                s3.desc_id,
                            )) by {
                                assert(back_diffs(
                                    s3.time,
                                    cl@.code,
                                    cl@.transfer,
                                    resv.subrange(0, k as int + 1),
                                    s3.desc_id,
                                ) =~= back_diffs(
                                    s3.time,
                                    cl@.code,
                                    cl@.transfer,
                                    resv.subrange(0, k as int),
                                    s3.desc_id,
                                ).push(fdv));
                            }
                        }
                        k += 1;
                    }
                    proof {
                        assert(resv.subrange(0, n as int) =~= resv);
                        assert(self@.out =~= s3.out + back_diffs(
                            s3.time,
                            cl@.code,
                            cl@.transfer,
                            resv,
                            s3.desc_id,
                        ));
                        assert(self@ == step_change(s0, cl@).0);
                    }
                    Ok(())
                }
            },
        }
    }

    /// The asymmetry report: the relations still pending in the ledger.
    pub fn asymmetries(&self) -> (r: Vec<(i32, i32)>)
        ensures
            r@ == self@.ledger,
    {
        self.ledger.remaining()
    }

    /// The omission check: the records of the two snapshots not consumed
    /// by any change must agree exactly, else the authored log missed
    /// something.
    pub fn check_omission(&self) -> (r: bool)
        requires
            self.wf(),
        ensures
            r == (self@.rem_src =~= self@.rem_dst),
    {
        let n = self.rem_src.entries.len();
        if n != self.rem_dst.entries.len() {
            proof {
                self.rem_src.lemma_dom_len();
                self.rem_dst.lemma_dom_len();
            }
            return false;
        }
        let mut i: usize = 0;
        while i < n
            invariant
                i <= n,
                self.wf(),
                n == self.rem_src.entries@.len(),
                n == self.rem_dst.entries@.len(),
                forall|j: int| 0 <= j < i
                    ==> view_seq(self.rem_src.entries@)[j]
                        == view_seq(self.rem_dst.entries@)[j],
            decreases n - i,
        {
            if self.rem_src.entries[i].0 != self.rem_dst.entries[i].0
                || !bytes_eq(&self.rem_src.entries[i].1, &self.rem_dst.entries[i].1) {
                proof {
                    assert(view_seq(self.rem_src.entries@)[i as int]
                        != view_seq(self.rem_dst.entries@)[i as int]);
                    if self@.rem_src =~= self@.rem_dst {
                        crate::codemap::lemma_map_of_canonical(
                            self.rem_src.entries@,
                            self.rem_dst.entries@,
                        );
                    }
                }
                return false;
            }
            i += 1;
        }
        proof {
            assert(view_seq(self.rem_src.entries@) =~= view_seq(self.rem_dst.entries@));
            crate::codemap::lemma_map_of_view_seq(
                self.rem_src.entries@,
                self.rem_dst.entries@,
            );
        }
        true
    }
}

impl FilePass {
    /// The verdict after the last line: the pending asymmetries
    /// (non-fatal) if the omission check passes, else the fatal omission
    /// defect.
    pub fn finish(&self) -> (r: Result<Vec<(i32, i32)>, ProcessError>)
        requires
            self.wf(),
        ensures
            match r {
                Ok(asym) => asym@ == self@.ledger && self@.rem_src =~= self@.rem_dst,
                Err(e) => e == ProcessError::Omission
                    && !(self@.rem_src =~= self@.rem_dst),
            },
    {
        if self.check_omission() {
            Ok(self.asymmetries())
        } else {
            Err(ProcessError::Omission)
        }
    }
}

/// Build one snapshot's lookup table; see [`table_of`].
pub fn build_table(pairs: &Vec<(u32, Vec<u8>)>) -> (r: DataTable)
    requires
        forall|i: int| 0 <= i < pairs@.len() ==> (#[trigger] pairs@[i]).0 <= 999999,
    ensures
        r.wf(),
        r@ == table_of(pairs@),
{
    let n = pairs.len();
    let mut r = DataTable::new();
    proof {
        assert(r@ == table_of(pairs@.subrange(0, 0)));
    }
    let mut i: usize = 0;
    while i < n
        invariant
            i <= n,
            n == pairs@.len(),
            forall|j: int| 0 <= j < pairs@.len() ==> (#[trigger] pairs@[j]).0 <= 999999,
            r.wf(),
            r@ == table_of(pairs@.subrange(0, i as int)),
        decreases n - i,
    {
        r.insert(pairs[i].0, bytes_copy(&pairs[i].1));
        proof {
            assert(pairs@.subrange(0, i as int + 1).drop_last()
                =~= pairs@.subrange(0, i as int));
            assert(pairs@.subrange(0, i as int + 1).last() == pairs@[i as int]);
            let prev = table_of(pairs@.subrange(0, i as int));
            let tgt = table_of(pairs@.subrange(0, i as int + 1));
            assert(r@.c2n =~= tgt.c2n);
            assert(r@.n2c =~= tgt.n2c);
            assert(r@.kids =~= tgt.kids);
            assert(r@ == tgt);
        }
        i += 1;
    }
    proof {
        assert(pairs@.subrange(0, n as int) =~= pairs@);
    }
    r
}

} // verus!
