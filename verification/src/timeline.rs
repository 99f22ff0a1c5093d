//! Per-code version history.
//!
//! A [`Timeline`] holds one [`Area`] per code ever observed. Ingesting a
//! snapshot closes the histories of codes that vanished, appends a new
//! version where a name or parent name changed, and opens histories for
//! new codes. Versions are strictly time-ordered and no two consecutive
//! versions share the same (name, parent-name) pair; entries are never
//! deleted, only marked deprecated when the code leaves the latest
//! snapshot.

use vstd::prelude::*;
use crate::bytes::{bytes_copy, bytes_eq, opt_bytes_eq, opt_view};
use crate::codemap::{lemma_map_of_index, map_of, CodeMap};
use crate::codes::spec_parent;
use crate::codes::parent;

verus! {

/// A recorded outgoing transition from one code's version to a target
/// code at a given time.
#[derive(Clone, Copy, Debug, PartialEq, Eq)]
pub struct Successor {
    /// The effective time of the transition.
    pub time: u32,
    /// The target code.
    pub code: u32,
    /// The description block the transition references, if any.
    pub desc: Option<u32>,
}

/// Whether two successors are the same edge.
pub fn succ_eq(a: &Successor, b: &Successor) -> (r: bool)
    ensures
        r == (*a == *b),
{
    let d = match (&a.desc, &b.desc) {
        (Some(x), Some(y)) => *x == *y,
        (None, None) => true,
        _ => false,
    };
    a.time == b.time && a.code == b.code && d
}

/// One version of a code: its state from `time` on.
#[derive(Debug)]
pub struct Entry {
    /// When this version begins.
    pub time: u32,
    /// The observed name; absent when the version closes the history.
    pub name: Option<Vec<u8>>,
    /// The name of the structural parent observed at the same time.
    pub parent_name: Option<Vec<u8>>,
    /// The outgoing transitions attached to this version.
    pub attr: Vec<Successor>,
    /// Whether the transition closing this version changed the parent
    /// name.
    pub parent_name_changed: bool,
}

/// The mathematical content of an [`Entry`].
pub ghost struct EntryV {
    pub time: u32,
    pub name: Option<Seq<u8>>,
    pub parent_name: Option<Seq<u8>>,
    pub attr: Seq<Successor>,
    pub parent_name_changed: bool,
}

impl View for Entry {
    type V = EntryV;

    open spec fn view(&self) -> EntryV {
        EntryV {
            time: self.time,
            name: opt_view(self.name),
            parent_name: opt_view(self.parent_name),
            attr: self.attr@,
            parent_name_changed: self.parent_name_changed,
        }
    }
}

impl Entry {
    /// A fresh version with no transitions.
    pub fn new(time: u32, name: Option<Vec<u8>>, parent_name: Option<Vec<u8>>) -> (r: Entry)
        ensures
            r@ == (EntryV {
                time,
                name: opt_view(name),
                parent_name: opt_view(parent_name),
                attr: Seq::empty(),
                parent_name_changed: false,
            }),
    {
        let r = Entry { time, name, parent_name, attr: Vec::new(), parent_name_changed: false };
        proof {
            assert(r@.attr =~= Seq::<Successor>::empty());
        }
        r
    }
}

/// The history of one code.
#[derive(Debug)]
pub struct Area {
    /// The versions, oldest first.
    pub entries: Vec<Entry>,
    /// Whether the code is absent from the latest ingested snapshot.
    pub deprecated: bool,
}

/// The mathematical content of an [`Area`].
pub ghost struct AreaV {
    pub entries: Seq<EntryV>,
    pub deprecated: bool,
}

impl View for Area {
    type V = AreaV;

    open spec fn view(&self) -> AreaV {
        AreaV {
            entries: self.entries@.map_values(|e: Entry| e@),
            deprecated: self.deprecated,
        }
    }
}

impl Area {
    /// A history opened by its first version.
    pub fn new(entry: Entry) -> (r: Area)
        ensures
            r@.entries =~= seq![entry@],
            r@.deprecated == false,
    {
        let mut entries: Vec<Entry> = Vec::new();
        entries.push(entry);
        Area { entries, deprecated: false }
    }
}

/// No transition is recorded twice on one version.
pub open spec fn attr_distinct(attr: Seq<Successor>) -> bool {
    forall|i: int, j: int| 0 <= i < j < attr.len() ==> attr[i] != attr[j]
}

/// Well-formedness of one history: nonempty, strictly time-ordered, no
/// two consecutive versions with the same (name, parent-name), the
/// deprecation flag mirroring a closing version, an opening version that
/// names the code, and no duplicated transition.
pub open spec fn area_wf(a: AreaV) -> bool {
    &&& a.entries.len() > 0
    &&& forall|i: int| 0 <= i < a.entries.len() - 1
        ==> #[trigger] a.entries[i].time < a.entries[i + 1].time
    &&& forall|i: int| 0 <= i < a.entries.len() - 1
        ==> !(#[trigger] a.entries[i].name == a.entries[i + 1].name
            && a.entries[i].parent_name == a.entries[i + 1].parent_name)
    &&& a.deprecated <==> a.entries.last().name is None
    &&& a.entries[0].name is Some
    &&& forall|i: int| 0 <= i < a.entries.len() ==> attr_distinct(#[trigger] a.entries[i].attr)
}

/// All versions of a history begin before `t`.
pub open spec fn area_times_lt(a: AreaV, t: u32) -> bool {
    forall|i: int| 0 <= i < a.entries.len() ==> #[trigger] a.entries[i].time < t
}

/// Well-formedness of a whole timeline.
pub open spec fn tl_wf(m: Map<u32, AreaV>) -> bool {
    forall|c: u32| m.contains_key(c) ==> area_wf(#[trigger] m[c])
}

/// All versions of a whole timeline begin before `t`.
pub open spec fn times_lt(m: Map<u32, AreaV>, t: u32) -> bool {
    forall|c: u32| m.contains_key(c) ==> area_times_lt(#[trigger] m[c], t)
}

/// The timeline already reflects the snapshot: every snapshot code's
/// latest version carries exactly the observed name and parent name, and
/// every other tracked code is deprecated. Ingesting such a snapshot
/// again changes nothing.
pub open spec fn settled(m: Map<u32, AreaV>, s: Map<u32, Seq<u8>>) -> bool {
    &&& forall|c: u32| s.contains_key(c) ==> m.contains_key(c)
        && (#[trigger] m[c]).entries.len() > 0
        && m[c].entries.last().name == Some(s[c])
        && m[c].entries.last().parent_name == snap_parent_name(s, c)
    &&& forall|c: u32| m.contains_key(c) && !s.contains_key(c) ==> (#[trigger] m[c]).deprecated
}

/// The parent name a snapshot gives a code: the name recorded for the
/// code's structural parent, if any.
pub open spec fn snap_parent_name(s: Map<u32, Seq<u8>>, code: u32) -> Option<Seq<u8>> {
    if s.contains_key(spec_parent(code)) {
        Some(s[spec_parent(code)])
    } else {
        None
    }
}

/// The parent name a snapshot gives a code; see [`snap_parent_name`].
pub fn parent_name(snap: &CodeMap<Vec<u8>>, code: u32) -> (r: Option<Vec<u8>>)
    requires
        snap.wf(),
    ensures
        opt_view(r) == snap_parent_name(snap@, code),
{
    match snap.get(parent(code)) {
        Some(v) => Some(bytes_copy(v)),
        None => None,
    }
}

/// A history after the tick that saw its code vanish: unchanged if
/// already deprecated, else extended by a closing version.
pub open spec fn close_area(a: AreaV, time: u32) -> AreaV {
    if a.deprecated {
        a
    } else {
        AreaV {
            entries: a.entries.push(EntryV {
                time,
                name: None,
                parent_name: None,
                attr: Seq::empty(),
                parent_name_changed: false,
            }),
            deprecated: true,
        }
    }
}

/// A history after the tick that observed `(name, pname)` for its code:
/// unchanged when nothing changed, else the closing transition of the
/// last version is annotated and a new version appended.
pub open spec fn update_area(a: AreaV, time: u32, name: Seq<u8>, pname: Option<Seq<u8>>) -> AreaV {
    let last = a.entries.last();
    let changed = last.parent_name != pname;
    if last.name != Some(name) || changed {
        AreaV {
            entries: a.entries.update(
                a.entries.len() - 1,
                EntryV {
                    time: last.time,
                    name: last.name,
                    parent_name: last.parent_name,
                    attr: last.attr,
                    parent_name_changed: changed,
                },
            ).push(EntryV {
                time,
                name: Some(name),
                parent_name: pname,
                attr: Seq::empty(),
                parent_name_changed: false,
            }),
            deprecated: false,
        }
    } else {
        a
    }
}

/// A history opened by a code's first observation.
pub open spec fn new_area(time: u32, name: Seq<u8>, pname: Option<Seq<u8>>) -> AreaV {
    AreaV {
        entries: seq![
            EntryV {
                time,
                name: Some(name),
                parent_name: pname,
                attr: Seq::empty(),
                parent_name_changed: false,
            },
        ],
        deprecated: false,
    }
}

/// How ingesting one snapshot transforms a timeline, code by code.
pub open spec fn ingest_rel(
    pre: Map<u32, AreaV>,
    time: u32,
    snap: Map<u32, Seq<u8>>,
    post: Map<u32, AreaV>,
) -> bool {
    &&& post.dom() =~= pre.dom().union(snap.dom())
    &&& forall|c: u32| pre.contains_key(c) && !snap.contains_key(c)
        ==> #[trigger] post[c] == close_area(pre[c], time)
    &&& forall|c: u32| pre.contains_key(c) && snap.contains_key(c)
        ==> #[trigger] post[c] == update_area(pre[c], time, snap[c], snap_parent_name(snap, c))
    &&& forall|c: u32| !pre.contains_key(c) && snap.contains_key(c)
        ==> #[trigger] post[c] == new_area(time, snap[c], snap_parent_name(snap, c))
}

/// The timeline every snapshot and change attaches to: the whole run's
/// accumulated history, one entry per code.
pub struct Timeline {
    /// The histories, keyed and sorted by code.
    pub areas: CodeMap<Area>,
}

impl View for Timeline {
    type V = Map<u32, AreaV>;

    open spec fn view(&self) -> Map<u32, AreaV> {
        self.areas@
    }
}

impl Timeline {
    /// The store is sorted and every history is well formed.
    pub open spec fn wf(&self) -> bool {
        self.areas.wf() && tl_wf(self@)
    }

    /// An empty timeline.
    pub fn new() -> (r: Self)
        ensures
            r.wf(),
            r@ =~= Map::<u32, AreaV>::empty(),
    {
        Timeline { areas: CodeMap::new() }
    }

    /// Close the history of every tracked code the snapshot no longer
    /// holds.
    fn close_missing(&mut self, time: u32, snap: &CodeMap<Vec<u8>>)
        requires
            old(self).wf(),
            snap.wf(),
            forall|c: u32| old(self)@.contains_key(c) && !snap@.contains_key(c)
                ==> (#[trigger] old(self)@[c]).deprecated || area_times_lt(old(self)@[c], time),
        ensures
            final(self).wf(),
            final(self)@.dom() =~= old(self)@.dom(),
            forall|c: u32| old(self)@.contains_key(c) ==> #[trigger] final(self)@[c]
                == (if snap@.contains_key(c) {
                    old(self)@[c]
                } else {
                    close_area(old(self)@[c], time)
                }),
    {
        let ghost pre = self.areas.entries@;
        let ghost premap = self.areas@;
        proof {
            assert forall|j: int| 0 <= j < pre.len() implies area_wf(#[trigger] pre[j].1@)
                && (snap@.contains_key(pre[j].0) || pre[j].1@.deprecated
                    || area_times_lt(pre[j].1@, time)) by {
                lemma_map_of_index(pre, j);
            }
        }
        let n = self.areas.entries.len();
        let mut i: usize = 0;
        while i < n
            invariant
                n == self.areas.entries@.len(),
                pre.len() == n,
                i <= n,
                snap.wf(),
                crate::codemap::strictly_sorted(pre),
                premap == map_of(pre),
                self.areas.wf(),
                forall|j: int| 0 <= j < n ==> self.areas.entries@[j].0 == pre[j].0,
                forall|j: int| i <= j < n ==> #[trigger] self.areas.entries@[j].1@ == pre[j].1@,
                forall|j: int| 0 <= j < i ==> #[trigger] self.areas.entries@[j].1@
                    == (if snap@.contains_key(pre[j].0) {
                        pre[j].1@
                    } else {
                        close_area(pre[j].1@, time)
                    }),
                forall|j: int| 0 <= j < n ==> area_wf(#[trigger] pre[j].1@)
                    && (snap@.contains_key(pre[j].0) || pre[j].1@.deprecated
                        || area_times_lt(pre[j].1@, time)),
                forall|j: int| 0 <= j < n ==> area_wf(#[trigger] self.areas.entries@[j].1@),
            decreases n - i,
        {
            let code = self.areas.entries[i].0;
            if !snap.contains(code) {
                let dep = self.areas.entries[i].1.deprecated;
                if !dep {
                    proof {
                        assert(self.areas.entries@[i as int].1@ == pre[i as int].1@);
                        assert(area_times_lt(pre[i as int].1@, time));
                    }
                    let ghost before = self.areas.entries@;
                    let closing = Entry::new(time, None, None);
                    let ghost closing_v = closing@;
                    let pair = &mut self.areas.entries[i];
                    pair.1.entries.push(closing);
                    pair.1.deprecated = true;
                    proof {
                        let cur = self.areas.entries@;
                        assert(cur =~= before.update(i as int, cur[i as int]));
                        assert(cur[i as int].0 == code);
                        assert(cur[i as int].1@.entries
                            =~= before[i as int].1@.entries.push(closing_v));
                        assert(cur[i as int].1@ == close_area(pre[i as int].1@, time));
                        assert(area_wf(cur[i as int].1@)) by {
                            let a = pre[i as int].1@;
                            let b = cur[i as int].1@;
                            assert(forall|k: int| 0 <= k < a.entries.len()
                                ==> b.entries[k] == a.entries[k]);
                            assert(b.entries.last().name is None);
                            assert(a.entries[a.entries.len() - 1].time < time);
                            assert(a.entries.last().name is Some);
                            assert(attr_distinct(closing_v.attr));
                        }
                        assert(crate::codemap::strictly_sorted(cur)) by {
                            assert(forall|a: int| 0 <= a < n ==> cur[a].0 == pre[a].0);
                        }
                    }
                }
            }
            i += 1;
        }
        let ghost midseq = self.areas.entries@;
        proof {
            assert forall|c: u32| premap.contains_key(c) implies
                #[trigger] self.areas@.contains_key(c)
                && self.areas@[c] == (if snap@.contains_key(c) {
                    premap[c]
                } else {
                    close_area(premap[c], time)
                }) by {
                crate::codemap::lemma_map_of_dom(pre, c);
                let j = choose|j: int| 0 <= j < pre.len() && pre[j].0 == c;
                lemma_map_of_index(pre, j);
                lemma_map_of_index(midseq, j);
            }
            assert forall|c: u32| self.areas@.contains_key(c) implies
                premap.contains_key(c) by {
                crate::codemap::lemma_map_of_dom(midseq, c);
                let j = choose|j: int| 0 <= j < midseq.len() && midseq[j].0 == c;
                crate::codemap::lemma_map_of_dom(pre, c);
                assert(pre[j].0 == c);
            }
            assert(self.areas@.dom() =~= premap.dom());
            assert forall|c: u32| self.areas@.contains_key(c) implies
                area_wf(#[trigger] self.areas@[c]) by {
                crate::codemap::lemma_map_of_dom(midseq, c);
                let j = choose|j: int| 0 <= j < midseq.len() && midseq[j].0 == c;
                lemma_map_of_index(midseq, j);
            }
        }
    }

    /// Replay a snapshot's records in order: append a version where the
    /// name or parent name changed, open a history for a new code.
    fn apply_records(&mut self, time: u32, snap: &CodeMap<Vec<u8>>)
        requires
            old(self).wf(),
            snap.wf(),
            forall|c: u32| old(self)@.contains_key(c) && snap@.contains_key(c)
                ==> area_times_lt(#[trigger] old(self)@[c], time)
                    || (old(self)@[c].entries.len() > 0
                        && old(self)@[c].entries.last().name == Some(snap@[c])
                        && old(self)@[c].entries.last().parent_name
                            == snap_parent_name(snap@, c)),
        ensures
            final(self).wf(),
            final(self)@ =~= apply_snap(old(self)@, time, snap@, snap.entries@),
    {
        let ghost mid = self.areas@;
        let m = snap.entries.len();
        let mut j: usize = 0;
        while j < m
            invariant
                m == snap.entries@.len(),
                j <= m,
                snap.wf(),
                self.areas.wf(),
                tl_wf(self.areas@),
                tl_wf(mid),
                forall|c: u32| mid.contains_key(c) && snap@.contains_key(c)
                    ==> area_times_lt(#[trigger] mid[c], time)
                        || (mid[c].entries.len() > 0
                            && mid[c].entries.last().name == Some(snap@[c])
                            && mid[c].entries.last().parent_name
                                == snap_parent_name(snap@, c)),
                self.areas@ =~= apply_snap(mid, time, snap@, snap.entries@.subrange(0, j as int)),
                forall|jj: int| j <= jj < m ==> {
                    &&& self.areas@.contains_key(#[trigger] snap.entries@[jj].0)
                        == mid.contains_key(snap.entries@[jj].0)
                    &&& (mid.contains_key(snap.entries@[jj].0)
                        ==> self.areas@[snap.entries@[jj].0] == mid[snap.entries@[jj].0])
                },
            decreases m - j,
        {
            let code = snap.entries[j].0;
            proof {
                lemma_map_of_index(snap.entries@, j as int);
                assert(snap@.contains_key(code) && snap@[code] == snap.entries@[j as int].1@);
            }
            let pname = parent_name(snap, code);
            let ghost pnv = snap_parent_name(snap@, code);
            let ghost prefix = snap.entries@.subrange(0, j as int);
            let ghost cur_map = self.areas@;
            match self.areas.index_of(code) {
                Some(idx) => {
                    let last_pos = self.areas.entries[idx].1.entries.len() - 1;
                    let same_name = match &self.areas.entries[idx].1.entries[last_pos].name {
                        Some(nm) => bytes_eq(nm, &snap.entries[j].1),
                        None => false,
                    };
                    let pchanged = !opt_bytes_eq(
                        &self.areas.entries[idx].1.entries[last_pos].parent_name,
                        &pname,
                    );
                    let ghost oldarea = self.areas.entries@[idx as int].1@;
                    proof {
                        lemma_map_of_index(self.areas.entries@, idx as int);
                        assert(cur_map[code] == oldarea);
                        assert(area_wf(oldarea));
                        assert(oldarea == mid[code]);
                        assert(same_name == (oldarea.entries.last().name
                            == Some(snap.entries@[j as int].1@)));
                        assert(pchanged == (oldarea.entries.last().parent_name != pnv));
                    }
                    let ghost tgt = update_area(oldarea, time, snap@[code], pnv);
                    if !same_name || pchanged {
                        proof {
                            assert(area_times_lt(oldarea, time));
                        }
                        let ghost before = self.areas.entries@;
                        let fresh = Entry::new(time, Some(bytes_copy(&snap.entries[j].1)), pname);
                        let ghost fresh_v = fresh@;
                        let pair = &mut self.areas.entries[idx];
                        let e = &mut pair.1.entries[last_pos];
                        e.parent_name_changed = pchanged;
                        pair.1.entries.push(fresh);
                        pair.1.deprecated = false;
                        proof {
                            let cur = self.areas.entries@;
                            assert(cur =~= before.update(idx as int, cur[idx as int]));
                            assert(cur[idx as int].0 == code);
                            assert(cur[idx as int].1@.entries =~= tgt.entries);
                            assert(cur[idx as int].1@ == tgt);
                            assert(area_wf(tgt)) by {
                                assert(forall|k: int| 0 <= k < oldarea.entries.len() - 1
                                    ==> tgt.entries[k] == oldarea.entries[k]);
                                assert(oldarea.entries[oldarea.entries.len() - 1].time < time);
                                assert(attr_distinct(fresh_v.attr));
                                assert(tgt.entries[oldarea.entries.len() - 1].attr
                                    == oldarea.entries.last().attr);
                            }
                            crate::codemap::lemma_map_of_update(before, idx as int,
                                cur[idx as int].1);
                            assert(self.areas@ =~= cur_map.insert(code, tgt));
                        }
                    } else {
                        proof {
                            assert(tgt == oldarea);
                            assert(cur_map.insert(code, tgt) =~= cur_map);
                            assert(self.areas@ =~= cur_map.insert(code, tgt));
                        }
                    }
                    proof {
                        assert(snap.entries@.subrange(0, j as int + 1).drop_last() =~= prefix);
                        assert(snap.entries@.subrange(0, j as int + 1).last()
                            == snap.entries@[j as int]);
                        assert(self.areas@ =~= apply_snap(mid, time, snap@,
                            snap.entries@.subrange(0, j as int + 1)));
                        assert forall|c: u32| self.areas@.contains_key(c) implies
                            area_wf(#[trigger] self.areas@[c]) by {
                            if c != code {
                                assert(self.areas@[c] == cur_map[c]);
                            } else {
                                assert(self.areas@[c] == tgt);
                            }
                        }
                    }
                },
                None => {
                    let fresh = Area::new(Entry::new(time, Some(bytes_copy(&snap.entries[j].1)),
                        pname));
                    proof {
                        assert(fresh@ == new_area(time, snap@[code], pnv));
                    }
                    self.areas.insert(code, fresh);
                    proof {
                        assert(snap.entries@.subrange(0, j as int + 1).drop_last() =~= prefix);
                        assert(snap.entries@.subrange(0, j as int + 1).last()
                            == snap.entries@[j as int]);
                        assert(self.areas@ =~= apply_snap(mid, time, snap@,
                            snap.entries@.subrange(0, j as int + 1)));
                        assert forall|c: u32| self.areas@.contains_key(c) implies
                            area_wf(#[trigger] self.areas@[c]) by {
                            if c != code {
                                assert(self.areas@[c] == cur_map[c]);
                            } else {
                                assert(self.areas@[c] == new_area(time, snap@[code], pnv));
                            }
                        }
                    }
                },
            }
            proof {
                assert forall|jj: int| j + 1 <= jj < m implies {
                    &&& self.areas@.contains_key(#[trigger] snap.entries@[jj].0)
                        == mid.contains_key(snap.entries@[jj].0)
                    &&& (mid.contains_key(snap.entries@[jj].0)
                        ==> self.areas@[snap.entries@[jj].0] == mid[snap.entries@[jj].0])
                } by {
                    assert(snap.entries@[jj].0 != code);
                    assert(self.areas@.contains_key(snap.entries@[jj].0)
                        == cur_map.contains_key(snap.entries@[jj].0));
                }
            }
            j += 1;
        }
        proof {
            assert(snap.entries@.subrange(0, m as int) =~= snap.entries@);
        }
    }

    /// Ingest one snapshot at its tick; see [`ingest_rel`] for the exact
    /// effect. Ticks must move forward, except that a snapshot the
    /// timeline is already settled at may be replayed at any tick.
    #[verifier::rlimit(60)]
    pub fn ingest(&mut self, time: u32, snap: &CodeMap<Vec<u8>>)
        requires
            old(self).wf(),
            snap.wf(),
            settled(old(self)@, snap@) || times_lt(old(self)@, time),
        ensures
            final(self).wf(),
            ingest_rel(old(self)@, time, snap@, final(self)@),
    {
        let ghost premap = self.areas@;
        self.close_missing(time, snap);
        let ghost mid = self.areas@;
        proof {
            assert forall|c: u32| mid.contains_key(c) && snap@.contains_key(c)
                implies area_times_lt(#[trigger] mid[c], time)
                    || (mid[c].entries.len() > 0
                        && mid[c].entries.last().name == Some(snap@[c])
                        && mid[c].entries.last().parent_name == snap_parent_name(snap@, c)) by {
                assert(mid[c] == premap[c]);
            }
        }
        self.apply_records(time, snap);
        proof {
            let pairs = snap.entries@;
            let post = final(self)@;
            assert forall|c: u32| #[trigger] snap@.contains_key(c) implies {
                &&& post.contains_key(c)
                &&& post[c] == (if premap.contains_key(c) {
                    update_area(premap[c], time, snap@[c], snap_parent_name(snap@, c))
                } else {
                    new_area(time, snap@[c], snap_parent_name(snap@, c))
                })
            } by {
                crate::codemap::lemma_map_of_dom(pairs, c);
                let k = choose|k: int| 0 <= k < pairs.len() && pairs[k].0 == c;
                assert(in_keys(pairs, c));
                lemma_apply_snap_at(mid, time, snap@, pairs, c);
                assert(mid.contains_key(c) == premap.contains_key(c));
                if premap.contains_key(c) {
                    assert(mid[c] == premap[c]);
                }
            }
            assert forall|c: u32| premap.contains_key(c) && !snap@.contains_key(c) implies
                post.contains_key(c)
                && #[trigger] post[c] == close_area(premap[c], time) by {
                assert(!in_keys(pairs, c)) by {
                    if in_keys(pairs, c) {
                        let k = choose|k: int| 0 <= k < pairs.len() && #[trigger] pairs[k].0 == c;
                        lemma_map_of_index(pairs, k);
                    }
                }
                lemma_apply_snap_at(mid, time, snap@, pairs, c);
                assert(mid.contains_key(c));
                assert(post[c] == mid[c]);
            }
            assert forall|c: u32| #[trigger] post.contains_key(c) implies
                premap.contains_key(c) || snap@.contains_key(c) by {
                lemma_apply_snap_at(mid, time, snap@, pairs, c);
                if in_keys(pairs, c) {
                    let k = choose|k: int| 0 <= k < pairs.len() && #[trigger] pairs[k].0 == c;
                    lemma_map_of_index(pairs, k);
                } else {
                    assert(post.contains_key(c) == mid.contains_key(c));
                }
            }
            assert forall|c: u32| premap.dom().union(snap@.dom()).contains(c) implies
                #[trigger] post.dom().contains(c) by {
                lemma_apply_snap_at(mid, time, snap@, pairs, c);
                if !in_keys(pairs, c) {
                    if snap@.contains_key(c) {
                        crate::codemap::lemma_map_of_dom(pairs, c);
                    }
                    assert(premap.contains_key(c));
                    assert(post.contains_key(c) == mid.contains_key(c));
                }
            }
            assert(post.dom() =~= premap.dom().union(snap@.dom()));
        }
    }
}

/// The timeline after replaying a prefix of a snapshot's records over an
/// intermediate state.
pub open spec fn apply_snap(
    mid: Map<u32, AreaV>,
    time: u32,
    snap: Map<u32, Seq<u8>>,
    pairs: Seq<(u32, Vec<u8>)>,
) -> Map<u32, AreaV>
    decreases pairs.len(),
{
    if pairs.len() == 0 {
        mid
    } else {
        let m2 = apply_snap(mid, time, snap, pairs.drop_last());
        let c = pairs.last().0;
        m2.insert(
            c,
            if m2.contains_key(c) {
                update_area(m2[c], time, snap[c], snap_parent_name(snap, c))
            } else {
                new_area(time, snap[c], snap_parent_name(snap, c))
            },
        )
    }
}

/// Whether some record of the sequence carries this code.
pub open spec fn in_keys(pairs: Seq<(u32, Vec<u8>)>, c: u32) -> bool {
    exists|i: int| 0 <= i < pairs.len() && #[trigger] pairs[i].0 == c
}

/// The history a replayed snapshot leaves at one of its codes.
pub open spec fn snap_target(
    mid: Map<u32, AreaV>,
    time: u32,
    snap: Map<u32, Seq<u8>>,
    c: u32,
) -> AreaV {
    if mid.contains_key(c) {
        update_area(mid[c], time, snap[c], snap_parent_name(snap, c))
    } else {
        new_area(time, snap[c], snap_parent_name(snap, c))
    }
}

/// What replaying distinct records does at one code.
proof fn lemma_apply_snap_at(
    mid: Map<u32, AreaV>,
    time: u32,
    snap: Map<u32, Seq<u8>>,
    pairs: Seq<(u32, Vec<u8>)>,
    c: u32,
)
    requires
        crate::codemap::strictly_sorted(pairs),
    ensures
        in_keys(pairs, c) ==> apply_snap(mid, time, snap, pairs).contains_key(c)
            && apply_snap(mid, time, snap, pairs)[c] == snap_target(mid, time, snap, c),
        !in_keys(pairs, c) ==> apply_snap(mid, time, snap, pairs).contains_key(c)
            == mid.contains_key(c)
            && (mid.contains_key(c) ==> apply_snap(mid, time, snap, pairs)[c] == mid[c]),
    decreases pairs.len(),
{
    if pairs.len() > 0 {
        let rest = pairs.drop_last();
        assert(crate::codemap::strictly_sorted(rest)) by {
            assert(forall|a: int| 0 <= a < rest.len() ==> rest[a] == pairs[a]);
        }
        lemma_apply_snap_at(mid, time, snap, rest, c);
        let lastk = pairs.last().0;
        let m2 = apply_snap(mid, time, snap, rest);
        let res = apply_snap(mid, time, snap, pairs);
        if c == lastk {
            assert(!in_keys(rest, c)) by {
                if in_keys(rest, c) {
                    let i = choose|i: int| 0 <= i < rest.len() && #[trigger] rest[i].0 == c;
                    assert(pairs[i].0 < pairs[pairs.len() - 1].0);
                }
            }
            assert(in_keys(pairs, c)) by {
                assert(pairs[pairs.len() - 1].0 == c);
            }
            assert(m2.contains_key(c) == mid.contains_key(c));
            assert(res[c] == snap_target(mid, time, snap, c));
        } else {
            assert(in_keys(pairs, c) == in_keys(rest, c)) by {
                if in_keys(pairs, c) {
                    let i = choose|i: int| 0 <= i < pairs.len() && #[trigger] pairs[i].0 == c;
                    assert(i < pairs.len() - 1);
                    assert(rest[i].0 == c);
                } else if in_keys(rest, c) {
                    let i = choose|i: int| 0 <= i < rest.len() && #[trigger] rest[i].0 == c;
                    assert(pairs[i].0 == c);
                }
            }
            assert(res.contains_key(c) == m2.contains_key(c));
            assert(m2.contains_key(c) ==> res[c] == m2[c]);
        }
    }
}


/// The latest version index whose start time is strictly before `t`, or
/// -1 when none is.
pub open spec fn latest_before(entries: Seq<EntryV>, t: u32) -> int
    decreases entries.len(),
{
    if entries.len() == 0 {
        -1
    } else if entries.last().time < t {
        entries.len() - 1
    } else {
        latest_before(entries.drop_last(), t)
    }
}

/// A transition set extended by one edge, without duplication.
pub open spec fn attr_insert(attr: Seq<Successor>, s: Successor) -> Seq<Successor> {
    if attr.contains(s) {
        attr
    } else {
        attr.push(s)
    }
}

/// A transition set extended by one edge per target code, in order.
pub open spec fn attr_insert_all(
    attr: Seq<Successor>,
    time: u32,
    codes: Seq<u32>,
    desc: Option<u32>,
) -> Seq<Successor>
    decreases codes.len(),
{
    if codes.len() == 0 {
        attr
    } else {
        attr_insert(
            attr_insert_all(attr, time, codes.drop_last(), desc),
            Successor { time, code: codes.last(), desc },
        )
    }
}

/// Why a change could not be attached to the timeline.
#[derive(Clone, Copy, Debug, PartialEq, Eq, Structural)]
pub enum AttachError {
    /// The origin code has no history.
    UnknownCode,
    /// No version of the origin code starts before the change's time.
    NoVersionBefore,
}

/// Add one edge to a transition set unless it is already there.
fn attr_add(attr: &mut Vec<Successor>, s: Successor)
    requires
        attr_distinct(old(attr)@),
    ensures
        final(attr)@ == attr_insert(old(attr)@, s),
        attr_distinct(final(attr)@),
{
    let n = attr.len();
    let mut i: usize = 0;
    while i < n
        invariant
            n == attr@.len(),
            i <= n,
            attr@ == old(attr)@,
            attr_distinct(attr@),
            forall|j: int| 0 <= j < i ==> attr@[j] != s,
        decreases n - i,
    {
        if succ_eq(&attr[i], &s) {
            proof {
                assert(attr@.contains(s));
            }
            return;
        }
        i += 1;
    }
    proof {
        assert(!attr@.contains(s));
    }
    attr.push(s);
}

/// Add one edge per target code to a transition set, in order.
fn attr_add_all(attr: &mut Vec<Successor>, time: u32, codes: &Vec<u32>, desc: Option<u32>)
    requires
        attr_distinct(old(attr)@),
    ensures
        final(attr)@ == attr_insert_all(old(attr)@, time, codes@, desc),
        attr_distinct(final(attr)@),
{
    let n = codes.len();
    let mut i: usize = 0;
    while i < n
        invariant
            n == codes@.len(),
            i <= n,
            attr@ == attr_insert_all(old(attr)@, time, codes@.subrange(0, i as int), desc),
            attr_distinct(attr@),
        decreases n - i,
    {
        attr_add(attr, Successor { time, code: codes[i], desc });
        proof {
            assert(codes@.subrange(0, i as int + 1).drop_last()
                =~= codes@.subrange(0, i as int));
            assert(codes@.subrange(0, i as int + 1).last() == codes@[i as int]);
        }
        i += 1;
    }
    proof {
        assert(codes@.subrange(0, n as int) =~= codes@);
    }
}

impl Timeline {
    /// The history recorded for a code, if any.
    pub fn get(&self, code: u32) -> (r: Option<&Area>)
        requires
            self.wf(),
        ensures
            match r {
                Some(a) => self@.contains_key(code) && a@ == self@[code],
                None => !self@.contains_key(code),
            },
    {
        self.areas.get(code)
    }

    /// Attach one resolved change to the version of its origin code that
    /// was current just before the change's effective time. A change on
    /// the synthetic root is skipped.
    #[verifier::rlimit(60)]
    pub fn attach(&mut self, fd: &crate::FwdDiff) -> (r: Result<(), AttachError>)
        requires
            old(self).wf(),
        ensures
            final(self).wf(),
            fd.code == 0 ==> r is Ok && final(self)@ == old(self)@,
            fd.code != 0 && !old(self)@.contains_key(fd.code)
                ==> r == Err::<(), AttachError>(AttachError::UnknownCode)
                    && final(self)@ =~= old(self)@,
            fd.code != 0 && old(self)@.contains_key(fd.code)
                && latest_before(old(self)@[fd.code].entries, fd.time) == -1
                ==> r == Err::<(), AttachError>(AttachError::NoVersionBefore)
                    && final(self)@ =~= old(self)@,
            fd.code != 0 && old(self)@.contains_key(fd.code)
                && latest_before(old(self)@[fd.code].entries, fd.time) >= 0 ==> {
                let a = old(self)@[fd.code];
                let k = latest_before(a.entries, fd.time);
                let e = a.entries[k];
                r is Ok && final(self)@ =~= old(self)@.insert(
                    fd.code,
                    AreaV {
                        entries: a.entries.update(
                            k,
                            EntryV {
                                time: e.time,
                                name: e.name,
                                parent_name: e.parent_name,
                                attr: attr_insert_all(e.attr, fd.time, fd.attr@, fd.desc_id),
                                parent_name_changed: e.parent_name_changed,
                            },
                        ),
                        deprecated: a.deprecated,
                    },
                )
            },
    {
        if fd.code == 0 {
            return Ok(());
        }
        let mut area = match self.areas.remove(fd.code) {
            Some(a) => a,
            None => {
                return Err(AttachError::UnknownCode);
            },
        };
        let ghost av = area@;
        let n = area.entries.len();
        proof {
            assert(av.entries.subrange(0, n as int) =~= av.entries);
        }
        let mut k: usize = n;
        while k > 0
            invariant
                k <= n,
                n == area.entries@.len(),
                av == area@,
                fd.code != 0,
                old(self).wf(),
                old(self)@.contains_key(fd.code),
                av == old(self)@[fd.code],
                area_wf(av),
                self.areas.wf(),
                self.areas@ =~= old(self)@.remove(fd.code),
                latest_before(av.entries, fd.time)
                    == latest_before(av.entries.subrange(0, k as int), fd.time),
            decreases k,
        {
            proof {
                assert(av.entries.subrange(0, k as int).last() == av.entries[k - 1]);
                assert(av.entries.subrange(0, k as int).drop_last()
                    =~= av.entries.subrange(0, k as int - 1));
            }
            if area.entries[k - 1].time < fd.time {
                let ghost before_map = self.areas@;
                attr_add_all(&mut area.entries[k - 1].attr, fd.time, &fd.attr, fd.desc_id);
                proof {
                    assert(latest_before(av.entries, fd.time) == k - 1);
                    assert(area@.entries =~= av.entries.update(
                        k - 1,
                        EntryV {
                            time: av.entries[k - 1].time,
                            name: av.entries[k - 1].name,
                            parent_name: av.entries[k - 1].parent_name,
                            attr: attr_insert_all(
                                av.entries[k - 1].attr,
                                fd.time,
                                fd.attr@,
                                fd.desc_id,
                            ),
                            parent_name_changed: av.entries[k - 1].parent_name_changed,
                        },
                    ));
                }
                let ghost newav = area@;
                proof {
                    assert(area_wf(newav)) by {
                        assert(area_wf(old(self)@[fd.code]));
                        assert(av == old(self)@[fd.code]);
                        assert(forall|j: int| 0 <= j < av.entries.len() && j != k - 1
                            ==> newav.entries[j] == av.entries[j]);
                        assert(newav.entries[k - 1].name == av.entries[k - 1].name);
                        assert(newav.entries[k - 1].time == av.entries[k - 1].time);
                    }
                }
                self.areas.insert(fd.code, area);
                proof {
                    assert(final(self)@ =~= old(self)@.insert(fd.code, newav));
                    assert forall|c: u32| final(self)@.contains_key(c) implies
                        area_wf(#[trigger] final(self)@[c]) by {
                        if c != fd.code {
                            assert(final(self)@[c] == old(self)@[c]);
                        }
                    }
                }
                return Ok(());
            }
            k -= 1;
        }
        proof {
            assert(av.entries.subrange(0, 0) =~= Seq::<EntryV>::empty());
            assert(latest_before(av.entries, fd.time) == -1);
        }
        self.areas.insert(fd.code, area);
        proof {
            assert(final(self)@ =~= old(self)@.insert(fd.code, av));
            assert(old(self)@.insert(fd.code, av) =~= old(self)@);
            assert forall|c: u32| final(self)@.contains_key(c) implies
                area_wf(#[trigger] final(self)@[c]) by {
                assert(final(self)@[c] == old(self)@[c]);
            }
        }
        Err(AttachError::NoVersionBefore)
    }
}

/// Timeline versions are strictly time-ordered, and no two consecutive
/// versions share the same (name, parent-name) pair.
pub proof fn lemma_versions_ordered(m: Map<u32, AreaV>, c: u32, i: int, j: int)
    requires
        tl_wf(m),
        m.contains_key(c),
        0 <= i < j < m[c].entries.len(),
    ensures
        m[c].entries[i].time < m[c].entries[j].time,
        j == i + 1 ==> !(m[c].entries[i].name == m[c].entries[j].name
            && m[c].entries[i].parent_name == m[c].entries[j].parent_name),
    decreases j - i,
{
    if j > i + 1 {
        lemma_versions_ordered(m, c, i, j - 1);
    }
}

/// Re-ingesting a snapshot the timeline is settled at changes nothing.
pub proof fn lemma_settled_ingest_unchanged(
    pre: Map<u32, AreaV>,
    time: u32,
    snap: Map<u32, Seq<u8>>,
    post: Map<u32, AreaV>,
)
    requires
        tl_wf(pre),
        ingest_rel(pre, time, snap, post),
        settled(pre, snap),
    ensures
        post =~= pre,
{
    assert(post.dom() =~= pre.dom()) by {
        assert forall|c: u32| snap.contains_key(c) implies pre.dom().contains(c) by {
            let a = pre[c];
            assert(a.entries.len() > 0);
        }
        assert(pre.dom().union(snap.dom()) =~= pre.dom());
    }
    assert forall|c: u32| pre.contains_key(c) implies #[trigger] post[c] == pre[c] by {
        if snap.contains_key(c) {
            assert(post[c] == update_area(pre[c], time, snap[c], snap_parent_name(snap, c)));
            assert(pre[c].entries.last().name == Some(snap[c]));
            assert(pre[c].entries.last().parent_name == snap_parent_name(snap, c));
        } else {
            assert(post[c] == close_area(pre[c], time));
            assert(pre[c].deprecated);
        }
    }
}

/// After an ingest, the timeline is settled at the ingested snapshot.
pub proof fn lemma_ingest_settles(
    pre: Map<u32, AreaV>,
    time: u32,
    snap: Map<u32, Seq<u8>>,
    post: Map<u32, AreaV>,
)
    requires
        tl_wf(pre),
        ingest_rel(pre, time, snap, post),
    ensures
        settled(post, snap),
{
    assert forall|c: u32| snap.contains_key(c) implies post.contains_key(c)
        && (#[trigger] post[c]).entries.len() > 0
        && post[c].entries.last().name == Some(snap[c])
        && post[c].entries.last().parent_name == snap_parent_name(snap, c) by {
        assert(post.dom().contains(c));
        if pre.contains_key(c) {
            assert(post[c] == update_area(pre[c], time, snap[c], snap_parent_name(snap, c)));
            assert(area_wf(pre[c]));
        } else {
            assert(post[c] == new_area(time, snap[c], snap_parent_name(snap, c)));
        }
    }
    assert forall|c: u32| post.contains_key(c) && !snap.contains_key(c) implies
        (#[trigger] post[c]).deprecated by {
        assert(post.dom().contains(c));
        assert(pre.contains_key(c));
        assert(post[c] == close_area(pre[c], time));
    }
}


/// The name a history shows during some part of `[start, end)`, scanning
/// from the latest version down.
pub open spec fn lni_scan(a: AreaV, start: u32, end: u32, i: int) -> Option<Seq<u8>>
    decreases i + 1 when -1 <= i
{
    if i < 0 {
        None
    } else if i == a.entries.len() - 1 && !a.deprecated {
        if a.entries[i].time < end {
            a.entries[i].name
        } else {
            lni_scan(a, start, end, i - 1)
        }
    } else if a.entries[i].name is None {
        lni_scan(a, start, end, i - 1)
    } else if i + 1 < a.entries.len() && a.entries[i + 1].time > start
        && a.entries[i].time < end {
        a.entries[i].name
    } else {
        lni_scan(a, start, end, i - 1)
    }
}

/// The latest name a history shows during `[start, end)`; with no end,
/// the name of the latest version.
pub open spec fn spec_last_name_intersecting(
    a: AreaV,
    start: u32,
    end: Option<u32>,
) -> Option<Seq<u8>> {
    match end {
        None => a.entries.last().name,
        Some(e) => lni_scan(a, start, e, a.entries.len() - 1),
    }
}

impl Area {
    /// The latest name this history shows during `[start, end)`; see
    /// [`spec_last_name_intersecting`].
    pub fn last_name_intersecting(&self, start: u32, end: Option<u32>) -> (r: Option<Vec<u8>>)
        requires
            self@.entries.len() > 0,
        ensures
            opt_view(r) == spec_last_name_intersecting(self@, start, end),
    {
        let n = self.entries.len();
        let e = match end {
            Some(e) => e,
            None => {
                return crate::bytes::opt_bytes_copy(&self.entries[n - 1].name);
            },
        };
        let mut k: usize = n;
        while k > 0
            invariant
                k <= n,
                n == self.entries@.len(),
                n == self@.entries.len(),
                n > 0,
                end == Some(e),
                lni_scan(self@, start, e, n - 1) == lni_scan(self@, start, e, k as int - 1),
            decreases k,
        {
            let i = k - 1;
            proof {
                assert(self@.entries[i as int] == self.entries@[i as int]@);
            }
            if i == n - 1 && !self.deprecated {
                if self.entries[i].time < e {
                    proof {
                        assert(lni_scan(self@, start, e, i as int) == self@.entries[i as int].name);
                    }
                    return crate::bytes::opt_bytes_copy(&self.entries[i].name);
                }
            } else if self.entries[i].name.is_some() {
                if i + 1 < n && self.entries[i + 1].time > start && self.entries[i].time < e {
                    proof {
                        assert(self@.entries[i as int + 1] == self.entries@[i as int + 1]@);
                        assert(lni_scan(self@, start, e, i as int) == self@.entries[i as int].name);
                    }
                    return crate::bytes::opt_bytes_copy(&self.entries[i].name);
                }
            }
            k -= 1;
        }
        None
    }
}

/// Whether version `i` closed with a parent-name change but carries no
/// transition dated at its closing time.
pub open spec fn report_flag(entries: Seq<EntryV>, i: int) -> bool {
    &&& entries[i].name is Some
    &&& entries[i].parent_name_changed
    &&& !(entries[i].attr.len() > 0 && entries[i].attr.last().time == entries[i + 1].time)
}

/// The suspect closings of one history, oldest first, each with the time
/// its version closed.
pub open spec fn area_report(code: u32, entries: Seq<EntryV>) -> Seq<(u32, u32)>
    decreases entries.len(),
{
    if entries.len() <= 1 {
        Seq::empty()
    } else {
        area_report(code, entries.drop_last()) + (if report_flag(entries, entries.len() - 2) {
            seq![(code, entries.last().time)]
        } else {
            Seq::empty()
        })
    }
}

/// The suspect closings of a whole store, in code order.
pub open spec fn tl_report(s: Seq<(u32, AreaV)>) -> Seq<(u32, u32)>
    decreases s.len(),
{
    if s.len() == 0 {
        Seq::empty()
    } else {
        tl_report(s.drop_last()) + area_report(s.last().0, s.last().1.entries)
    }
}

impl Timeline {
    /// Versions that closed together with a parent-name change but carry
    /// no transition dated at the closing time: likely missing authored
    /// entries, reported as (code, closing time) and left to the caller.
    #[verifier::rlimit(80)]
    pub fn missing_diff_report(&self) -> (r: Vec<(u32, u32)>)
        requires
            self.wf(),
        ensures
            r@ == tl_report(crate::codemap::view_seq(self.areas.entries@)),
    {
        let ghost vs = crate::codemap::view_seq(self.areas.entries@);
        let mut out: Vec<(u32, u32)> = Vec::new();
        let n = self.areas.entries.len();
        let mut i: usize = 0;
        while i < n
            invariant
                i <= n,
                n == self.areas.entries@.len(),
                vs == crate::codemap::view_seq(self.areas.entries@),
                vs.len() == n,
                out@ =~= tl_report(vs.subrange(0, i as int)),
            decreases n - i,
        {
            let code = self.areas.entries[i].0;
            let a = &self.areas.entries[i].1;
            let ghost av = a@;
            proof {
                assert(vs[i as int] == (code, av));
            }
            let m = a.entries.len();
            let mut j: usize = 0;
            if m > 0 {
                while j < m - 1
                    invariant
                        m == a.entries@.len(),
                        m == av.entries.len(),
                        m > 0,
                        j <= m - 1,
                        av == a@,
                        out@ =~= tl_report(vs.subrange(0, i as int))
                            + area_report(code, av.entries.subrange(0, j as int + 1)),
                    decreases m - 1 - j,
                {
                    let ent = &a.entries[j];
                    let alen = ent.attr.len();
                    let flag = ent.name.is_some() && ent.parent_name_changed
                        && !(alen > 0 && ent.attr[alen - 1].time == a.entries[j + 1].time);
                    proof {
                        let sub = av.entries.subrange(0, j as int + 2);
                        assert(sub.drop_last() =~= av.entries.subrange(0, j as int + 1));
                        assert(sub[j as int] == av.entries[j as int]);
                        assert(sub.last() == av.entries[j as int + 1]);
                        assert(flag == report_flag(sub, j as int));
                    }
                    if flag {
                        out.push((code, a.entries[j + 1].time));
                    }
                    j += 1;
                }
            }
            proof {
                assert(av.entries.subrange(0, m as int) =~= av.entries);
                assert(vs.subrange(0, i as int + 1).drop_last() =~= vs.subrange(0, i as int));
                assert(vs.subrange(0, i as int + 1).last() == vs[i as int]);
                if m == 0 {
                    assert(area_report(code, av.entries) =~= Seq::<(u32, u32)>::empty());
                }
            }
            i += 1;
        }
        proof {
            assert(vs.subrange(0, n as int) =~= vs);
        }
        out
    }
}

} // verus!


