//! Selector resolution and the symmetry ledger.
//!
//! A selector names the target code of a change, either directly (`.`
//! and `..`) or through a name reference that may need disambiguation:
//! an explicit parent qualifier is applied first, the remaining
//! candidates are ranked by hierarchical distance to the change's own
//! code, and a reference matching nothing is split into a parent-name
//! prefix and a local-name suffix. Every successful resolution is posted
//! to the [`Ledger`], which pairs each forward relation with its
//! reciprocal backward relation and keeps the unmatched remainder.

use vstd::prelude::*;
use crate::ProcessError;
use crate::bytes::subvec;
use crate::codes::{code_dist, spec_code_dist};
use crate::parser::{ChangeLine, ChangeLineV, Selector, SelectorV};
use crate::table::{codes_of_name, parent_code_of, table_codes_bounded, table_name_of, DataTable, TableV};

verus! {

/// The outcome of resolving one selector.
#[derive(Clone, Copy, Debug, PartialEq, Eq, Structural)]
pub enum Resolution {
    /// Exactly one code answers the selector.
    Found(u32),
    /// No code answers the selector.
    NotFound,
    /// Several codes answer the selector equally well.
    Multiple,
}

/// The code of a successful resolution.
pub open spec fn found_code(r: Resolution) -> u32 {
    match r {
        Resolution::Found(c) => c,
        _ => 0,
    }
}

/// One directed relation posted to the ledger.
pub ghost struct RelV {
    /// Whether the asserting line points forward.
    pub fwd: bool,
    /// The asserting line's own code.
    pub own: u32,
    /// The resolved counterpart code.
    pub sel: u32,
}

/// The signed token a relation leaves in the ledger: the asserting
/// line's own code is negated, so a forward relation a to b is held as
/// (-a, b) and its reciprocal backward relation as (b, -a).
pub open spec fn rel_token(fwd: bool, own: u32, sel: u32) -> (i32, i32)
    recommends
        own <= i32::MAX,
        sel <= i32::MAX,
{
    if fwd {
        ((-(own as int)) as i32, sel as i32)
    } else {
        (own as i32, (-(sel as int)) as i32)
    }
}

/// A token with its sides exchanged: the shape its reciprocal leaves.
pub open spec fn swap_tok(t: (i32, i32)) -> (i32, i32) {
    (t.1, t.0)
}

/// The first position of token `t` at or after `i`, or -1.
pub open spec fn spec_find_tok(s: Seq<(i32, i32)>, t: (i32, i32), i: int) -> int
    recommends
        0 <= i <= s.len(),
    decreases s.len() - i when 0 <= i <= s.len()
{
    if i >= s.len() {
        -1
    } else if s[i] == t {
        i
    } else {
        spec_find_tok(s, t, i + 1)
    }
}

/// One relation posted to a ledger: it cancels the first pending
/// reciprocal token, or else is added as pending itself.
pub open spec fn ledger_record(s: Seq<(i32, i32)>, fwd: bool, own: u32, sel: u32) -> Seq<
    (i32, i32),
> {
    let t = rel_token(fwd, own, sel);
    let k = spec_find_tok(s, swap_tok(t), 0);
    if 0 <= k < s.len() {
        s.remove(k)
    } else {
        s.push(t)
    }
}

/// A whole sequence of relations posted to an empty ledger.
pub open spec fn ledger_fold(rs: Seq<RelV>) -> Seq<(i32, i32)>
    decreases rs.len(),
{
    if rs.len() == 0 {
        Seq::empty()
    } else {
        ledger_record(ledger_fold(rs.drop_last()), rs.last().fwd, rs.last().own, rs.last().sel)
    }
}

/// The symmetry ledger: the multiset of pending relation tokens, in
/// posting order. Whatever remains after a whole change-log file is an
/// asymmetry to report.
#[derive(Debug)]
pub struct Ledger {
    /// The pending tokens.
    pub tokens: Vec<(i32, i32)>,
}

impl View for Ledger {
    type V = Seq<(i32, i32)>;

    open spec fn view(&self) -> Seq<(i32, i32)> {
        self.tokens@
    }
}

impl Ledger {
    /// An empty ledger.
    pub fn new() -> (r: Self)
        ensures
            r@ =~= Seq::<(i32, i32)>::empty(),
    {
        Ledger { tokens: Vec::new() }
    }

    /// Post one resolved relation; see [`ledger_record`].
    pub fn record(&mut self, fwd: bool, own: u32, sel: u32)
        requires
            own <= i32::MAX,
            sel <= i32::MAX,
        ensures
            final(self)@ == ledger_record(old(self)@, fwd, own, sel),
    {
        let own_i = own as i32;
        let sel_i = sel as i32;
        let t: (i32, i32) = if fwd {
            (-own_i, sel_i)
        } else {
            (own_i, -sel_i)
        };
        proof {
            assert(t == rel_token(fwd, own, sel));
        }
        let sw: (i32, i32) = (t.1, t.0);
        let n = self.tokens.len();
        let mut i: usize = 0;
        while i < n
            invariant
                i <= n,
                n == self.tokens@.len(),
                self.tokens@ == old(self).tokens@,
                own <= i32::MAX,
                sel <= i32::MAX,
                t == rel_token(fwd, own, sel),
                sw == swap_tok(rel_token(fwd, own, sel)),
                spec_find_tok(self.tokens@, sw, 0) == spec_find_tok(self.tokens@, sw, i as int),
            decreases n - i,
        {
            if self.tokens[i].0 == sw.0 && self.tokens[i].1 == sw.1 {
                self.tokens.remove(i);
                return;
            }
            i += 1;
        }
        self.tokens.push(t);
    }

    /// The pending tokens, as the asymmetry report for one file.
    pub fn remaining(&self) -> (r: Vec<(i32, i32)>)
        ensures
            r@ == self@,
    {
        let n = self.tokens.len();
        let mut r: Vec<(i32, i32)> = Vec::new();
        let mut i: usize = 0;
        while i < n
            invariant
                i <= n,
                n == self.tokens@.len(),
                r@ =~= self.tokens@.subrange(0, i as int),
            decreases n - i,
        {
            r.push(self.tokens[i]);
            i += 1;
        }
        proof {
            assert(r@ =~= self.tokens@);
        }
        r
    }

    /// Drop every pending token.
    pub fn clear(&mut self)
        ensures
            final(self)@ =~= Seq::<(i32, i32)>::empty(),
    {
        self.tokens.clear();
    }
}

/// Every pending token was left by some posted relation.
proof fn lemma_fold_elements(rs: Seq<RelV>, x: (i32, i32))
    requires
        ledger_fold(rs).contains(x),
    ensures
        exists|j: int| 0 <= j < rs.len() && x == rel_token(
            rs[j].fwd,
            #[trigger] rs[j].own,
            rs[j].sel,
        ),
    decreases rs.len(),
{
    if rs.len() > 0 {
        let prev = ledger_fold(rs.drop_last());
        let cur = ledger_fold(rs);
        let last = rs.last();
        let t = rel_token(last.fwd, last.own, last.sel);
        let k = spec_find_tok(prev, swap_tok(t), 0);
        if 0 <= k < prev.len() {
            let i = choose|i: int| 0 <= i < cur.len() && cur[i] == x;
            if i < k {
                assert(prev[i] == x);
            } else {
                assert(prev[i + 1] == x);
            }
            assert(prev.contains(x));
            lemma_fold_elements(rs.drop_last(), x);
            let j = choose|j: int| 0 <= j < rs.drop_last().len() && x == rel_token(
                rs.drop_last()[j].fwd,
                #[trigger] rs.drop_last()[j].own,
                rs.drop_last()[j].sel,
            );
            assert(rs[j] == rs.drop_last()[j]);
        } else {
            if x == t {
                assert(rs[rs.len() - 1] == last);
            } else {
                let i = choose|i: int| 0 <= i < cur.len() && cur[i] == x;
                assert(prev[i] == x);
                assert(prev.contains(x));
                lemma_fold_elements(rs.drop_last(), x);
                let j = choose|j: int| 0 <= j < rs.drop_last().len() && x == rel_token(
                    rs.drop_last()[j].fwd,
                    #[trigger] rs.drop_last()[j].own,
                    rs.drop_last()[j].sel,
                );
                assert(rs[j] == rs.drop_last()[j]);
            }
        }
    }
}

/// Removing one occurrence of another value keeps a value present.
proof fn lemma_remove_keeps(s: Seq<(i32, i32)>, k: int, x: (i32, i32))
    requires
        0 <= k < s.len(),
        s.contains(x),
        s[k] != x,
    ensures
        s.remove(k).contains(x),
{
    let i = choose|i: int| 0 <= i < s.len() && s[i] == x;
    if i < k {
        assert(s.remove(k)[i] == x);
    } else {
        assert(s.remove(k)[i - 1] == x);
    }
}

/// Every forward relation is accounted for: after a whole file is
/// posted, either its reciprocal backward relation occurs in the file,
/// or its token is still pending and so is reported as an asymmetry.
/// Nothing is lost silently.
pub proof fn lemma_forward_accounted(rs: Seq<RelV>, i: int)
    requires
        0 <= i < rs.len(),
        rs[i].fwd,
        forall|j: int| 0 <= j < rs.len() ==> 1 <= (#[trigger] rs[j]).own <= 999999
            && 1 <= rs[j].sel <= 999999,
    ensures
        ledger_fold(rs).contains(rel_token(true, rs[i].own, rs[i].sel)) || exists|j: int|
            0 <= j < rs.len() && rs[j] == (RelV { fwd: false, own: rs[i].sel, sel: rs[i].own }),
    decreases rs.len(),
{
    let t = rel_token(true, rs[i].own, rs[i].sel);
    let prev = ledger_fold(rs.drop_last());
    let last = rs.last();
    let tl = rel_token(last.fwd, last.own, last.sel);
    let k = spec_find_tok(prev, swap_tok(tl), 0);
    lemma_find_tok_props(prev, swap_tok(tl), 0);
    if i == rs.len() - 1 {
        if 0 <= k < prev.len() {
            assert(prev[k] == swap_tok(tl));
            assert(prev.contains(swap_tok(tl)));
            lemma_fold_elements(rs.drop_last(), swap_tok(tl));
            let j = choose|j: int| 0 <= j < rs.drop_last().len() && swap_tok(tl) == rel_token(
                rs.drop_last()[j].fwd,
                #[trigger] rs.drop_last()[j].own,
                rs.drop_last()[j].sel,
            );
            assert(rs[j] == rs.drop_last()[j]);
            let other = rs[j];
            assert(swap_tok(tl) == (tl.1, tl.0));
            if other.fwd {
                assert(rel_token(other.fwd, other.own, other.sel).0 == -(other.own as int));
                assert(swap_tok(tl).0 == rs[i].sel as int);
                assert(false);
            } else {
                assert(other.own == rs[i].sel && other.sel == rs[i].own);
            }
        } else {
            assert(ledger_fold(rs) == prev.push(t));
            assert(ledger_fold(rs)[ledger_fold(rs).len() - 1] == t);
            assert(ledger_fold(rs).contains(t));
        }
    } else {
        assert(rs.drop_last()[i] == rs[i]);
        assert(forall|j: int| 0 <= j < rs.drop_last().len()
            ==> rs.drop_last()[j] == rs[j]);
        lemma_forward_accounted(rs.drop_last(), i);
        if exists|j: int| 0 <= j < rs.drop_last().len() && rs.drop_last()[j] == (RelV {
            fwd: false,
            own: rs[i].sel,
            sel: rs[i].own,
        }) {
            let j = choose|j: int| 0 <= j < rs.drop_last().len() && rs.drop_last()[j] == (RelV {
                fwd: false,
                own: rs[i].sel,
                sel: rs[i].own,
            });
            assert(rs[j] == rs.drop_last()[j]);
        } else {
            assert(prev.contains(t));
            if 0 <= k < prev.len() {
                if prev[k] == t {
                    assert(swap_tok(tl) == t);
                    if last.fwd {
                        assert(rel_token(last.fwd, last.own, last.sel).1 == last.sel as int);
                        assert(swap_tok(tl).1 == tl.0);
                        assert(t.1 == rs[i].sel as int >= 1);
                        assert(tl.0 == -(last.own as int) <= -1);
                        assert(false);
                    } else {
                        assert(tl == (last.own as i32, (-(last.sel as int)) as i32));
                        assert(swap_tok(tl) == ((-(last.sel as int)) as i32, last.own as i32));
                        assert(t == ((-(rs[i].own as int)) as i32, rs[i].sel as i32));
                        assert(last.sel == rs[i].own && last.own == rs[i].sel);
                        assert(rs[rs.len() - 1] == (RelV {
                            fwd: false,
                            own: rs[i].sel,
                            sel: rs[i].own,
                        }));
                    }
                } else {
                    lemma_remove_keeps(prev, k, t);
                }
            } else {
                assert(ledger_fold(rs) == prev.push(tl));
                let w = choose|w: int| 0 <= w < prev.len() && prev[w] == t;
                assert(ledger_fold(rs)[w] == t);
                assert(ledger_fold(rs).contains(t));
            }
        }
    }
}

/// The found token, if any, sits at the returned position.
proof fn lemma_find_tok_props(s: Seq<(i32, i32)>, t: (i32, i32), i: int)
    requires
        0 <= i <= s.len(),
    ensures
        spec_find_tok(s, t, i) == -1 || (i <= spec_find_tok(s, t, i) < s.len()
            && s[spec_find_tok(s, t, i)] == t),
    decreases s.len() - i,
{
    if i < s.len() {
        lemma_find_tok_props(s, t, i + 1);
    }
}


/// Whether a candidate satisfies an explicit parent qualifier: its
/// resolved parent's name must equal the qualifier text.
pub open spec fn qual_ok(t: TableV, c: u32, qual: Option<Seq<u8>>) -> bool {
    match qual {
        None => true,
        Some(q) => table_name_of(t, parent_code_of(t, c)) == Some(q),
    }
}

/// The effective rank of a candidate: its hierarchical distance to the
/// change's own code, demoted from 1 to 2 when the candidate resolves to
/// different parents in the target and origin tables (it was itself
/// reparented, so the match is less specific than it looks).
pub open spec fn eff_dist(t: TableV, o: TableV, own: u32, c: u32) -> u32 {
    let d = spec_code_dist(own, c);
    if d == 1 && parent_code_of(t, c) != parent_code_of(o, c) {
        2
    } else {
        d
    }
}

/// How many candidates rank at distance `d`.
pub open spec fn class_count(t: TableV, o: TableV, own: u32, cands: Seq<u32>, d: u32) -> nat
    decreases cands.len(),
{
    if cands.len() == 0 {
        0
    } else {
        class_count(t, o, own, cands.drop_last(), d) + (if eff_dist(t, o, own, cands.last())
            == d {
            1nat
        } else {
            0nat
        })
    }
}

/// The first candidate ranking at distance `d`.
pub open spec fn class_first(t: TableV, o: TableV, own: u32, cands: Seq<u32>, d: u32) -> u32
    decreases cands.len(),
{
    if cands.len() == 0 {
        0
    } else if class_count(t, o, own, cands.drop_last(), d) > 0 {
        class_first(t, o, own, cands.drop_last(), d)
    } else if eff_dist(t, o, own, cands.last()) == d {
        cands.last()
    } else {
        0
    }
}

/// A ranked class's first element is one of the candidates.
proof fn lemma_class_first_in(t: TableV, o: TableV, own: u32, cands: Seq<u32>, d: u32)
    requires
        class_count(t, o, own, cands, d) > 0,
    ensures
        exists|i: int| 0 <= i < cands.len()
            && #[trigger] cands[i] == class_first(t, o, own, cands, d),
    decreases cands.len(),
{
    if cands.len() > 0 {
        if class_count(t, o, own, cands.drop_last(), d) > 0 {
            lemma_class_first_in(t, o, own, cands.drop_last(), d);
            let i = choose|i: int| 0 <= i < cands.drop_last().len()
                && #[trigger] cands.drop_last()[i] == class_first(
                t,
                o,
                own,
                cands.drop_last(),
                d,
            );
            assert(cands[i] == cands.drop_last()[i]);
        } else {
            assert(cands[cands.len() - 1] == class_first(t, o, own, cands, d));
        }
    }
}

/// The unique candidate at the smallest populated distance wins; a tie
/// there is ambiguous; no candidate at all is a failed lookup.
pub open spec fn rank_candidates(t: TableV, o: TableV, own: u32, cands: Seq<u32>) -> Resolution {
    let n1 = class_count(t, o, own, cands, 1);
    let n2 = class_count(t, o, own, cands, 2);
    let n3 = class_count(t, o, own, cands, 3);
    if n1 == 1 {
        Resolution::Found(class_first(t, o, own, cands, 1))
    } else if n1 > 1 {
        Resolution::Multiple
    } else if n2 == 1 {
        Resolution::Found(class_first(t, o, own, cands, 2))
    } else if n2 > 1 {
        Resolution::Multiple
    } else if n3 == 1 {
        Resolution::Found(class_first(t, o, own, cands, 3))
    } else if n3 > 1 {
        Resolution::Multiple
    } else {
        Resolution::NotFound
    }
}

/// The candidates whose resolved parent bears the qualifier name.
pub open spec fn qual_filter(t: TableV, cands: Seq<u32>, q: Seq<u8>) -> Seq<u32>
    decreases cands.len(),
{
    if cands.len() == 0 {
        Seq::empty()
    } else {
        qual_filter(t, cands.drop_last(), q) + (if qual_ok(t, cands.last(), Some(q)) {
            seq![cands.last()]
        } else {
            Seq::empty()
        })
    }
}

/// Filtered candidates come from the unfiltered list.
proof fn lemma_qual_filter_in(t: TableV, cands: Seq<u32>, q: Seq<u8>, k: int)
    requires
        0 <= k < qual_filter(t, cands, q).len(),
    ensures
        exists|i: int| 0 <= i < cands.len()
            && #[trigger] cands[i] == qual_filter(t, cands, q)[k],
    decreases cands.len(),
{
    if cands.len() > 0 {
        let prev = qual_filter(t, cands.drop_last(), q);
        if k < prev.len() {
            lemma_qual_filter_in(t, cands.drop_last(), q, k);
            let i = choose|i: int| 0 <= i < cands.drop_last().len()
                && #[trigger] cands.drop_last()[i] == prev[k];
            assert(cands[i] == cands.drop_last()[i]);
        } else {
            assert(cands[cands.len() - 1] == qual_filter(t, cands, q)[k]);
        }
    }
}

/// How many codes of a list resolve their parent to `p`.
pub open spec fn under_count(t: TableV, cands: Seq<u32>, p: u32) -> nat
    decreases cands.len(),
{
    if cands.len() == 0 {
        0
    } else {
        under_count(t, cands.drop_last(), p) + (if parent_code_of(t, cands.last()) == p {
            1nat
        } else {
            0nat
        })
    }
}

/// The first code of a list that resolves its parent to `p`.
pub open spec fn under_first(t: TableV, cands: Seq<u32>, p: u32) -> u32
    decreases cands.len(),
{
    if cands.len() == 0 {
        0
    } else if under_count(t, cands.drop_last(), p) > 0 {
        under_first(t, cands.drop_last(), p)
    } else if parent_code_of(t, cands.last()) == p {
        cands.last()
    } else {
        0
    }
}

/// The first code under a parent is one of the candidates.
proof fn lemma_under_first_in(t: TableV, cands: Seq<u32>, p: u32)
    requires
        under_count(t, cands, p) > 0,
    ensures
        exists|i: int| 0 <= i < cands.len()
            && #[trigger] cands[i] == under_first(t, cands, p),
    decreases cands.len(),
{
    if cands.len() > 0 {
        if under_count(t, cands.drop_last(), p) > 0 {
            lemma_under_first_in(t, cands.drop_last(), p);
            let i = choose|i: int| 0 <= i < cands.drop_last().len()
                && #[trigger] cands.drop_last()[i] == under_first(t, cands.drop_last(), p);
            assert(cands[i] == cands.drop_last()[i]);
        } else {
            assert(cands[cands.len() - 1] == under_first(t, cands, p));
        }
    }
}

/// One split of a name reference that matched nothing: the prefix must
/// name exactly one parent code, and exactly one code named by the
/// suffix must resolve its parent to it.
pub open spec fn split_try(t: TableV, name: Seq<u8>, i: int) -> Option<u32>
    recommends
        0 <= i <= name.len(),
{
    let prefix = name.subrange(0, i);
    let suffix = name.subrange(i, name.len() as int);
    let parents = codes_of_name(t, prefix);
    if parents.len() == 1 {
        let under = codes_of_name(t, suffix);
        if under_count(t, under, parents[0]) == 1 {
            Some(under_first(t, under, parents[0]))
        } else {
            None
        }
    } else {
        None
    }
}

/// Name splitting: successively shorter suffixes of the text are tried
/// as a local name with the remaining prefix as a parent name; the first
/// split that works wins.
pub open spec fn split_resolve(t: TableV, name: Seq<u8>, i: int) -> Resolution
    recommends
        0 <= i <= name.len(),
    decreases name.len() - i when 0 <= i <= name.len()
{
    if i >= name.len() {
        Resolution::NotFound
    } else {
        match split_try(t, name, i) {
            Some(c) => Resolution::Found(c),
            None => split_resolve(t, name, i + 1),
        }
    }
}

/// A name reference resolved against the target table: a unique
/// candidate wins if the qualifier admits it, no candidate triggers name
/// splitting, several candidates are filtered by the qualifier and
/// ranked by hierarchical distance.
pub open spec fn resolve_name(
    t: TableV,
    o: TableV,
    own: u32,
    text: Seq<u8>,
    qual: Option<Seq<u8>>,
) -> Resolution {
    let cands = codes_of_name(t, text);
    if cands.len() == 1 {
        if qual_ok(t, cands[0], qual) {
            Resolution::Found(cands[0])
        } else {
            Resolution::NotFound
        }
    } else if cands.len() == 0 {
        split_resolve(t, text, 0)
    } else {
        let qc = match qual {
            None => cands,
            Some(q) => qual_filter(t, cands, q),
        };
        rank_candidates(t, o, own, qc)
    }
}

/// One selector resolved to a target code.
pub open spec fn resolve_selector(t: TableV, o: TableV, own: u32, sel: SelectorV) -> Resolution {
    match sel {
        SelectorV::Cur => if table_name_of(t, own) is Some {
            Resolution::Found(own)
        } else {
            Resolution::NotFound
        },
        SelectorV::Par => {
            let p = parent_code_of(o, own);
            if table_name_of(t, p) is Some {
                Resolution::Found(p)
            } else {
                Resolution::NotFound
            }
        },
        SelectorV::Name { name, parent } => resolve_name(t, o, own, name, parent),
    }
}


/// Check an explicit parent qualifier; see [`qual_ok`].
fn qual_check(t: &DataTable, c: u32, qual: &Option<Vec<u8>>) -> (r: bool)
    requires
        t.wf(),
    ensures
        r == qual_ok(t@, c, crate::bytes::opt_view(*qual)),
{
    match qual {
        None => true,
        Some(q) => {
            let pn = t.name_by_code(t.parent_code(c));
            match pn {
                Some(nm) => crate::bytes::bytes_eq(&nm, q),
                None => false,
            }
        },
    }
}

/// Rank one candidate; see [`eff_dist`].
fn eff_dist_x(t: &DataTable, o: &DataTable, own: u32, c: u32) -> (r: u32)
    requires
        t.wf(),
        o.wf(),
    ensures
        r == eff_dist(t@, o@, own, c),
{
    let d = code_dist(own, c);
    if d == 1 && t.parent_code(c) != o.parent_code(c) {
        2
    } else {
        d
    }
}

/// Keep the candidates admitted by a qualifier; see [`qual_filter`].
fn qual_filter_x(t: &DataTable, cands: &Vec<u32>, q: &Vec<u8>) -> (r: Vec<u32>)
    requires
        t.wf(),
    ensures
        r@ == qual_filter(t@, cands@, q@),
{
    let n = cands.len();
    let mut out: Vec<u32> = Vec::new();
    let mut i: usize = 0;
    while i < n
        invariant
            i <= n,
            n == cands@.len(),
            t.wf(),
            out@ =~= qual_filter(t@, cands@.subrange(0, i as int), q@),
        decreases n - i,
    {
        let keep = qual_check(t, cands[i], &Some(crate::bytes::bytes_copy(q)));
        proof {
            assert(cands@.subrange(0, i as int + 1).drop_last()
                =~= cands@.subrange(0, i as int));
            assert(cands@.subrange(0, i as int + 1).last() == cands@[i as int]);
        }
        if keep {
            out.push(cands[i]);
        }
        i += 1;
    }
    proof {
        assert(cands@.subrange(0, n as int) =~= cands@);
    }
    out
}

/// Rank candidates by effective distance; see [`rank_candidates`].
fn rank_x(t: &DataTable, o: &DataTable, own: u32, cands: &Vec<u32>) -> (r: Resolution)
    requires
        t.wf(),
        o.wf(),
    ensures
        r == rank_candidates(t@, o@, own, cands@),
{
    let n = cands.len();
    let mut n1: usize = 0;
    let mut n2: usize = 0;
    let mut n3: usize = 0;
    let mut f1: u32 = 0;
    let mut f2: u32 = 0;
    let mut f3: u32 = 0;
    let mut i: usize = 0;
    while i < n
        invariant
            i <= n,
            n == cands@.len(),
            t.wf(),
            o.wf(),
            n1 <= i && n2 <= i && n3 <= i,
            n1 == class_count(t@, o@, own, cands@.subrange(0, i as int), 1),
            n2 == class_count(t@, o@, own, cands@.subrange(0, i as int), 2),
            n3 == class_count(t@, o@, own, cands@.subrange(0, i as int), 3),
            n1 > 0 ==> f1 == class_first(t@, o@, own, cands@.subrange(0, i as int), 1),
            n2 > 0 ==> f2 == class_first(t@, o@, own, cands@.subrange(0, i as int), 2),
            n3 > 0 ==> f3 == class_first(t@, o@, own, cands@.subrange(0, i as int), 3),
        decreases n - i,
    {
        let d = eff_dist_x(t, o, own, cands[i]);
        proof {
            assert(cands@.subrange(0, i as int + 1).drop_last()
                =~= cands@.subrange(0, i as int));
            assert(cands@.subrange(0, i as int + 1).last() == cands@[i as int]);
            assert(1 <= eff_dist(t@, o@, own, cands@[i as int]) <= 3);
        }
        if d == 1 {
            if n1 == 0 {
                f1 = cands[i];
            }
            n1 += 1;
        } else if d == 2 {
            if n2 == 0 {
                f2 = cands[i];
            }
            n2 += 1;
        } else {
            if n3 == 0 {
                f3 = cands[i];
            }
            n3 += 1;
        }
        i += 1;
    }
    proof {
        assert(cands@.subrange(0, n as int) =~= cands@);
    }
    if n1 == 1 {
        Resolution::Found(f1)
    } else if n1 > 1 {
        Resolution::Multiple
    } else if n2 == 1 {
        Resolution::Found(f2)
    } else if n2 > 1 {
        Resolution::Multiple
    } else if n3 == 1 {
        Resolution::Found(f3)
    } else if n3 > 1 {
        Resolution::Multiple
    } else {
        Resolution::NotFound
    }
}

/// Count and pick the codes under one parent; see [`under_count`] and
/// [`under_first`].
fn under_scan(t: &DataTable, cands: &Vec<u32>, p: u32) -> (r: (usize, u32))
    requires
        t.wf(),
    ensures
        r.0 == under_count(t@, cands@, p),
        r.0 > 0 ==> r.1 == under_first(t@, cands@, p),
{
    let n = cands.len();
    let mut cnt: usize = 0;
    let mut first: u32 = 0;
    let mut i: usize = 0;
    while i < n
        invariant
            i <= n,
            n == cands@.len(),
            t.wf(),
            cnt <= i,
            cnt == under_count(t@, cands@.subrange(0, i as int), p),
            cnt > 0 ==> first == under_first(t@, cands@.subrange(0, i as int), p),
        decreases n - i,
    {
        proof {
            assert(cands@.subrange(0, i as int + 1).drop_last()
                =~= cands@.subrange(0, i as int));
            assert(cands@.subrange(0, i as int + 1).last() == cands@[i as int]);
        }
        if t.parent_code(cands[i]) == p {
            if cnt == 0 {
                first = cands[i];
            }
            cnt += 1;
        }
        i += 1;
    }
    proof {
        assert(cands@.subrange(0, n as int) =~= cands@);
    }
    (cnt, first)
}

/// Resolve a name that matched nothing by splitting it; see
/// [`split_resolve`].
fn split_resolve_x(t: &DataTable, name: &Vec<u8>) -> (r: Resolution)
    requires
        t.wf(),
    ensures
        r == split_resolve(t@, name@, 0),
{
    let n = name.len();
    let mut i: usize = 0;
    while i < n
        invariant
            i <= n,
            n == name@.len(),
            t.wf(),
            split_resolve(t@, name@, 0) == split_resolve(t@, name@, i as int),
        decreases n - i,
    {
        let prefix = subvec(name, 0, i);
        let suffix = subvec(name, i, n);
        let parents = t.codes_by_name(&prefix);
        if parents.len() == 1 {
            let under = t.codes_by_name(&suffix);
            let (cnt, first) = under_scan(t, &under, parents[0]);
            if cnt == 1 {
                proof {
                    assert(split_try(t@, name@, i as int) == Some(first));
                }
                return Resolution::Found(first);
            }
        }
        proof {
            assert(split_try(t@, name@, i as int) is None);
        }
        i += 1;
    }
    Resolution::NotFound
}

/// Resolve one selector against the two tables; see
/// [`resolve_selector`].
fn resolve_one(t: &DataTable, o: &DataTable, own: u32, sel: &Selector) -> (r: Resolution)
    requires
        t.wf(),
        o.wf(),
    ensures
        r == resolve_selector(t@, o@, own, sel@),
{
    match sel {
        Selector::CurCode => {
            match t.name_by_code(own) {
                Some(_) => Resolution::Found(own),
                None => Resolution::NotFound,
            }
        },
        Selector::ParentCode => {
            let p = o.parent_code(own);
            match t.name_by_code(p) {
                Some(_) => Resolution::Found(p),
                None => Resolution::NotFound,
            }
        },
        Selector::Name { name, parent } => {
            let cands = t.codes_by_name(name);
            if cands.len() == 1 {
                if qual_check(t, cands[0], parent) {
                    Resolution::Found(cands[0])
                } else {
                    Resolution::NotFound
                }
            } else if cands.len() == 0 {
                split_resolve_x(t, name)
            } else {
                match parent {
                    None => rank_x(t, o, own, &cands),
                    Some(q) => {
                        let qc = qual_filter_x(t, &cands, q);
                        rank_x(t, o, own, &qc)
                    },
                }
            }
        },
    }
}

/// A found resolution of a bounded table is a six-digit code.
proof fn lemma_resolution_bounded(t: TableV, o: TableV, own: u32, sel: SelectorV)
    requires
        table_codes_bounded(t),
        own <= 999999,
        resolve_selector(t, o, own, sel) is Found,
    ensures
        found_code(resolve_selector(t, o, own, sel)) <= 999999,
{
    match sel {
        SelectorV::Cur => {},
        SelectorV::Par => {
            crate::codes::lemma_parent_le(own);
            crate::codes::lemma_parent_le(crate::codes::spec_parent(own));
        },
        SelectorV::Name { name, parent } => {
            let cands = codes_of_name(t, name);
            assert(codes_of_name(t, name).len() > 0 ==> crate::table::codes_bounded(cands));
            if cands.len() == 1 {
            } else if cands.len() == 0 {
                lemma_split_bounded(t, name, 0);
            } else {
                let qc = match parent {
                    None => cands,
                    Some(q) => qual_filter(t, cands, q),
                };
                assert(crate::table::codes_bounded(qc)) by {
                    if parent is Some {
                        let q = parent->Some_0;
                        assert forall|k: int| 0 <= k < qc.len() implies
                            #[trigger] qc[k] <= 999999 by {
                            lemma_qual_filter_in(t, cands, q, k);
                        }
                    }
                }
                let r = rank_candidates(t, o, own, qc);
                if class_count(t, o, own, qc, 1) == 1 {
                    lemma_class_first_in(t, o, own, qc, 1);
                } else if class_count(t, o, own, qc, 1) == 0
                    && class_count(t, o, own, qc, 2) == 1 {
                    lemma_class_first_in(t, o, own, qc, 2);
                } else if class_count(t, o, own, qc, 1) == 0
                    && class_count(t, o, own, qc, 2) == 0
                    && class_count(t, o, own, qc, 3) == 1 {
                    lemma_class_first_in(t, o, own, qc, 3);
                }
            }
        },
    }
}

/// A split resolution of a bounded table is a six-digit code.
proof fn lemma_split_bounded(t: TableV, name: Seq<u8>, i: int)
    requires
        table_codes_bounded(t),
        0 <= i <= name.len(),
        split_resolve(t, name, i) is Found,
    ensures
        found_code(split_resolve(t, name, i)) <= 999999,
    decreases name.len() - i,
{
    if i < name.len() {
        match split_try(t, name, i) {
            Some(c) => {
                let suffix = name.subrange(i, name.len() as int);
                let under = codes_of_name(t, suffix);
                let parents = codes_of_name(t, name.subrange(0, i));
                lemma_under_first_in(t, under, parents[0]);
            },
            None => {
                lemma_split_bounded(t, name, i + 1);
            },
        }
    }
}

/// The selectors of a change line, empty when it carries none.
pub open spec fn attr_sels(l: ChangeLineV) -> Seq<SelectorV> {
    match l.attr {
        Some(s) => s,
        None => Seq::empty(),
    }
}

/// The first selector that fails to resolve, at or after `i`, or -1.
pub open spec fn first_fail(t: TableV, o: TableV, own: u32, sels: Seq<SelectorV>, i: int) -> int
    recommends
        0 <= i <= sels.len(),
    decreases sels.len() - i when 0 <= i <= sels.len()
{
    if i >= sels.len() {
        -1
    } else if !(resolve_selector(t, o, own, sels[i]) is Found) {
        i
    } else {
        first_fail(t, o, own, sels, i + 1)
    }
}

/// The ledger after the first `k` selectors' relations are posted.
pub open spec fn record_upto(
    l0: Seq<(i32, i32)>,
    t: TableV,
    o: TableV,
    fwd: bool,
    own: u32,
    sels: Seq<SelectorV>,
    k: int,
) -> Seq<(i32, i32)>
    decreases k,
{
    if k <= 0 {
        l0
    } else {
        ledger_record(
            record_upto(l0, t, o, fwd, own, sels, k - 1),
            fwd,
            own,
            found_code(resolve_selector(t, o, own, sels[k - 1])),
        )
    }
}

/// Resolve every selector of a change line in order, posting each
/// resolved relation to the ledger, and stop at the first failure. On
/// success the targets come back in selector order; the error says
/// whether the failing selector matched nothing or several candidates
/// equally.
pub fn select(
    target: &DataTable,
    origin: &DataTable,
    ledger: &mut Ledger,
    line: &ChangeLine,
) -> (r: Result<Vec<u32>, ProcessError>)
    requires
        target.wf(),
        origin.wf(),
        line.code <= 999999,
    ensures
        ({
            let sels = attr_sels(line@);
            let ff = first_fail(target@, origin@, line.code, sels, 0);
            match r {
                Ok(res) => {
                    &&& ff == -1
                    &&& res@.len() == sels.len()
                    &&& forall|k: int| 0 <= k < sels.len()
                        ==> resolve_selector(target@, origin@, line.code, sels[k])
                            == Resolution::Found(#[trigger] res@[k])
                    &&& forall|k: int| 0 <= k < sels.len() ==> #[trigger] res@[k] <= 999999
                    &&& final(ledger)@ == record_upto(
                        old(ledger)@,
                        target@,
                        origin@,
                        line.fwd,
                        line.code,
                        sels,
                        sels.len() as int,
                    )
                },
                Err(e) => {
                    &&& 0 <= ff < sels.len()
                    &&& e == (if resolve_selector(target@, origin@, line.code, sels[ff])
                        == Resolution::Multiple {
                        ProcessError::MultipleRecords
                    } else {
                        ProcessError::NotFound
                    })
                    &&& final(ledger)@ == record_upto(
                        old(ledger)@,
                        target@,
                        origin@,
                        line.fwd,
                        line.code,
                        sels,
                        ff,
                    )
                },
            }
        }),
{
    let sels = match &line.attr {
        None => {
            return Ok(Vec::new());
        },
        Some(v) => v,
    };
    let ghost sv = attr_sels(line@);
    proof {
        assert(sv == crate::parser::sels_view(sels@));
    }
    let n = sels.len();
    let mut res: Vec<u32> = Vec::new();
    let mut k: usize = 0;
    while k < n
        invariant
            k <= n,
            n == sels@.len(),
            n == sv.len(),
            target.wf(),
            origin.wf(),
            line.code <= 999999,
            sv == crate::parser::sels_view(sels@),
            sv == attr_sels(line@),
            res@.len() == k,
            forall|j: int| 0 <= j < k
                ==> resolve_selector(target@, origin@, line.code, sv[j])
                    == Resolution::Found(#[trigger] res@[j]),
            forall|j: int| 0 <= j < k ==> #[trigger] res@[j] <= 999999,
            first_fail(target@, origin@, line.code, sv, 0)
                == first_fail(target@, origin@, line.code, sv, k as int),
            ledger@ == record_upto(
                old(ledger)@,
                target@,
                origin@,
                line.fwd,
                line.code,
                sv,
                k as int,
            ),
        decreases n - k,
    {
        proof {
            assert(sv[k as int] == sels@[k as int]@);
        }
        match resolve_one(target, origin, line.code, &sels[k]) {
            Resolution::Found(c) => {
                proof {
                    lemma_resolution_bounded(target@, origin@, line.code, sv[k as int]);
                }
                ledger.record(line.fwd, line.code, c);
                res.push(c);
            },
            Resolution::NotFound => {
                return Err(ProcessError::NotFound);
            },
            Resolution::Multiple => {
                return Err(ProcessError::MultipleRecords);
            },
        }
        k += 1;
    }
    Ok(res)
}

} // verus!


