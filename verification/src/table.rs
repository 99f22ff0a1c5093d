//! Snapshot lookup tables.
//!
//! One [`DataTable`] holds one snapshot's records in three indexes: name by
//! code, codes by name, and the set of codes that have structural children.
//! Code 0 acts as the synthetic root of the hierarchy and answers to a
//! fixed country name even though no snapshot records it.

use vstd::prelude::*;
use crate::bytes::{bytes_copy, bytes_eq, codes_copy};
use crate::codemap::CodeMap;
use crate::codes::spec_parent;
use crate::codes::parent;

verus! {

/// The mathematical content of a name-keyed entry sequence.
pub open spec fn nm_map_of(s: Seq<(Vec<u8>, Vec<u32>)>) -> Map<Seq<u8>, Seq<u32>>
    decreases s.len(),
{
    if s.len() == 0 {
        Map::empty()
    } else {
        nm_map_of(s.drop_last()).insert(s.last().0@, s.last().1@)
    }
}

/// No two entries hold the same name.
pub open spec fn nm_distinct(s: Seq<(Vec<u8>, Vec<u32>)>) -> bool {
    forall|i: int, j: int| 0 <= i < j < s.len() ==> s[i].0@ != s[j].0@
}

/// A name is in the content exactly when some entry holds it.
pub proof fn nm_lemma_dom(s: Seq<(Vec<u8>, Vec<u32>)>, k: Seq<u8>)
    ensures
        nm_map_of(s).contains_key(k) <==> exists|i: int| 0 <= i < s.len() && s[i].0@ == k,
    decreases s.len(),
{
    if s.len() > 0 {
        nm_lemma_dom(s.drop_last(), k);
        if s.last().0@ == k {
            assert(s[s.len() - 1].0@ == k);
        } else if nm_map_of(s).contains_key(k) {
            let i = choose|i: int| 0 <= i < s.drop_last().len() && s.drop_last()[i].0@ == k;
            assert(s[i].0@ == k);
        } else if exists|i: int| 0 <= i < s.len() && s[i].0@ == k {
            let i = choose|i: int| 0 <= i < s.len() && s[i].0@ == k;
            assert(s.drop_last()[i].0@ == k);
        }
    }
}

/// With distinct names, entry `i` gives the content at its name.
pub proof fn nm_lemma_index(s: Seq<(Vec<u8>, Vec<u32>)>, i: int)
    requires
        nm_distinct(s),
        0 <= i < s.len(),
    ensures
        nm_map_of(s).contains_key(s[i].0@),
        nm_map_of(s)[s[i].0@] == s[i].1@,
    decreases s.len(),
{
    nm_lemma_dom(s, s[i].0@);
    if i < s.len() - 1 {
        assert(s[i].0@ != s.last().0@);
        assert(s.drop_last()[i] == s[i]);
        assert(nm_distinct(s.drop_last())) by {
            assert(forall|a: int| 0 <= a < s.len() - 1 ==> s.drop_last()[a] == s[a]);
        }
        nm_lemma_index(s.drop_last(), i);
    }
}

/// Replacing the value of entry `i` updates the content at its name.
pub proof fn nm_lemma_update(s: Seq<(Vec<u8>, Vec<u32>)>, i: int, v: Vec<u32>)
    requires
        nm_distinct(s),
        0 <= i < s.len(),
    ensures
        nm_map_of(s.update(i, (s[i].0, v))) =~= nm_map_of(s).insert(s[i].0@, v@),
        nm_distinct(s.update(i, (s[i].0, v))),
    decreases s.len(),
{
    let t = s.update(i, (s[i].0, v));
    assert(forall|a: int| 0 <= a < s.len() ==> t[a].0@ == s[a].0@);
    if i == s.len() - 1 {
        assert(t.drop_last() =~= s.drop_last());
    } else {
        assert(t.last() == s.last());
        assert(t.drop_last() =~= s.drop_last().update(i, (s[i].0, v)));
        assert(nm_distinct(s.drop_last())) by {
            assert(forall|a: int| 0 <= a < s.len() - 1 ==> s.drop_last()[a] == s[a]);
        }
        assert(s.drop_last()[i] == s[i]);
        nm_lemma_update(s.drop_last(), i, v);
        assert(s[i].0@ != s.last().0@);
        assert(nm_map_of(t) =~= nm_map_of(s).insert(s[i].0@, v@));
    }
}

/// An index from names to the codes bearing them, in insertion order.
pub struct NameMap {
    pub entries: Vec<(Vec<u8>, Vec<u32>)>,
}

impl View for NameMap {
    type V = Map<Seq<u8>, Seq<u32>>;

    open spec fn view(&self) -> Map<Seq<u8>, Seq<u32>> {
        nm_map_of(self.entries@)
    }
}

impl NameMap {
    /// No two entries hold the same name.
    pub open spec fn wf(&self) -> bool {
        nm_distinct(self.entries@)
    }

    /// An empty index.
    pub fn new() -> (r: Self)
        ensures
            r.wf(),
            r@ =~= Map::<Seq<u8>, Seq<u32>>::empty(),
    {
        NameMap { entries: Vec::new() }
    }

    /// The index of the entry holding a name, if any.
    fn find(&self, name: &Vec<u8>) -> (r: Option<usize>)
        requires
            self.wf(),
        ensures
            match r {
                Some(i) => {
                    &&& i < self.entries@.len()
                    &&& self.entries@[i as int].0@ == name@
                    &&& self@.contains_key(name@)
                    &&& self@[name@] == self.entries@[i as int].1@
                },
                None => !self@.contains_key(name@),
            },
    {
        let n = self.entries.len();
        let mut i: usize = 0;
        while i < n
            invariant
                self.wf(),
                n == self.entries@.len(),
                i <= n,
                forall|j: int| 0 <= j < i ==> self.entries@[j].0@ != name@,
            decreases n - i,
        {
            if bytes_eq(&self.entries[i].0, name) {
                proof {
                    nm_lemma_index(self.entries@, i as int);
                }
                return Some(i);
            }
            i += 1;
        }
        proof {
            nm_lemma_dom(self.entries@, name@);
        }
        None
    }

    /// The codes bearing a name, if any entry holds it.
    pub fn get(&self, name: &Vec<u8>) -> (r: Option<&Vec<u32>>)
        requires
            self.wf(),
        ensures
            match r {
                Some(v) => self@.contains_key(name@) && v@ == self@[name@],
                None => !self@.contains_key(name@),
            },
    {
        match self.find(name) {
            Some(i) => Some(&self.entries[i].1),
            None => None,
        }
    }

    /// Append a code to a name's list, creating the entry if needed.
    pub fn push_code(&mut self, name: Vec<u8>, code: u32)
        requires
            old(self).wf(),
        ensures
            final(self).wf(),
            final(self)@ =~= old(self)@.insert(
                name@,
                if old(self)@.contains_key(name@) {
                    old(self)@[name@].push(code)
                } else {
                    seq![code]
                },
            ),
    {
        match self.find(&name) {
            Some(i) => {
                let ghost s = self.entries@;
                let ghost newv = self.entries@[i as int].1@.push(code);
                let e = &mut self.entries[i];
                e.1.push(code);
                proof {
                    assert(self.entries@ =~= s.update(i as int, (s[i as int].0, self.entries@[i as int].1)));
                    nm_lemma_update(s, i as int, self.entries@[i as int].1);
                }
            },
            None => {
                let mut codes: Vec<u32> = Vec::new();
                codes.push(code);
                let ghost s = self.entries@;
                self.entries.push((name, codes));
                proof {
                    assert(self.entries@.drop_last() =~= s);
                    assert forall|a: int, b: int|
                        0 <= a < b < self.entries@.len() implies
                        self.entries@[a].0@ != self.entries@[b].0@ by {
                        if b < self.entries@.len() - 1 {
                            assert(self.entries@[a] == s[a] && self.entries@[b] == s[b]);
                        } else {
                            assert(self.entries@[a] == s[a]);
                            nm_lemma_dom(s, self.entries@[b].0@);
                        }
                    }
                }
            },
        }
    }

    /// Drop every entry.
    pub fn clear(&mut self)
        ensures
            final(self).wf(),
            final(self)@ =~= Map::<Seq<u8>, Seq<u32>>::empty(),
    {
        self.entries.clear();
    }
}

/// The name of the synthetic root (the country), as UTF-8 bytes.
pub open spec fn root_name() -> Seq<u8> {
    seq![
        228u8, 184, 173, 229, 141, 142, 228, 186, 186, 230, 176, 145, 229, 133, 177, 229,
        146, 140, 229, 155, 189,
    ]
}

/// The name of the synthetic root, as a byte vector.
pub fn root_name_vec() -> (r: Vec<u8>)
    ensures
        r@ == root_name(),
{
    let r: Vec<u8> = vec![
        228u8, 184, 173, 229, 141, 142, 228, 186, 186, 230, 176, 145, 229, 133, 177, 229,
        146, 140, 229, 155, 189,
    ];
    proof {
        assert(r@ =~= root_name());
    }
    r
}

/// The mathematical content of a [`DataTable`].
pub ghost struct TableV {
    pub c2n: Map<u32, Seq<u8>>,
    pub n2c: Map<Seq<u8>, Seq<u32>>,
    pub kids: Set<u32>,
}

/// The name a table answers for a code: its record if present, the fixed
/// country name for the synthetic root, nothing otherwise.
pub open spec fn table_name_of(t: TableV, code: u32) -> Option<Seq<u8>> {
    if t.c2n.contains_key(code) {
        Some(t.c2n[code])
    } else if code == 0 {
        Some(root_name())
    } else {
        None
    }
}

/// The parent a code resolves to inside a code-to-name map: its structural
/// parent if recorded, else one further level up (skipping the absent
/// level without a second check).
pub open spec fn parent_code_in(m: Map<u32, Seq<u8>>, code: u32) -> u32 {
    if m.contains_key(spec_parent(code)) {
        spec_parent(code)
    } else {
        spec_parent(spec_parent(code))
    }
}

/// The parent a code resolves to against a table; see [`parent_code_in`].
pub open spec fn parent_code_of(t: TableV, code: u32) -> u32 {
    parent_code_in(t.c2n, code)
}

/// The codes bearing a name, empty when none does.
pub open spec fn codes_of_name(t: TableV, name: Seq<u8>) -> Seq<u32> {
    if t.n2c.contains_key(name) {
        t.n2c[name]
    } else {
        Seq::empty()
    }
}

/// The content of a table after recording one `(code, name)` pair: the
/// code's name is replaced, the code joins the name's list, and the parent
/// the code resolves to (against the updated records) gains a child.
pub open spec fn table_insert(t: TableV, code: u32, name: Seq<u8>) -> TableV {
    let c2n = t.c2n.insert(code, name);
    TableV {
        c2n,
        n2c: t.n2c.insert(
            name,
            if t.n2c.contains_key(name) {
                t.n2c[name].push(code)
            } else {
                seq![code]
            },
        ),
        kids: t.kids.insert(parent_code_in(c2n, code)),
    }
}

/// Every structural truncation lands on a multiple of 100.
proof fn lemma_parent_mod_100(c: u32)
    ensures
        spec_parent(c) % 100 == 0,
{
    if c % 100 != 0 {
        vstd::arithmetic::div_mod::lemma_mod_multiples_basic(c as int / 100, 100);
    } else if c % 10000 != 0 {
        assert((c / 10000) * 10000 == ((c / 10000) * 100) * 100) by (nonlinear_arith);
        vstd::arithmetic::div_mod::lemma_mod_multiples_basic((c as int / 10000) * 100, 100);
        assert(((c / 10000) * 10000) <= c) by (nonlinear_arith)
            requires c % 10000 != 0 || c % 10000 == 0;
    }
}

/// Truncating a multiple of 100 lands on a multiple of 10000.
proof fn lemma_parent_mod_10000(c: u32)
    requires
        c % 100 == 0,
    ensures
        spec_parent(c) % 10000 == 0,
{
    if c % 10000 != 0 {
        vstd::arithmetic::div_mod::lemma_mod_multiples_basic(c as int / 10000, 10000);
    }
}

/// A multiple of 10000 is a multiple of 100.
proof fn lemma_mod_10000_to_100(c: u32)
    requires
        c % 10000 == 0,
    ensures
        c % 100 == 0,
{
    assert(c % 100 == 0) by (nonlinear_arith)
        requires c % 10000 == 0;
}

/// Resolving parents repeatedly from any code reaches the synthetic root
/// in at most three steps: county to prefecture to province to root, with
/// absent levels skipped along the way.
pub proof fn lemma_parent_chain_reaches_root(t: TableV, code: u32)
    ensures
        parent_code_of(t, parent_code_of(t, parent_code_of(t, code))) == 0,
{
    let r1 = parent_code_of(t, code);
    lemma_parent_mod_100(code);
    lemma_parent_mod_100(spec_parent(code));
    assert(r1 % 100 == 0);
    let r2 = parent_code_of(t, r1);
    lemma_parent_mod_10000(r1);
    lemma_mod_10000_to_100(spec_parent(r1));
    lemma_parent_mod_10000(spec_parent(r1));
    assert(r2 % 10000 == 0);
    lemma_mod_10000_to_100(r2);
    assert(spec_parent(r2) == 0);
    assert(spec_parent(0u32) == 0);
}

/// All codes of a list are six-digit values.
pub open spec fn codes_bounded(s: Seq<u32>) -> bool {
    forall|i: int| 0 <= i < s.len() ==> #[trigger] s[i] <= 999999
}

/// Every code the name index holds is a six-digit value.
pub open spec fn table_codes_bounded(t: TableV) -> bool {
    forall|nm: Seq<u8>| t.n2c.contains_key(nm) ==> codes_bounded(#[trigger] t.n2c[nm])
}

/// One snapshot's lookup tables: name by code, codes by name, and the set
/// of codes with structural children.
pub struct DataTable {
    pub c2n: CodeMap<Vec<u8>>,
    pub n2c: NameMap,
    pub kids: Vec<u32>,
}

impl View for DataTable {
    type V = TableV;

    open spec fn view(&self) -> TableV {
        TableV { c2n: self.c2n@, n2c: self.n2c@, kids: self.kids@.to_set() }
    }
}

impl DataTable {
    /// The two indexes are well formed and hold six-digit codes only.
    pub open spec fn wf(&self) -> bool {
        self.c2n.wf() && self.n2c.wf() && table_codes_bounded(self@)
    }

    /// An empty table.
    pub fn new() -> (r: Self)
        ensures
            r.wf(),
            r@.c2n =~= Map::<u32, Seq<u8>>::empty(),
            r@.n2c =~= Map::<Seq<u8>, Seq<u32>>::empty(),
            r@.kids =~= Set::<u32>::empty(),
    {
        let r = DataTable { c2n: CodeMap::new(), n2c: NameMap::new(), kids: Vec::new() };
        proof {
            assert(r@.kids =~= Set::<u32>::empty());
        }
        r
    }

    /// The name recorded for a code, or the fixed country name for the
    /// synthetic root.
    pub fn name_by_code(&self, code: u32) -> (r: Option<Vec<u8>>)
        requires
            self.wf(),
        ensures
            crate::bytes::opt_view(r) == table_name_of(self@, code),
    {
        match self.c2n.get(code) {
            Some(v) => Some(bytes_copy(v)),
            None => {
                if code == 0 {
                    Some(root_name_vec())
                } else {
                    None
                }
            },
        }
    }

    /// The parent a code resolves to; see [`parent_code_in`].
    pub fn parent_code(&self, code: u32) -> (r: u32)
        requires
            self.c2n.wf(),
        ensures
            r == parent_code_of(self@, code),
    {
        let p = parent(code);
        if self.c2n.contains(p) {
            p
        } else {
            parent(p)
        }
    }

    /// The codes bearing a name, in record order.
    pub fn codes_by_name(&self, name: &Vec<u8>) -> (r: Vec<u32>)
        requires
            self.wf(),
        ensures
            r@ == codes_of_name(self@, name@),
    {
        match self.n2c.get(name) {
            Some(v) => codes_copy(v),
            None => Vec::new(),
        }
    }

    /// Whether any recorded code resolves its parent to this code.
    pub fn has_children(&self, code: u32) -> (r: bool)
        ensures
            r == self@.kids.contains(code),
    {
        let n = self.kids.len();
        let mut i: usize = 0;
        while i < n
            invariant
                n == self.kids@.len(),
                i <= n,
                forall|j: int| 0 <= j < i ==> self.kids@[j] != code,
            decreases n - i,
        {
            if self.kids[i] == code {
                return true;
            }
            i += 1;
        }
        false
    }

    /// Record one `(code, name)` pair; see [`table_insert`].
    pub fn insert(&mut self, code: u32, name: Vec<u8>)
        requires
            old(self).wf(),
            code <= 999999,
        ensures
            final(self).wf(),
            final(self)@.c2n =~= table_insert(old(self)@, code, name@).c2n,
            final(self)@.n2c =~= table_insert(old(self)@, code, name@).n2c,
            final(self)@.kids =~= table_insert(old(self)@, code, name@).kids,
    {
        let name2 = bytes_copy(&name);
        let ghost oldt = self@;
        let ghost nmv = name@;
        self.c2n.insert(code, name2);
        self.n2c.push_code(name, code);
        let pc = self.parent_code(code);
        if !self.has_children(pc) {
            let ghost k = self.kids@;
            self.kids.push(pc);
            proof {
                assert(self.kids@.to_set() =~= k.to_set().insert(pc)) by {
                    assert forall|x: u32| k.contains(x) implies self.kids@.contains(x) by {
                        let i = choose|i: int| 0 <= i < k.len() && k[i] == x;
                        assert(self.kids@[i] == x);
                    }
                    assert(self.kids@[self.kids@.len() - 1] == pc);
                    assert forall|x: u32| self.kids@.contains(x) implies
                        k.to_set().insert(pc).contains(x) by {
                        let i = choose|i: int| 0 <= i < self.kids@.len() && self.kids@[i] == x;
                        if i < k.len() {
                            assert(k[i] == x);
                        }
                    }
                }
            }
        } else {
            proof {
                assert(self.kids@.to_set() =~= self.kids@.to_set().insert(pc));
            }
        }
        proof {
            assert forall|nm: Seq<u8>| self@.n2c.contains_key(nm) implies
                codes_bounded(#[trigger] self@.n2c[nm]) by {
                if nm == nmv {
                    if oldt.n2c.contains_key(nmv) {
                        let s = oldt.n2c[nmv];
                        assert(forall|i: int| 0 <= i < s.len()
                            ==> self@.n2c[nmv][i] == s[i]);
                        assert(self@.n2c[nmv][s.len() as int] == code);
                    } else {
                        assert(self@.n2c[nmv] =~= seq![code]);
                    }
                } else {
                    assert(self@.n2c[nm] == oldt.n2c[nm]);
                }
            }
        }
    }

    /// Drop every record.
    pub fn clear(&mut self)
        ensures
            final(self).wf(),
            final(self)@.c2n =~= Map::<u32, Seq<u8>>::empty(),
            final(self)@.n2c =~= Map::<Seq<u8>, Seq<u32>>::empty(),
            final(self)@.kids =~= Set::<u32>::empty(),
    {
        self.c2n.clear();
        self.n2c.clear();
        self.kids.clear();
        proof {
            assert(self.kids@.to_set() =~= Set::<u32>::empty());
        }
    }
}

} // verus!
