//! An association table keyed by division code.
//!
//! Entries are kept sorted strictly by code, so every key occurs at most
//! once, iteration order is deterministic, and two tables with the same
//! mathematical content hold the same entry sequence.

use vstd::prelude::*;
use vstd::pervasive::VecAdditionalExecFns;

verus! {

/// The mathematical content of an entry sequence: later entries win.
pub open spec fn map_of<T: View>(s: Seq<(u32, T)>) -> Map<u32, T::V>
    decreases s.len(),
{
    if s.len() == 0 {
        Map::empty()
    } else {
        map_of(s.drop_last()).insert(s.last().0, s.last().1@)
    }
}

/// Codes strictly increase along the entry sequence.
pub open spec fn strictly_sorted<T>(s: Seq<(u32, T)>) -> bool {
    forall|i: int, j: int| 0 <= i < j < s.len() ==> s[i].0 < s[j].0
}

/// The entry sequence with each value abstracted to its view.
pub open spec fn view_seq<T: View>(s: Seq<(u32, T)>) -> Seq<(u32, T::V)> {
    Seq::new(s.len(), |i: int| (s[i].0, s[i].1@))
}

/// A key is in the content exactly when some entry holds it.
pub proof fn lemma_map_of_dom<T: View>(s: Seq<(u32, T)>, k: u32)
    ensures
        map_of(s).contains_key(k) <==> exists|i: int| 0 <= i < s.len() && s[i].0 == k,
    decreases s.len(),
{
    if s.len() > 0 {
        lemma_map_of_dom(s.drop_last(), k);
        if s.last().0 == k {
            assert(s[s.len() - 1].0 == k);
        } else if map_of(s).contains_key(k) {
            let i = choose|i: int| 0 <= i < s.drop_last().len() && s.drop_last()[i].0 == k;
            assert(s[i].0 == k);
        } else if exists|i: int| 0 <= i < s.len() && s[i].0 == k {
            let i = choose|i: int| 0 <= i < s.len() && s[i].0 == k;
            assert(s.drop_last()[i].0 == k);
        }
    }
}

/// With no duplicate keys, entry `i` gives the content at its key.
pub proof fn lemma_map_of_index<T: View>(s: Seq<(u32, T)>, i: int)
    requires
        strictly_sorted(s),
        0 <= i < s.len(),
    ensures
        map_of(s).contains_key(s[i].0),
        map_of(s)[s[i].0] == s[i].1@,
    decreases s.len(),
{
    lemma_map_of_dom(s, s[i].0);
    if i < s.len() - 1 {
        assert(s[i].0 < s.last().0);
        assert(s.drop_last()[i] == s[i]);
        lemma_map_of_index(s.drop_last(), i);
    }
}

/// Inserting an entry at its sorted position inserts its key.
pub proof fn lemma_map_of_insert<T: View>(s: Seq<(u32, T)>, pos: int, k: u32, v: T)
    requires
        strictly_sorted(s),
        0 <= pos <= s.len(),
        forall|i: int| 0 <= i < pos ==> s[i].0 < k,
        forall|i: int| pos <= i < s.len() ==> k < s[i].0,
    ensures
        map_of(s.insert(pos, (k, v))) =~= map_of(s).insert(k, v@),
        strictly_sorted(s.insert(pos, (k, v))),
    decreases s.len(),
{
    let t = s.insert(pos, (k, v));
    assert forall|i: int, j: int| 0 <= i < j < t.len() implies t[i].0 < t[j].0 by {
        if i < pos {
            assert(t[i] == s[i]);
        }
    }
    if pos == s.len() {
        assert(t.drop_last() =~= s);
    } else {
        assert(t.last() == s.last());
        assert(t.drop_last() =~= s.drop_last().insert(pos, (k, v)));
        assert(strictly_sorted(s.drop_last())) by {
            assert(forall|i: int| 0 <= i < s.len() - 1 ==> s.drop_last()[i] == s[i]);
        }
        lemma_map_of_insert(s.drop_last(), pos, k, v);
        assert(k != s.last().0);
        assert(map_of(t) =~= map_of(s).insert(k, v@));
    }
}

/// Replacing the value of entry `i` updates the content at its key.
pub proof fn lemma_map_of_update<T: View>(s: Seq<(u32, T)>, i: int, v: T)
    requires
        strictly_sorted(s),
        0 <= i < s.len(),
    ensures
        map_of(s.update(i, (s[i].0, v))) =~= map_of(s).insert(s[i].0, v@),
        strictly_sorted(s.update(i, (s[i].0, v))),
    decreases s.len(),
{
    let t = s.update(i, (s[i].0, v));
    assert(forall|a: int| 0 <= a < s.len() ==> t[a].0 == s[a].0);
    if i == s.len() - 1 {
        assert(t.drop_last() =~= s.drop_last());
    } else {
        assert(t.last() == s.last());
        assert(t.drop_last() =~= s.drop_last().update(i, (s[i].0, v)));
        assert(strictly_sorted(s.drop_last())) by {
            assert(forall|a: int| 0 <= a < s.len() - 1 ==> s.drop_last()[a] == s[a]);
        }
        assert(s.drop_last()[i] == s[i]);
        lemma_map_of_update(s.drop_last(), i, v);
        assert(s[i].0 != s.last().0);
        assert(map_of(t) =~= map_of(s).insert(s[i].0, v@));
    }
}

/// Removing entry `i` removes its key from the content.
pub proof fn lemma_map_of_remove<T: View>(s: Seq<(u32, T)>, i: int)
    requires
        strictly_sorted(s),
        0 <= i < s.len(),
    ensures
        map_of(s.remove(i)) =~= map_of(s).remove(s[i].0),
        strictly_sorted(s.remove(i)),
    decreases s.len(),
{
    let t = s.remove(i);
    assert forall|a: int, b: int| 0 <= a < b < t.len() implies t[a].0 < t[b].0 by {
        if a < i {
            assert(t[a] == s[a]);
        }
    }
    if i == s.len() - 1 {
        assert(t =~= s.drop_last());
        lemma_map_of_dom(s.drop_last(), s[i].0);
        assert(map_of(t) =~= map_of(s).remove(s[i].0));
    } else {
        assert(t.last() == s.last());
        assert(t.drop_last() =~= s.drop_last().remove(i));
        assert(strictly_sorted(s.drop_last())) by {
            assert(forall|a: int| 0 <= a < s.len() - 1 ==> s.drop_last()[a] == s[a]);
        }
        assert(s.drop_last()[i] == s[i]);
        lemma_map_of_remove(s.drop_last(), i);
        assert(s[i].0 != s.last().0);
        assert(map_of(t) =~= map_of(s).remove(s[i].0));
    }
}

/// Sorted entry sequences are a canonical form: equal content means
/// entrywise equal views.
pub proof fn lemma_map_of_canonical<T: View>(s1: Seq<(u32, T)>, s2: Seq<(u32, T)>)
    requires
        strictly_sorted(s1),
        strictly_sorted(s2),
        map_of(s1) == map_of(s2),
    ensures
        view_seq(s1) =~= view_seq(s2),
    decreases s1.len(),
{
    lemma_map_of_dom(s1, 0);
    lemma_map_of_dom(s2, 0);
    if s1.len() == 0 {
        if s2.len() > 0 {
            lemma_map_of_index(s2, s2.len() - 1);
            lemma_map_of_dom(s1, s2.last().0);
            assert(false);
        }
    } else if s2.len() == 0 {
        lemma_map_of_index(s1, s1.len() - 1);
        lemma_map_of_dom(s2, s1.last().0);
        assert(false);
    } else {
        let k1 = s1.last().0;
        let k2 = s2.last().0;
        lemma_map_of_index(s1, s1.len() - 1);
        lemma_map_of_index(s2, s2.len() - 1);
        lemma_map_of_dom(s2, k1);
        lemma_map_of_dom(s1, k2);
        let i2 = choose|i: int| 0 <= i < s2.len() && s2[i].0 == k1;
        let i1 = choose|i: int| 0 <= i < s1.len() && s1[i].0 == k2;
        assert(k1 <= k2 && k2 <= k1);
        assert(s1.last().1@ == s2.last().1@);
        lemma_map_of_dom(s1.drop_last(), k1);
        lemma_map_of_dom(s2.drop_last(), k1);
        assert(strictly_sorted(s1.drop_last())) by {
            assert(forall|a: int| 0 <= a < s1.len() - 1 ==> s1.drop_last()[a] == s1[a]);
        }
        assert(strictly_sorted(s2.drop_last())) by {
            assert(forall|a: int| 0 <= a < s2.len() - 1 ==> s2.drop_last()[a] == s2[a]);
        }
        assert(map_of(s1.drop_last()) =~= map_of(s1).remove(k1)) by {
            assert(!map_of(s1.drop_last()).contains_key(k1));
        }
        assert(map_of(s2.drop_last()) =~= map_of(s2).remove(k1)) by {
            assert(!map_of(s2.drop_last()).contains_key(k1));
        }
        lemma_map_of_canonical(s1.drop_last(), s2.drop_last());
        assert forall|i: int| 0 <= i < s1.len() implies
            (s1[i].0, s1[i].1@) == (s2[i].0, s2[i].1@) by {
            if i < s1.len() - 1 {
                assert(view_seq(s1.drop_last())[i] == view_seq(s2.drop_last())[i]);
            }
        }
    }
}

/// Entrywise equal views give equal content.
pub proof fn lemma_map_of_view_seq<T: View>(s1: Seq<(u32, T)>, s2: Seq<(u32, T)>)
    requires
        view_seq(s1) == view_seq(s2),
    ensures
        map_of(s1) =~= map_of(s2),
    decreases s1.len(),
{
    assert(s1.len() == s2.len()) by {
        assert(view_seq(s1).len() == s1.len() && view_seq(s2).len() == s2.len());
    }
    if s1.len() > 0 {
        assert(view_seq(s1.drop_last()) =~= view_seq(s1).drop_last());
        assert(view_seq(s2.drop_last()) =~= view_seq(s2).drop_last());
        lemma_map_of_view_seq(s1.drop_last(), s2.drop_last());
        assert(view_seq(s1)[s1.len() - 1] == view_seq(s2)[s2.len() - 1]);
        assert(s1.last().0 == s2.last().0 && s1.last().1@ == s2.last().1@);
    }
}

/// An association table from division codes to values, kept strictly
/// sorted by code.
pub struct CodeMap<T> {
    pub entries: Vec<(u32, T)>,
}

impl<T: View> View for CodeMap<T> {
    type V = Map<u32, T::V>;

    open spec fn view(&self) -> Map<u32, T::V> {
        map_of(self.entries@)
    }
}

impl<T: View> CodeMap<T> {
    /// The entries are strictly sorted by code.
    pub open spec fn wf(&self) -> bool {
        strictly_sorted(self.entries@)
    }

    /// An empty table.
    pub fn new() -> (r: Self)
        ensures
            r.wf(),
            r@ =~= Map::<u32, T::V>::empty(),
            r.entries@.len() == 0,
    {
        CodeMap { entries: Vec::new() }
    }

    /// How many codes the table holds.
    pub fn len(&self) -> (r: usize)
        requires
            self.wf(),
        ensures
            r == self.entries@.len(),
            r == self@.dom().len(),
    {
        proof {
            self.lemma_dom_len();
        }
        self.entries.len()
    }

    /// The table's key set has as many elements as its entry sequence.
    pub proof fn lemma_dom_len(&self)
        requires
            self.wf(),
        ensures
            self@.dom().finite(),
            self@.dom().len() == self.entries@.len(),
    {
        Self::lemma_dom_len_seq(self.entries@);
    }

    /// Helper for [`CodeMap::lemma_dom_len`], stated over a raw sequence.
    proof fn lemma_dom_len_seq(s: Seq<(u32, T)>)
        requires
            strictly_sorted(s),
        ensures
            map_of(s).dom().finite(),
            map_of(s).dom().len() == s.len(),
        decreases s.len(),
    {
        if s.len() > 0 {
            assert(strictly_sorted(s.drop_last())) by {
                assert(forall|a: int| 0 <= a < s.len() - 1 ==> s.drop_last()[a] == s[a]);
            }
            Self::lemma_dom_len_seq(s.drop_last());
            lemma_map_of_dom(s.drop_last(), s.last().0);
            vstd::set::axiom_set_insert_len(map_of(s.drop_last()).dom(), s.last().0);
            assert(map_of(s).dom() =~= map_of(s.drop_last()).dom().insert(s.last().0));
        }
    }

    /// Where a code sits: `Ok(i)` if entry `i` holds it, `Err(p)` for the
    /// position where it would be inserted.
    fn locate(&self, code: u32) -> (r: Result<usize, usize>)
        requires
            self.wf(),
        ensures
            match r {
                Ok(i) => i < self.entries@.len() && self.entries@[i as int].0 == code,
                Err(p) => {
                    &&& p <= self.entries@.len()
                    &&& forall|i: int| 0 <= i < p ==> self.entries@[i].0 < code
                    &&& forall|i: int| p <= i < self.entries@.len()
                        ==> code < self.entries@[i].0
                    &&& !self@.contains_key(code)
                },
            },
    {
        let n = self.entries.len();
        let mut i: usize = 0;
        while i < n
            invariant
                self.wf(),
                n == self.entries@.len(),
                i <= n,
                forall|j: int| 0 <= j < i ==> self.entries@[j].0 < code,
            decreases n - i,
        {
            let k = self.entries[i].0;
            if k == code {
                return Ok(i);
            }
            if k > code {
                proof {
                    lemma_map_of_dom(self.entries@, code);
                }
                return Err(i);
            }
            i += 1;
        }
        proof {
            lemma_map_of_dom(self.entries@, code);
        }
        Err(n)
    }

    /// Whether the table holds a code.
    pub fn contains(&self, code: u32) -> (r: bool)
        requires
            self.wf(),
        ensures
            r == self@.contains_key(code),
    {
        match self.locate(code) {
            Ok(i) => {
                proof {
                    lemma_map_of_index(self.entries@, i as int);
                }
                true
            },
            Err(_) => false,
        }
    }

    /// The value at a code, if any.
    pub fn get(&self, code: u32) -> (r: Option<&T>)
        requires
            self.wf(),
        ensures
            match r {
                Some(v) => self@.contains_key(code) && v@ == self@[code],
                None => !self@.contains_key(code),
            },
    {
        match self.locate(code) {
            Ok(i) => {
                proof {
                    lemma_map_of_index(self.entries@, i as int);
                }
                Some(&self.entries[i].1)
            },
            Err(_) => None,
        }
    }

    /// The index of the entry holding a code, if any.
    pub fn index_of(&self, code: u32) -> (r: Option<usize>)
        requires
            self.wf(),
        ensures
            match r {
                Some(i) => {
                    &&& i < self.entries@.len()
                    &&& self.entries@[i as int].0 == code
                    &&& self@.contains_key(code)
                    &&& self@[code] == self.entries@[i as int].1@
                },
                None => !self@.contains_key(code),
            },
    {
        match self.locate(code) {
            Ok(i) => {
                proof {
                    lemma_map_of_index(self.entries@, i as int);
                }
                Some(i)
            },
            Err(_) => None,
        }
    }

    /// Bind a code to a value, replacing any previous binding.
    pub fn insert(&mut self, code: u32, value: T)
        requires
            old(self).wf(),
        ensures
            final(self).wf(),
            final(self)@ =~= old(self)@.insert(code, value@),
    {
        match self.locate(code) {
            Ok(i) => {
                proof {
                    lemma_map_of_update(self.entries@, i as int, value);
                }
                self.entries.set(i, (code, value));
            },
            Err(p) => {
                proof {
                    lemma_map_of_insert(self.entries@, p as int, code, value);
                }
                self.entries.insert(p, (code, value));
            },
        }
    }

    /// Drop a code's binding, returning the value it had.
    pub fn remove(&mut self, code: u32) -> (r: Option<T>)
        requires
            old(self).wf(),
        ensures
            final(self).wf(),
            final(self)@ =~= old(self)@.remove(code),
            match r {
                Some(v) => old(self)@.contains_key(code) && v@ == old(self)@[code],
                None => !old(self)@.contains_key(code) && final(self)@ =~= old(self)@,
            },
    {
        match self.locate(code) {
            Ok(i) => {
                proof {
                    lemma_map_of_index(self.entries@, i as int);
                    lemma_map_of_remove(self.entries@, i as int);
                }
                Some(self.entries.remove(i).1)
            },
            Err(_) => {
                proof {
                    assert(old(self)@.remove(code) =~= old(self)@);
                }
                None
            },
        }
    }

    /// Drop every binding.
    pub fn clear(&mut self)
        ensures
            final(self).wf(),
            final(self)@ =~= Map::<u32, T::V>::empty(),
            final(self).entries@.len() == 0,
    {
        self.entries.clear();
    }
}

} // verus!
