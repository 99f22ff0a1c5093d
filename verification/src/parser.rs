//! The change-log line grammar and the snapshot record format.
//!
//! A change-log line starts with a marker byte: `-` for a forward
//! (deletion-authoritative) change, `+` for a backward
//! (addition-authoritative) change, `=` for a transfer whose direction is
//! inferred from the relation byte, `#` for a comment; an empty line is an
//! explicit separator. A change body holds a six-digit code, one space,
//! the declared name, and optionally a relation byte (`>` forward, `<`
//! backward) followed by a comma-separated selector list.
//!
//! Selector tokens: `.` is the line's own code, `..` its parent, anything
//! else a name reference; a trailing `?` marks the token non-binding and
//! drops it, a trailing `!` is stripped, `name(parent)` adds an explicit
//! parent qualifier, and a bare `#` or `_` stands for the line's own
//! declared name.

use vstd::prelude::*;
use crate::bytes::{opt_view, subvec};

verus! {

/// A parsed selector token.
pub ghost enum SelectorV {
    /// A name reference, optionally qualified by its parent's name.
    Name { name: Seq<u8>, parent: Option<Seq<u8>> },
    /// The line's own code (`.`).
    Cur,
    /// The structural parent of the line's own code (`..`).
    Par,
}

/// A parsed change assertion.
pub ghost struct ChangeLineV {
    pub fwd: bool,
    pub transfer: bool,
    pub code: u32,
    pub name: Seq<u8>,
    pub attr: Option<Seq<SelectorV>>,
}

/// A parsed change-log line.
pub ghost enum LineV {
    Change(ChangeLineV),
    Comment(Seq<u8>),
    Empty,
}

/// A selector token of a change-log line.
#[derive(Debug)]
pub enum Selector {
    /// A name reference, optionally qualified by its parent's name.
    Name { name: Vec<u8>, parent: Option<Vec<u8>> },
    /// The line's own code (`.`).
    CurCode,
    /// The structural parent of the line's own code (`..`).
    ParentCode,
}

impl View for Selector {
    type V = SelectorV;

    open spec fn view(&self) -> SelectorV {
        match self {
            Selector::Name { name, parent } => SelectorV::Name {
                name: name@,
                parent: opt_view(*parent),
            },
            Selector::CurCode => SelectorV::Cur,
            Selector::ParentCode => SelectorV::Par,
        }
    }
}

/// The views of a selector list.
pub open spec fn sels_view(s: Seq<Selector>) -> Seq<SelectorV> {
    s.map_values(|x: Selector| x@)
}

/// A change assertion parsed from one change-log line.
#[derive(Debug)]
pub struct ChangeLine {
    /// Whether the change points forward (deletion side asserts it).
    pub fwd: bool,
    /// Whether the change is a same-code transfer.
    pub transfer: bool,
    /// The line's own six-digit code.
    pub code: u32,
    /// The declared name of the code.
    pub name: Vec<u8>,
    /// The selector list, absent when the line carries no relation byte.
    pub attr: Option<Vec<Selector>>,
}

impl View for ChangeLine {
    type V = ChangeLineV;

    open spec fn view(&self) -> ChangeLineV {
        ChangeLineV {
            fwd: self.fwd,
            transfer: self.transfer,
            code: self.code,
            name: self.name@,
            attr: match self.attr {
                Some(v) => Some(sels_view(v@)),
                None => None,
            },
        }
    }
}

/// One parsed change-log line.
#[derive(Debug)]
pub enum Line {
    /// A change assertion.
    Change(ChangeLine),
    /// A comment body (everything after the `#`).
    Comment(Vec<u8>),
    /// An empty separator line.
    Empty,
}

impl View for Line {
    type V = LineV;

    open spec fn view(&self) -> LineV {
        match self {
            Line::Change(c) => LineV::Change(c@),
            Line::Comment(b) => LineV::Comment(b@),
            Line::Empty => LineV::Empty,
        }
    }
}

/// Whether a byte is an ASCII decimal digit.
pub open spec fn is_digit(b: u8) -> bool {
    48 <= b <= 57
}

/// Whether every byte in `from..to` is an ASCII decimal digit.
pub open spec fn digits_at(s: Seq<u8>, from: int, to: int) -> bool {
    forall|i: int| from <= i < to ==> is_digit(s[i])
}

/// The value of six ASCII digits.
pub open spec fn code6_val(s: Seq<u8>) -> u32
    recommends
        s.len() == 6,
{
    (((s[0] - 48) * 100000) + ((s[1] - 48) * 10000) + ((s[2] - 48) * 1000) + ((s[3] - 48) * 100)
        + ((s[4] - 48) * 10) + (s[5] - 48)) as u32
}

/// The first position of byte `b` at or after `i`, or -1.
pub open spec fn spec_find_byte(s: Seq<u8>, i: int, b: u8) -> int
    recommends
        0 <= i <= s.len(),
    decreases s.len() - i when 0 <= i <= s.len()
{
    if i >= s.len() {
        -1
    } else if s[i] == b {
        i
    } else {
        spec_find_byte(s, i + 1, b)
    }
}

/// The first position of a relation byte (`>` or `<`) at or after `i`,
/// or -1.
pub open spec fn spec_find_rel(s: Seq<u8>, i: int) -> int
    recommends
        0 <= i <= s.len(),
    decreases s.len() - i when 0 <= i <= s.len()
{
    if i >= s.len() {
        -1
    } else if s[i] == 62 || s[i] == 60 {
        i
    } else {
        spec_find_rel(s, i + 1)
    }
}

/// Whether a token stands for the line's own declared name (`#` or `_`).
pub open spec fn is_self_ref(t: Seq<u8>) -> bool {
    t.len() == 1 && (t[0] == 35 || t[0] == 95)
}

/// One selector token parsed against the line's declared name: `None` for
/// a malformed token, `Some(None)` for a non-binding token dropped before
/// resolution, `Some(Some(sel))` otherwise.
pub open spec fn spec_parse_sel(tok: Seq<u8>, decl: Seq<u8>) -> Option<Option<SelectorV>> {
    if tok.len() > 0 && tok.last() == 63 {
        Some(None)
    } else {
        let t = if tok.len() > 0 && tok.last() == 33 {
            tok.drop_last()
        } else {
            tok
        };
        if t.len() == 1 && t[0] == 46 {
            Some(Some(SelectorV::Cur))
        } else if t.len() == 2 && t[0] == 46 && t[1] == 46 {
            Some(Some(SelectorV::Par))
        } else {
            let p = spec_find_byte(t, 0, 40);
            if p == -1 {
                let nm = if is_self_ref(t) {
                    decl
                } else {
                    t
                };
                Some(Some(SelectorV::Name { name: nm, parent: None }))
            } else {
                let rest = t.subrange(p + 1, t.len() as int);
                if rest.len() == 0 || rest.last() != 41 {
                    None
                } else {
                    let base = t.subrange(0, p);
                    let nm = if is_self_ref(base) {
                        decl
                    } else {
                        base
                    };
                    Some(Some(SelectorV::Name { name: nm, parent: Some(rest.drop_last()) }))
                }
            }
        }
    }
}

/// A comma-separated selector list parsed against the line's declared
/// name, or `None` when some token is malformed.
pub open spec fn spec_parse_attr(s: Seq<u8>, decl: Seq<u8>) -> Option<Seq<SelectorV>>
    decreases s.len(),
{
    let c = spec_find_byte(s, 0, 44);
    if !(0 <= c < s.len()) {
        match spec_parse_sel(s, decl) {
            None => None,
            Some(opt) => Some(
                match opt {
                    None => Seq::empty(),
                    Some(x) => seq![x],
                },
            ),
        }
    } else {
        match spec_parse_sel(s.subrange(0, c), decl) {
            None => None,
            Some(opt) => {
                let head: Seq<SelectorV> = match opt {
                    None => Seq::empty(),
                    Some(x) => seq![x],
                };
                match spec_parse_attr(s.subrange(c + 1, s.len() as int), decl) {
                    None => None,
                    Some(rest) => Some(head + rest),
                }
            },
        }
    }
}

/// One change-log line parsed, or `None` when it fits no grammar form.
pub open spec fn spec_parse_line(line: Seq<u8>) -> Option<LineV> {
    if line.len() == 0 {
        Some(LineV::Empty)
    } else if line[0] == 35 {
        Some(LineV::Comment(line.subrange(1, line.len() as int)))
    } else if line[0] == 45 || line[0] == 43 || line[0] == 61 {
        let mfwd = line[0] == 45;
        let transfer = line[0] == 61;
        if line.len() < 8 {
            None
        } else if !digits_at(line, 1, 7) {
            None
        } else if line[7] != 32 {
            None
        } else {
            let code = code6_val(line.subrange(1, 7));
            let body = line.subrange(8, line.len() as int);
            let k = spec_find_rel(body, 0);
            if k == -1 {
                if transfer {
                    None
                } else {
                    Some(LineV::Change(ChangeLineV {
                        fwd: mfwd,
                        transfer: false,
                        code,
                        name: body,
                        attr: None,
                    }))
                }
            } else {
                let name = body.subrange(0, k);
                let afwd = body[k] == 62;
                if !transfer && afwd != mfwd {
                    None
                } else {
                    match spec_parse_attr(body.subrange(k + 1, body.len() as int), name) {
                        None => None,
                        Some(sels) => Some(LineV::Change(ChangeLineV {
                            fwd: if transfer {
                                afwd
                            } else {
                                mfwd
                            },
                            transfer,
                            code,
                            name,
                            attr: Some(sels),
                        })),
                    }
                }
            }
        }
    } else {
        None
    }
}

/// A snapshot record parsed from one line: six digits, one tab, a name.
pub open spec fn spec_parse_data_line(line: Seq<u8>) -> Option<(u32, Seq<u8>)> {
    if line.len() >= 7 && digits_at(line, 0, 6) && line[6] == 9 {
        Some((code6_val(line.subrange(0, 6)), line.subrange(7, line.len() as int)))
    } else {
        None
    }
}

/// The first position of byte `b` at or after `start`.
fn find_byte(s: &Vec<u8>, start: usize, b: u8) -> (r: Option<usize>)
    requires
        start <= s@.len(),
    ensures
        match r {
            Some(i) => start <= i < s@.len() && spec_find_byte(s@, start as int, b) == i,
            None => spec_find_byte(s@, start as int, b) == -1,
        },
{
    let n = s.len();
    let mut i: usize = start;
    while i < n
        invariant
            start <= i <= n,
            n == s@.len(),
            spec_find_byte(s@, start as int, b) == spec_find_byte(s@, i as int, b),
        decreases n - i,
    {
        if s[i] == b {
            return Some(i);
        }
        i += 1;
    }
    None
}

/// The first position of a relation byte at or after `start`.
fn find_rel(s: &Vec<u8>, start: usize) -> (r: Option<usize>)
    requires
        start <= s@.len(),
    ensures
        match r {
            Some(i) => start <= i < s@.len() && spec_find_rel(s@, start as int) == i,
            None => spec_find_rel(s@, start as int) == -1,
        },
{
    let n = s.len();
    let mut i: usize = start;
    while i < n
        invariant
            start <= i <= n,
            n == s@.len(),
            spec_find_rel(s@, start as int) == spec_find_rel(s@, i as int),
        decreases n - i,
    {
        if s[i] == 62 || s[i] == 60 {
            return Some(i);
        }
        i += 1;
    }
    None
}

/// Parse one selector token; see [`spec_parse_sel`].
fn parse_sel(tok: &Vec<u8>, decl: &Vec<u8>) -> (r: Option<Option<Selector>>)
    ensures
        match r {
            None => spec_parse_sel(tok@, decl@) is None,
            Some(None) => spec_parse_sel(tok@, decl@) == Some(None::<SelectorV>),
            Some(Some(sel)) => spec_parse_sel(tok@, decl@) == Some(Some(sel@)),
        },
{
    let n = tok.len();
    if n > 0 && tok[n - 1] == 63 {
        return Some(None);
    }
    let end = if n > 0 && tok[n - 1] == 33 {
        n - 1
    } else {
        n
    };
    let ghost t = tok@.subrange(0, end as int);
    proof {
        if end < n {
            assert(t =~= tok@.drop_last());
        } else {
            assert(t =~= tok@);
        }
    }
    if end == 1 && tok[0] == 46 {
        return Some(Some(Selector::CurCode));
    }
    if end == 2 && tok[0] == 46 && tok[1] == 46 {
        return Some(Some(Selector::ParentCode));
    }
    match find_byte(tok, 0, 40) {
        Some(p) => {
            proof {
                lemma_find_byte_no_hit(tok@, 0, 40);
                assert(tok@[p as int] == 40);
                if end < n {
                    assert(tok@[end as int] == 33);
                }
                assert(p < end);
                assert(forall|j: int| 0 <= j < p ==> t[j] == tok@[j]);
                assert(spec_find_byte(t, 0, 40) == p) by {
                    lemma_find_byte_subrange(tok@, t, p as int, 40);
                }
            }
            if end - p < 2 || tok[end - 1] != 41 {
                proof {
                    let rest = t.subrange(p + 1, t.len() as int);
                    if rest.len() > 0 {
                        assert(rest.last() == t[end - 1]);
                    }
                }
                return None;
            }
            let base = subvec(tok, 0, p);
            let qual = subvec(tok, p + 1, end - 1);
            proof {
                let rest = t.subrange(p + 1, t.len() as int);
                assert(rest.last() == t[end - 1]);
                assert(rest.drop_last() =~= qual@);
                assert(base@ =~= t.subrange(0, p as int));
            }
            let nm = if base.len() == 1 && (base[0] == 35 || base[0] == 95) {
                crate::bytes::bytes_copy(decl)
            } else {
                base
            };
            Some(Some(Selector::Name { name: nm, parent: Some(qual) }))
        },
        None => {
            proof {
                assert(spec_find_byte(t, 0, 40) == -1) by {
                    lemma_find_byte_none(tok@, t, 40);
                }
            }
            let nm = if end == 1 && (tok[0] == 35 || tok[0] == 95) {
                crate::bytes::bytes_copy(decl)
            } else {
                subvec(tok, 0, end)
            };
            Some(Some(Selector::Name { name: nm, parent: None }))
        },
    }
}

/// A prefix free of byte `b` makes the search in the prefix agree with
/// the search in the whole.
proof fn lemma_find_byte_subrange(s: Seq<u8>, t: Seq<u8>, p: int, b: u8)
    requires
        t == s.subrange(0, t.len() as int),
        t.len() <= s.len(),
        0 <= p < t.len(),
        s[p] == b,
        forall|j: int| 0 <= j < p ==> s[j] != b,
    ensures
        spec_find_byte(t, 0, b) == p,
        spec_find_byte(s, 0, b) == p,
{
    lemma_find_byte_at(s, 0, p, b);
    lemma_find_byte_at(t, 0, p, b);
}

/// The search finds the first matching position.
proof fn lemma_find_byte_at(s: Seq<u8>, i: int, p: int, b: u8)
    requires
        0 <= i <= p < s.len(),
        s[p] == b,
        forall|j: int| i <= j < p ==> s[j] != b,
    ensures
        spec_find_byte(s, i, b) == p,
    decreases p - i,
{
    if i < p {
        lemma_find_byte_at(s, i + 1, p, b);
    }
}

/// No occurrence in the whole means none in a prefix either.
proof fn lemma_find_byte_none(s: Seq<u8>, t: Seq<u8>, b: u8)
    requires
        t == s.subrange(0, t.len() as int),
        t.len() <= s.len(),
        spec_find_byte(s, 0, b) == -1 || spec_find_byte(s, 0, b) >= t.len(),
    ensures
        spec_find_byte(t, 0, b) == -1,
{
    lemma_find_byte_no_hit(s, 0, b);
    assert(forall|j: int| 0 <= j < t.len() ==> t[j] != b);
    lemma_find_byte_none_rec(t, 0, b);
}

/// Positions before the first hit (or all, if none) do not match.
proof fn lemma_find_byte_no_hit(s: Seq<u8>, i: int, b: u8)
    requires
        0 <= i <= s.len(),
    ensures
        forall|j: int| i <= j < s.len()
            && (spec_find_byte(s, i, b) == -1 || j < spec_find_byte(s, i, b)) ==> s[j] != b,
        spec_find_byte(s, i, b) == -1 || (i <= spec_find_byte(s, i, b) < s.len()
            && s[spec_find_byte(s, i, b)] == b),
    decreases s.len() - i,
{
    if i < s.len() {
        lemma_find_byte_no_hit(s, i + 1, b);
    }
}

/// A sequence with no matching byte searches to -1.
proof fn lemma_find_byte_none_rec(s: Seq<u8>, i: int, b: u8)
    requires
        0 <= i <= s.len(),
        forall|j: int| i <= j < s.len() ==> s[j] != b,
    ensures
        spec_find_byte(s, i, b) == -1,
    decreases s.len() - i,
{
    if i < s.len() {
        lemma_find_byte_none_rec(s, i + 1, b);
    }
}

/// Parse a comma-separated selector list; see [`spec_parse_attr`].
fn parse_attr(s: &Vec<u8>, decl: &Vec<u8>) -> (r: Option<Vec<Selector>>)
    ensures
        match r {
            None => spec_parse_attr(s@, decl@) is None,
            Some(v) => spec_parse_attr(s@, decl@) == Some(sels_view(v@)),
        },
    decreases s@.len(),
{
    let n = s.len();
    let c = find_byte(s, 0, 44);
    let tok = match c {
        Some(i) => subvec(s, 0, i),
        None => subvec(s, 0, n),
    };
    proof {
        if c is None {
            assert(tok@ =~= s@);
        }
    }
    let head = match parse_sel(&tok, decl) {
        None => {
            return None;
        },
        Some(h) => h,
    };
    match c {
        None => {
            let mut out: Vec<Selector> = Vec::new();
            match head {
                Some(x) => {
                    out.push(x);
                    proof {
                        assert(sels_view(out@) =~= seq![out@[0]@]);
                    }
                },
                None => {
                    proof {
                        assert(sels_view(out@) =~= Seq::<SelectorV>::empty());
                    }
                },
            }
            Some(out)
        },
        Some(i) => {
            let rest = subvec(s, i + 1, n);
            match parse_attr(&rest, decl) {
                None => None,
                Some(restv) => {
                    let mut out: Vec<Selector> = Vec::new();
                    let ghost headseq: Seq<SelectorV> = match &head {
                        Some(x) => seq![x@],
                        None => Seq::empty(),
                    };
                    match head {
                        Some(x) => out.push(x),
                        None => (),
                    }
                    let mut restv = restv;
                    let ghost restviews = sels_view(restv@);
                    out.append(&mut restv);
                    proof {
                        assert(sels_view(out@) =~= headseq + restviews);
                    }
                    Some(out)
                },
            }
        },
    }
}

/// Parse one change-log line; see [`spec_parse_line`].
pub fn parse_line(line: &Vec<u8>) -> (r: Option<Line>)
    ensures
        match r {
            None => spec_parse_line(line@) is None,
            Some(l) => spec_parse_line(line@) == Some(l@),
        },
{
    let n = line.len();
    if n == 0 {
        return Some(Line::Empty);
    }
    let m = line[0];
    if m == 35 {
        return Some(Line::Comment(subvec(line, 1, n)));
    }
    if m != 45 && m != 43 && m != 61 {
        return None;
    }
    let mfwd = m == 45;
    let transfer = m == 61;
    if n < 8 {
        return None;
    }
    let mut i: usize = 1;
    while i < 7
        invariant
            1 <= i <= 7,
            n == line@.len(),
            n >= 8,
            line@[0] == 45 || line@[0] == 43 || line@[0] == 61,
            forall|j: int| 1 <= j < i ==> is_digit(line@[j]),
        decreases 7 - i,
    {
        let b = line[i];
        if b < 48 || b > 57 {
            proof {
                assert(!digits_at(line@, 1, 7)) by {
                    assert(1 <= i as int && (i as int) < 7 && !is_digit(line@[i as int]));
                }
            }
            return None;
        }
        i += 1;
    }
    let ghost digits = line@.subrange(1, 7);
    proof {
        assert(forall|j: int| 0 <= j < 6 ==> is_digit(digits[j]));
    }
    let mut code: u32 = 0;
    let mut k: usize = 1;
    while k < 7
        invariant
            1 <= k <= 7,
            n == line@.len(),
            n >= 8,
            digits == line@.subrange(1, 7),
            forall|j: int| 0 <= j < 6 ==> is_digit(digits[j]),
            code as int == if k == 1 {
                0int
            } else {
                code6_val(digits) as int / pow10((7 - k) as nat)
            },
            code <= 999999,
        decreases 7 - k,
    {
        let b = line[k];
        proof {
            assert(b == digits[k - 1]);
            lemma_code6_step(digits, k as int - 1, code as int, b as int);
        }
        code = code * 10 + (b - 48) as u32;
        k += 1;
    }
    assert(code == code6_val(line@.subrange(1, 7))) by {
        assert(pow10(0) == 1);
    };
    if line[7] != 32 {
        return None;
    }
    let body = subvec(line, 8, n);
    match find_rel(&body, 0) {
        None => {
            if transfer {
                None
            } else {
                Some(Line::Change(ChangeLine {
                    fwd: mfwd,
                    transfer: false,
                    code,
                    name: body,
                    attr: None,
                }))
            }
        },
        Some(k) => {
            let name = subvec(&body, 0, k);
            let afwd = body[k] == 62;
            if !transfer && afwd != mfwd {
                return None;
            }
            let attr_str = subvec(&body, k + 1, body.len());
            match parse_attr(&attr_str, &name) {
                None => None,
                Some(sels) => Some(Line::Change(ChangeLine {
                    fwd: if transfer {
                        afwd
                    } else {
                        mfwd
                    },
                    transfer,
                    code,
                    name,
                    attr: Some(sels),
                })),
            }
        },
    }
}

/// Ten to the `k`-th power.
pub open spec fn pow10(k: nat) -> int
    decreases k,
{
    if k == 0 {
        1
    } else {
        10 * pow10((k - 1) as nat)
    }
}

/// Six digits never exceed 999999.
pub proof fn lemma_code6_le(s: Seq<u8>)
    requires
        s.len() == 6,
        digits_at(s, 0, 6),
    ensures
        code6_val(s) <= 999999,
{
    assert(is_digit(s[0]) && is_digit(s[1]) && is_digit(s[2]) && is_digit(s[3])
        && is_digit(s[4]) && is_digit(s[5]));
}

/// A parsed change line's code is a six-digit value.
pub proof fn lemma_change_code_bounded(line: Seq<u8>)
    ensures
        match spec_parse_line(line) {
            Some(LineV::Change(cl)) => cl.code <= 999999,
            _ => true,
        },
{
    match spec_parse_line(line) {
        Some(LineV::Change(cl)) => {
            assert(digits_at(line.subrange(1, 7), 0, 6)) by {
                assert(forall|j: int| 0 <= j < 6
                    ==> line.subrange(1, 7)[j] == line[j + 1]);
            }
            lemma_code6_le(line.subrange(1, 7));
        },
        _ => {},
    }
}

/// Powers of ten are positive.
proof fn lemma_pow10_pos(k: nat)
    ensures
        pow10(k) >= 1,
    decreases k,
{
    if k > 0 {
        lemma_pow10_pos((k - 1) as nat);
    }
}

/// Reading one more digit refines the running value of a six-digit code.
proof fn lemma_code6_step(s: Seq<u8>, done: int, acc: int, b: int)
    requires
        s.len() == 6,
        0 <= done < 6,
        forall|j: int| 0 <= j < 6 ==> is_digit(s[j]),
        b == s[done],
        acc == if done == 0 {
            0int
        } else {
            code6_val(s) as int / pow10((6 - done) as nat)
        },
    ensures
        acc * 10 + (b - 48) == code6_val(s) as int / pow10((5 - done) as nat),
        0 <= code6_val(s) as int / pow10((5 - done) as nat) <= 999999,
{
    reveal_with_fuel(pow10, 7);
    let v = (s[0] - 48) * 100000 + (s[1] - 48) * 10000 + (s[2] - 48) * 1000 + (s[3] - 48) * 100
        + (s[4] - 48) * 10 + (s[5] - 48);
    assert(code6_val(s) == v);
    assert(0 <= v <= 999999);
    lemma_pow10_pos((5 - done) as nat);
    vstd::arithmetic::div_mod::lemma_div_is_ordered_by_denominator(
        v,
        1,
        pow10((5 - done) as nat),
    );
    assert(v / 1 == v);
    vstd::arithmetic::div_mod::lemma_div_pos_is_pos(v, pow10((5 - done) as nat));
    if done == 0 {
        assert(v / 100000 == s[0] - 48) by (nonlinear_arith)
            requires
                v == (s[0] - 48) * 100000 + (s[1] - 48) * 10000 + (s[2] - 48) * 1000 + (s[3] - 48)
                    * 100 + (s[4] - 48) * 10 + (s[5] - 48),
                48 <= s[0] <= 57 && 48 <= s[1] <= 57 && 48 <= s[2] <= 57 && 48 <= s[3] <= 57
                    && 48 <= s[4] <= 57 && 48 <= s[5] <= 57,
        ;
        assert(pow10(5) == 100000);
    } else {
        let hi = pow10((6 - done) as nat);
        let lo = pow10((5 - done) as nat);
        assert(hi == 10 * lo);
        lemma_code6_div(s, v, done);
    }
}

/// Dividing the code value by adjacent powers of ten steps one digit.
proof fn lemma_code6_div(s: Seq<u8>, v: int, done: int)
    requires
        s.len() == 6,
        1 <= done < 6,
        forall|j: int| 0 <= j < 6 ==> is_digit(s[j]),
        v == (s[0] - 48) * 100000 + (s[1] - 48) * 10000 + (s[2] - 48) * 1000 + (s[3] - 48) * 100
            + (s[4] - 48) * 10 + (s[5] - 48),
    ensures
        (v / pow10((6 - done) as nat)) * 10 + (s[done] - 48) == v / pow10((5 - done) as nat),
{
    reveal_with_fuel(pow10, 7);
    let d0 = s[0] - 48;
    let d1 = s[1] - 48;
    let d2 = s[2] - 48;
    let d3 = s[3] - 48;
    let d4 = s[4] - 48;
    let d5 = s[5] - 48;
    if done == 1 {
        assert((v / 100000) * 10 + d1 == v / 10000) by (nonlinear_arith)
            requires
                v == d0 * 100000 + d1 * 10000 + d2 * 1000 + d3 * 100 + d4 * 10 + d5,
                0 <= d0 <= 9 && 0 <= d1 <= 9 && 0 <= d2 <= 9 && 0 <= d3 <= 9 && 0 <= d4 <= 9
                    && 0 <= d5 <= 9,
        ;
        assert(pow10(5) == 100000 && pow10(4) == 10000);
    } else if done == 2 {
        assert((v / 10000) * 10 + d2 == v / 1000) by (nonlinear_arith)
            requires
                v == d0 * 100000 + d1 * 10000 + d2 * 1000 + d3 * 100 + d4 * 10 + d5,
                0 <= d0 <= 9 && 0 <= d1 <= 9 && 0 <= d2 <= 9 && 0 <= d3 <= 9 && 0 <= d4 <= 9
                    && 0 <= d5 <= 9,
        ;
        assert(pow10(4) == 10000 && pow10(3) == 1000);
    } else if done == 3 {
        assert((v / 1000) * 10 + d3 == v / 100) by (nonlinear_arith)
            requires
                v == d0 * 100000 + d1 * 10000 + d2 * 1000 + d3 * 100 + d4 * 10 + d5,
                0 <= d0 <= 9 && 0 <= d1 <= 9 && 0 <= d2 <= 9 && 0 <= d3 <= 9 && 0 <= d4 <= 9
                    && 0 <= d5 <= 9,
        ;
        assert(pow10(3) == 1000 && pow10(2) == 100);
    } else if done == 4 {
        assert((v / 100) * 10 + d4 == v / 10) by (nonlinear_arith)
            requires
                v == d0 * 100000 + d1 * 10000 + d2 * 1000 + d3 * 100 + d4 * 10 + d5,
                0 <= d0 <= 9 && 0 <= d1 <= 9 && 0 <= d2 <= 9 && 0 <= d3 <= 9 && 0 <= d4 <= 9
                    && 0 <= d5 <= 9,
        ;
        assert(pow10(2) == 100 && pow10(1) == 10);
    } else {
        assert((v / 10) * 10 + d5 == v / 1) by (nonlinear_arith)
            requires
                v == d0 * 100000 + d1 * 10000 + d2 * 1000 + d3 * 100 + d4 * 10 + d5,
                0 <= d0 <= 9 && 0 <= d1 <= 9 && 0 <= d2 <= 9 && 0 <= d3 <= 9 && 0 <= d4 <= 9
                    && 0 <= d5 <= 9,
        ;
        assert(pow10(1) == 10 && pow10(0) == 1);
    }
}

/// Parse one snapshot record; see [`spec_parse_data_line`].
pub fn parse_data_line(line: &Vec<u8>) -> (r: Option<(u32, Vec<u8>)>)
    ensures
        match r {
            None => spec_parse_data_line(line@) is None,
            Some(p) => spec_parse_data_line(line@) == Some((p.0, p.1@)),
        },
{
    let n = line.len();
    if n < 7 {
        return None;
    }
    let mut i: usize = 0;
    while i < 6
        invariant
            0 <= i <= 6,
            n == line@.len(),
            n >= 7,
            forall|j: int| 0 <= j < i ==> is_digit(line@[j]),
        decreases 6 - i,
    {
        let b = line[i];
        if b < 48 || b > 57 {
            proof {
                assert(!digits_at(line@, 0, 6)) by {
                    assert((i as int) < 6 && !is_digit(line@[i as int]));
                }
            }
            return None;
        }
        i += 1;
    }
    let ghost digits = line@.subrange(0, 6);
    proof {
        assert(forall|j: int| 0 <= j < 6 ==> is_digit(digits[j]));
    }
    let mut code: u32 = 0;
    let mut k: usize = 0;
    while k < 6
        invariant
            0 <= k <= 6,
            n == line@.len(),
            n >= 7,
            digits == line@.subrange(0, 6),
            forall|j: int| 0 <= j < 6 ==> is_digit(digits[j]),
            code as int == if k == 0 {
                0int
            } else {
                code6_val(digits) as int / pow10((6 - k) as nat)
            },
            code <= 999999,
        decreases 6 - k,
    {
        let b = line[k];
        proof {
            assert(b == digits[k as int]);
            lemma_code6_step(digits, k as int, code as int, b as int);
        }
        code = code * 10 + (b - 48) as u32;
        k += 1;
    }
    assert(code == code6_val(line@.subrange(0, 6))) by {
        assert(pow10(0) == 1);
    };
    if line[6] != 9 {
        return None;
    }
    Some((code, subvec(line, 7, n)))
}

/// Parse a whole snapshot: one record per line, in order. `Err(k)` names
/// the first malformed line.
pub fn read_data(lines: &Vec<Vec<u8>>) -> (r: Result<Vec<(u32, Vec<u8>)>, usize>)
    ensures
        match r {
            Ok(v) => {
                &&& v@.len() == lines@.len()
                &&& forall|i: int| 0 <= i < lines@.len()
                    ==> spec_parse_data_line(lines@[i]@) == Some((#[trigger] v@[i].0, v@[i].1@))
            },
            Err(k) => {
                &&& k < lines@.len()
                &&& spec_parse_data_line(lines@[k as int]@) is None
                &&& forall|i: int| 0 <= i < k ==> spec_parse_data_line(#[trigger] lines@[i]@) is Some
            },
        },
{
    let n = lines.len();
    let mut out: Vec<(u32, Vec<u8>)> = Vec::new();
    let mut i: usize = 0;
    while i < n
        invariant
            i <= n,
            n == lines@.len(),
            out@.len() == i,
            forall|j: int| 0 <= j < i
                ==> spec_parse_data_line(lines@[j]@) == Some((#[trigger] out@[j].0, out@[j].1@)),
        decreases n - i,
    {
        match parse_data_line(&lines[i]) {
            Some(p) => {
                out.push(p);
            },
            None => {
                proof {
                    assert forall|j: int| 0 <= j < i implies
                        spec_parse_data_line(#[trigger] lines@[j]@) is Some by {
                        assert(spec_parse_data_line(lines@[j]@) == Some((out@[j].0, out@[j].1@)));
                    }
                }
                return Err(i);
            },
        }
        i += 1;
    }
    Ok(out)
}

} // verus!
