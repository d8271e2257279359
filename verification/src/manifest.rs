//! The package manifest: a small line-based key/value text with sections,
//! of the shape
//!
//! ```text
//! [package]
//! name = "<string>"
//! version = "<string>"
//! ```
//!
//! Blank lines and `#` comments are skipped; `[section]` lines open a
//! section; `key = "value"` lines assign inside the current section, a
//! later assignment overwriting an earlier one. Anything else is a parse
//! error, as is an assignment before any section. The manifest is valid
//! when a `[package]` section assigns non-empty `name` and `version`.

use vstd::prelude::*;

use crate::errors::{PkgError, SchemaField};
use crate::scan::{
    bytes_eq, find_byte, first_idx, trim_range, trimmed, EQ_SIGN, HASH, LBRACKET, NL, QUOTE,
    RBRACKET,
};

verus! {

/// The byte sequence `package`.
pub open spec fn pkg_word() -> Seq<u8> {
    seq![112, 97, 99, 107, 97, 103, 101]
}

/// The byte sequence `name`.
pub open spec fn name_word() -> Seq<u8> {
    seq![110, 97, 109, 101]
}

/// The byte sequence `version`.
pub open spec fn version_word() -> Seq<u8> {
    seq![118, 101, 114, 115, 105, 111, 110]
}

fn pkg_word_v() -> (v: Vec<u8>)
    ensures
        v@ == pkg_word(),
{
    let mut v: Vec<u8> = Vec::new();
    v.push(112);
    v.push(97);
    v.push(99);
    v.push(107);
    v.push(97);
    v.push(103);
    v.push(101);
    proof {
        assert(v@ =~= pkg_word());
    }
    v
}

fn name_word_v() -> (v: Vec<u8>)
    ensures
        v@ == name_word(),
{
    let mut v: Vec<u8> = Vec::new();
    v.push(110);
    v.push(97);
    v.push(109);
    v.push(101);
    proof {
        assert(v@ =~= name_word());
    }
    v
}

fn version_word_v() -> (v: Vec<u8>)
    ensures
        v@ == version_word(),
{
    let mut v: Vec<u8> = Vec::new();
    v.push(118);
    v.push(101);
    v.push(114);
    v.push(115);
    v.push(105);
    v.push(111);
    v.push(110);
    proof {
        assert(v@ =~= version_word());
    }
    v
}

/// What one manifest line means.
pub enum LineKind {
    /// Blank or comment: no effect.
    Skip,
    /// `[name]`: opens the section called `name`.
    Header(Seq<u8>),
    /// `key = "value"` inside the current section.
    Entry(Seq<u8>, Seq<u8>),
    /// A malformed line.
    Bad,
}

/// Classification of an already-trimmed line that is neither blank, a
/// comment, nor a section header: it must be `key = "value"`.
pub open spec fn classify_assign(t: Seq<u8>) -> LineKind {
    let e = first_idx(t, EQ_SIGN);
    if e == t.len() {
        LineKind::Bad
    } else {
        let k = trimmed(t.subrange(0, e));
        let v = trimmed(t.subrange(e + 1, t.len() as int));
        if k.len() == 0 {
            LineKind::Bad
        } else if v.len() >= 2 && v[0] == QUOTE && v[v.len() - 1] == QUOTE && (forall|q: int|
            1 <= q < v.len() - 1 ==> v[q] != QUOTE) {
            LineKind::Entry(k, v.subrange(1, v.len() - 1))
        } else {
            LineKind::Bad
        }
    }
}

/// Classification of an already-trimmed line.
pub open spec fn classify_t(t: Seq<u8>) -> LineKind {
    if t.len() == 0 {
        LineKind::Skip
    } else if t[0] == HASH {
        LineKind::Skip
    } else if t[0] == LBRACKET {
        if t.len() >= 2 && t[t.len() - 1] == RBRACKET {
            let n = trimmed(t.subrange(1, t.len() - 1));
            if n.len() > 0 {
                LineKind::Header(n)
            } else {
                LineKind::Bad
            }
        } else {
            LineKind::Bad
        }
    } else {
        classify_assign(t)
    }
}

/// Classification of a single line, after trimming.
pub open spec fn classify(l: Seq<u8>) -> LineKind {
    classify_t(trimmed(l))
}

/// The parser state after some prefix of the lines.
pub struct MState {
    /// The section the parser is currently inside, if any.
    pub cur: Option<Seq<u8>>,
    /// Whether a `[package]` header has been seen.
    pub seen_pkg: bool,
    /// The latest `name` assigned inside `[package]`.
    pub name: Option<Seq<u8>>,
    /// The latest `version` assigned inside `[package]`.
    pub version: Option<Seq<u8>>,
}

pub open spec fn init_state() -> MState {
    MState { cur: None, seen_pkg: false, name: None, version: None }
}

/// Effect of one line on the parser state.
pub open spec fn step(st: MState, l: Seq<u8>) -> Result<MState, PkgError> {
    match classify(l) {
        LineKind::Skip => Ok(st),
        LineKind::Bad => Err(PkgError::ParseError),
        LineKind::Header(n) => Ok(
            MState { cur: Some(n), seen_pkg: st.seen_pkg || n == pkg_word(), ..st },
        ),
        LineKind::Entry(k, v) => match st.cur {
            None => Err(PkgError::ParseError),
            Some(c) => if c == pkg_word() {
                if k == name_word() {
                    Ok(MState { name: Some(v), ..st })
                } else if k == version_word() {
                    Ok(MState { version: Some(v), ..st })
                } else {
                    Ok(st)
                }
            } else {
                Ok(st)
            },
        },
    }
}

/// Folds `step` over the lines of `s` (split on `\n`), starting from `st`.
pub open spec fn parse_from(s: Seq<u8>, st: MState) -> Result<MState, PkgError>
    decreases s.len(),
    via parse_from_decreases
{
    if s.len() == 0 {
        Ok(st)
    } else {
        let e = first_idx(s, NL);
        match step(st, s.subrange(0, e)) {
            Err(err) => Err(err),
            Ok(st2) => if e == s.len() {
                Ok(st2)
            } else {
                parse_from(s.subrange(e + 1, s.len() as int), st2)
            },
        }
    }
}

#[via_fn]
proof fn parse_from_decreases(s: Seq<u8>, st: MState) {
    crate::scan::lemma_first_idx(s, NL);
}

/// The schema check: the final state must carry a `[package]` section with
/// non-empty `name` and `version`.
pub open spec fn finalize(st: MState) -> Result<(Seq<u8>, Seq<u8>), PkgError> {
    if !st.seen_pkg {
        Err(PkgError::SchemaError(SchemaField::PackageSection))
    } else {
        match st.name {
            None => Err(PkgError::SchemaError(SchemaField::Name)),
            Some(n) => if n.len() == 0 {
                Err(PkgError::SchemaError(SchemaField::Name))
            } else {
                match st.version {
                    None => Err(PkgError::SchemaError(SchemaField::Version)),
                    Some(v) => if v.len() == 0 {
                        Err(PkgError::SchemaError(SchemaField::Version))
                    } else {
                        Ok((n, v))
                    },
                }
            },
        }
    }
}

/// What parsing a whole manifest text yields: the package's name and
/// version, or the first error.
pub open spec fn spec_manifest(s: Seq<u8>) -> Result<(Seq<u8>, Seq<u8>), PkgError> {
    match parse_from(s, init_state()) {
        Err(e) => Err(e),
        Ok(st) => finalize(st),
    }
}

/// A validated manifest: the package's identity.
pub struct Manifest {
    pub name: Vec<u8>,
    pub version: Vec<u8>,
}

enum LineKindE {
    Skip,
    Header(Vec<u8>),
    Entry(Vec<u8>, Vec<u8>),
    Bad,
}

fn classify_line(l: &[u8]) -> (r: LineKindE)
    ensures
        match r {
            LineKindE::Skip => classify(l@) == LineKind::Skip,
            LineKindE::Header(n) => classify(l@) == LineKind::Header(n@),
            LineKindE::Entry(k, v) => classify(l@) == LineKind::Entry(k@, v@),
            LineKindE::Bad => classify(l@) == LineKind::Bad,
        },
{
    let ghost whole = l@.subrange(0, l@.len() as int);
    proof {
        assert(whole =~= l@);
    }
    let (a, b) = trim_range(l, 0, l.len());
    let ghost t = trimmed(l@);
    proof {
        assert(l@.subrange(a as int, b as int) == t);
    }
    if a == b {
        return LineKindE::Skip;
    }
    proof {
        assert(t[0] == l@[a as int]);
        assert(t[t.len() - 1] == l@[b - 1]);
    }
    if l[a] == HASH {
        return LineKindE::Skip;
    }
    if l[a] == LBRACKET {
        if b - a >= 2 && l[b - 1] == RBRACKET {
            let (c, d) = trim_range(l, a + 1, b - 1);
            proof {
                assert(t.subrange(1, t.len() - 1) =~= l@.subrange(a + 1, b - 1));
                assert(l@.subrange(c as int, d as int) == trimmed(t.subrange(1, t.len() - 1)));
            }
            if d > c {
                let n = vstd::slice::slice_to_vec(vstd::slice::slice_subrange(l, c, d));
                return LineKindE::Header(n);
            } else {
                return LineKindE::Bad;
            }
        } else {
            return LineKindE::Bad;
        }
    }
    let ts: &[u8] = vstd::slice::slice_subrange(l, a, b);
    proof {
        assert(ts@ == t);
    }
    classify_assign_line(ts)
}

fn classify_assign_line(ts: &[u8]) -> (r: LineKindE)
    requires
        ts@.len() > 0,
        ts@[0] != HASH,
        ts@[0] != LBRACKET,
    ensures
        match r {
            LineKindE::Skip => false,
            LineKindE::Header(n) => false,
            LineKindE::Entry(k, v) => classify_assign(ts@) == LineKind::Entry(k@, v@),
            LineKindE::Bad => classify_assign(ts@) == LineKind::Bad,
        },
{
    let ghost t = ts@;
    let e = find_byte(ts, 0, EQ_SIGN);
    proof {
        assert(ts@.skip(0) =~= ts@);
    }
    if e == ts.len() {
        return LineKindE::Bad;
    }
    let (k0, k1) = trim_range(ts, 0, e);
    proof {
        assert(ts@.subrange(0, e as int) =~= t.subrange(0, e as int));
    }
    if k1 == k0 {
        return LineKindE::Bad;
    }
    let (v0, v1) = trim_range(ts, e + 1, ts.len());
    let ghost vv = trimmed(t.subrange(e + 1, t.len() as int));
    proof {
        assert(ts@.subrange(e + 1, ts@.len() as int) =~= t.subrange(e + 1, t.len() as int));
        assert(ts@.subrange(v0 as int, v1 as int) == vv);
    }
    if v1 - v0 < 2 || ts[v0] != QUOTE || ts[v1 - 1] != QUOTE {
        proof {
            if v1 - v0 >= 2 {
                assert(vv[0] == ts@[v0 as int]);
                assert(vv[vv.len() - 1] == ts@[v1 - 1]);
            }
        }
        return LineKindE::Bad;
    }
    proof {
        assert(vv[0] == ts@[v0 as int]);
        assert(vv[vv.len() - 1] == ts@[v1 - 1]);
    }
    let mut q: usize = v0 + 1;
    #[verifier::loop_isolation(false)]
    while q < v1 - 1
        invariant
            v0 + 1 <= q <= v1 - 1,
            v1 <= ts@.len(),
            vv == ts@.subrange(v0 as int, v1 as int),
            forall|x: int| v0 < x < q ==> ts@[x] != QUOTE,
        decreases v1 - q,
    {
        if ts[q] == QUOTE {
            proof {
                assert(ts@.subrange(v0 as int, v1 as int)[q - v0] == ts@[q as int]);
                assert(vv[q - v0] == QUOTE);
            }
            return LineKindE::Bad;
        }
        q = q + 1;
    }
    proof {
        assert forall|x: int| 1 <= x < vv.len() - 1 implies vv[x] != QUOTE by {
            assert(ts@.subrange(v0 as int, v1 as int)[x] == ts@[v0 + x]);
        }
    }
    let k = vstd::slice::slice_to_vec(vstd::slice::slice_subrange(ts, k0, k1));
    let v = vstd::slice::slice_to_vec(vstd::slice::slice_subrange(ts, v0 + 1, v1 - 1));
    proof {
        assert(v@ =~= vv.subrange(1, vv.len() - 1));
        assert(k@ == trimmed(t.subrange(0, e as int)));
    }
    LineKindE::Entry(k, v)
}

struct PState {
    cur: Option<Vec<u8>>,
    seen_pkg: bool,
    name: Option<Vec<u8>>,
    version: Option<Vec<u8>>,
}

spec fn st_view(st: &PState) -> MState {
    MState {
        cur: match st.cur {
            None => None,
            Some(ref c) => Some(c@),
        },
        seen_pkg: st.seen_pkg,
        name: match st.name {
            None => None,
            Some(ref n) => Some(n@),
        },
        version: match st.version {
            None => None,
            Some(ref v) => Some(v@),
        },
    }
}

/// Parses and validates a manifest text, returning the package identity
/// exactly as `spec_manifest` describes it.
pub fn parse_manifest(text: &[u8]) -> (r: Result<Manifest, PkgError>)
    ensures
        match r {
            Ok(m) => spec_manifest(text@) == Ok::<(Seq<u8>, Seq<u8>), PkgError>((m.name@, m.version@)),
            Err(e) => spec_manifest(text@) == Err::<(Seq<u8>, Seq<u8>), PkgError>(e),
        },
{
    let mut st = PState { cur: None, seen_pkg: false, name: None, version: None };
    let mut i: usize = 0;
    let pkg_w = pkg_word_v();
    let name_w = name_word_v();
    let ver_w = version_word_v();
    proof {
        assert(text@.skip(0) =~= text@);
    }
    while i < text.len()
        invariant
            i <= text@.len(),
            pkg_w@ == pkg_word(),
            name_w@ == name_word(),
            ver_w@ == version_word(),
            parse_from(text@, init_state()) == parse_from(text@.skip(i as int), st_view(&st)),
        decreases text@.len() - i,
    {
        let ghost rest = text@.skip(i as int);
        let j = find_byte(text, i, NL);
        proof {
            assert(first_idx(rest, NL) == j - i);
            assert(rest.subrange(0, j - i) =~= text@.subrange(i as int, j as int));
        }
        let line: &[u8] = vstd::slice::slice_subrange(text, i, j);
        let kind = classify_line(line);
        let ghost pre = st_view(&st);
        match kind {
            LineKindE::Bad => {
                return Err(PkgError::ParseError);
            },
            LineKindE::Skip => {},
            LineKindE::Header(n) => {
                let is_pkg = bytes_eq(n.as_slice(), pkg_w.as_slice());
                st.seen_pkg = st.seen_pkg || is_pkg;
                st.cur = Some(n);
            },
            LineKindE::Entry(k, v) => {
                match st.cur {
                    None => {
                        return Err(PkgError::ParseError);
                    },
                    Some(ref c) => {
                        if bytes_eq(c.as_slice(), pkg_w.as_slice()) {
                            if bytes_eq(k.as_slice(), name_w.as_slice()) {
                                st.name = Some(v);
                            } else if bytes_eq(k.as_slice(), ver_w.as_slice()) {
                                st.version = Some(v);
                            }
                        }
                    },
                }
            },
        }
        proof {
            assert(step(pre, line@) == Ok::<MState, PkgError>(st_view(&st)));
        }
        if j == text.len() {
            i = j;
            proof {
                assert(text@.skip(i as int) =~= Seq::<u8>::empty());
            }
        } else {
            proof {
                assert(rest.subrange(j - i + 1, rest.len() as int) =~= text@.skip(j + 1));
            }
            i = j + 1;
        }
    }
    proof {
        assert(text@.skip(i as int) =~= Seq::<u8>::empty());
        assert(parse_from(text@, init_state()) == Ok::<MState, PkgError>(st_view(&st)));
    }
    if !st.seen_pkg {
        return Err(PkgError::SchemaError(SchemaField::PackageSection));
    }
    let name = match st.name {
        None => {
            return Err(PkgError::SchemaError(SchemaField::Name));
        },
        Some(n) => n,
    };
    if name.len() == 0 {
        return Err(PkgError::SchemaError(SchemaField::Name));
    }
    let version = match st.version {
        None => {
            return Err(PkgError::SchemaError(SchemaField::Version));
        },
        Some(v) => v,
    };
    if version.len() == 0 {
        return Err(PkgError::SchemaError(SchemaField::Version));
    }
    Ok(Manifest { name, version })
}

} // verus!
