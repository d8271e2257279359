//! The database file format: one structured document of the shape
//!
//! ```text
//! {"packages":{"<name>":{"version":"<v>","manifest":"<text>"},...}}
//! ```
//!
//! The serializer emits this form exactly; the parser accepts it exactly
//! (string values may use the escapes `\\`, `\"`, `\n`, `\r`, `\t`).
//! The round-trip law `spec_load(ser_db(rs)) == Ok(rs)` is proved below:
//! a database document written on a success path always parses back.

use vstd::prelude::*;

use crate::database::{wf_recs, Database, PackageRecord, Rec};
use crate::errors::PkgError;
use crate::scan::{bytes_eq, has_at, starts_at, BACKSLASH, COMMA, LBRACE, NL, QUOTE, RBRACE};

verus! {

/// The byte `\r`.
pub const CR: u8 = 13;

/// The byte `\t`.
pub const TAB: u8 = 9;

/// The letter `n`.
pub const LET_N: u8 = 110;

/// The letter `r`.
pub const LET_R: u8 = 114;

/// The letter `t`.
pub const LET_T: u8 = 116;

/// How one byte of a string value is written inside a JSON string.
pub open spec fn esc_byte(b: u8) -> Seq<u8> {
    if b == BACKSLASH {
        seq![BACKSLASH, BACKSLASH]
    } else if b == QUOTE {
        seq![BACKSLASH, QUOTE]
    } else if b == NL {
        seq![BACKSLASH, LET_N]
    } else if b == CR {
        seq![BACKSLASH, LET_R]
    } else if b == TAB {
        seq![BACKSLASH, LET_T]
    } else {
        seq![b]
    }
}

/// How a whole string value is written inside a JSON string.
pub open spec fn esc(s: Seq<u8>) -> Seq<u8>
    decreases s.len(),
{
    if s.len() == 0 {
        Seq::empty()
    } else {
        esc_byte(s[0]) + esc(s.drop_first())
    }
}

/// The byte an escape code stands for, if it is a valid code.
pub open spec fn un_byte(c: u8) -> Option<u8> {
    if c == BACKSLASH {
        Some(BACKSLASH)
    } else if c == QUOTE {
        Some(QUOTE)
    } else if c == LET_N {
        Some(NL)
    } else if c == LET_R {
        Some(CR)
    } else if c == LET_T {
        Some(TAB)
    } else {
        None
    }
}

/// Reads a string body up to and including its closing quote: the
/// unescaped contents and what follows the quote, or `None` on a bad
/// escape or a missing quote.
pub open spec fn scan_str(s: Seq<u8>) -> Option<(Seq<u8>, Seq<u8>)>
    decreases s.len(),
{
    if s.len() == 0 {
        None
    } else if s[0] == QUOTE {
        Some((Seq::empty(), s.drop_first()))
    } else if s[0] == BACKSLASH {
        if s.len() >= 2 {
            match un_byte(s[1]) {
                None => None,
                Some(b) => match scan_str(s.skip(2)) {
                    None => None,
                    Some(cr) => Some((seq![b] + cr.0, cr.1)),
                },
            }
        } else {
            None
        }
    } else {
        match scan_str(s.drop_first()) {
            None => None,
            Some(cr) => Some((seq![s[0]] + cr.0, cr.1)),
        }
    }
}

/// Escaping then scanning gives the string back, whatever follows the
/// closing quote.
pub proof fn lemma_scan_esc(v: Seq<u8>, rest: Seq<u8>)
    ensures
        scan_str(esc(v) + seq![QUOTE] + rest) == Some((v, rest)),
    decreases v.len(),
{
    if v.len() == 0 {
        let s = esc(v) + seq![QUOTE] + rest;
        assert(s =~= seq![QUOTE] + rest);
        assert(s[0] == QUOTE);
        assert(s.drop_first() =~= rest);
    } else {
        let b = v[0];
        let s = esc(v) + seq![QUOTE] + rest;
        let tail = esc(v.drop_first()) + seq![QUOTE] + rest;
        lemma_scan_esc(v.drop_first(), rest);
        assert(esc(v) == esc_byte(b) + esc(v.drop_first()));
        if b == BACKSLASH || b == QUOTE || b == NL || b == CR || b == TAB {
            assert(esc_byte(b).len() == 2);
            assert(s[0] == BACKSLASH);
            assert(un_byte(s[1]) == Some(b));
            assert(s.skip(2) =~= tail);
            assert(seq![b] + v.drop_first() =~= v);
        } else {
            assert(esc_byte(b) =~= seq![b]);
            assert(s[0] == b);
            assert(b != QUOTE && b != BACKSLASH);
            assert(s.drop_first() =~= tail);
            assert(seq![b] + v.drop_first() =~= v);
        }
    }
}

/// Appends the escaped form of `s` to `out`.
pub fn escape_into(out: &mut Vec<u8>, s: &[u8])
    ensures
        final(out)@ == old(out)@ + esc(s@),
{
    let ghost base = out@;
    let mut i: usize = 0;
    proof {
        assert(s@.take(0) =~= Seq::<u8>::empty());
        assert(base + esc(s@.take(0)) =~= base);
    }
    while i < s.len()
        invariant
            i <= s@.len(),
            out@ == base + esc(s@.take(i as int)),
        decreases s@.len() - i,
    {
        let b = s[i];
        if b == BACKSLASH {
            out.push(BACKSLASH);
            out.push(BACKSLASH);
        } else if b == QUOTE {
            out.push(BACKSLASH);
            out.push(QUOTE);
        } else if b == NL {
            out.push(BACKSLASH);
            out.push(LET_N);
        } else if b == CR {
            out.push(BACKSLASH);
            out.push(LET_R);
        } else if b == TAB {
            out.push(BACKSLASH);
            out.push(LET_T);
        } else {
            out.push(b);
        }
        proof {
            lemma_esc_snoc(s@.take(i as int), s@[i as int]);
            assert(s@.take(i + 1) =~= s@.take(i as int).push(s@[i as int]));
            assert(out@ =~= base + (esc(s@.take(i as int)) + esc_byte(s@[i as int])));
        }
        i = i + 1;
    }
    proof {
        assert(s@.take(s@.len() as int) =~= s@);
    }
}

/// Escaping distributes over appending one byte.
pub proof fn lemma_esc_snoc(s: Seq<u8>, b: u8)
    ensures
        esc(s.push(b)) == esc(s) + esc_byte(b),
    decreases s.len(),
{
    if s.len() == 0 {
        assert(s.push(b)[0] == b);
        assert(s.push(b).drop_first() =~= Seq::<u8>::empty());
        assert(esc(s.push(b)) == esc_byte(b) + esc(Seq::<u8>::empty()));
        assert(esc_byte(b) + Seq::<u8>::empty() =~= esc_byte(b));
        assert(esc(s) + esc_byte(b) =~= esc_byte(b));
    } else {
        lemma_esc_snoc(s.drop_first(), b);
        assert(s.push(b)[0] == s[0]);
        assert(s.push(b).drop_first() =~= s.drop_first().push(b));
        assert(esc_byte(s[0]) + (esc(s.drop_first()) + esc_byte(b)) =~= (esc_byte(s[0]) + esc(
            s.drop_first(),
        )) + esc_byte(b));
    }
}

/// Reads a string body starting at `from` (just past the opening quote):
/// the unescaped contents and the index just past the closing quote.
pub fn scan_string(s: &[u8], from: usize) -> (r: Result<(Vec<u8>, usize), PkgError>)
    requires
        from <= s@.len(),
    ensures
        match r {
            Ok(p) => from < p.1 <= s@.len() && scan_str(s@.skip(from as int)) == Some(
                (p.0@, s@.skip(p.1 as int)),
            ),
            Err(e) => e == PkgError::ParseError && scan_str(s@.skip(from as int)) is None,
        },
{
    let mut acc: Vec<u8> = Vec::new();
    let mut i: usize = from;
    loop
        invariant
            from <= i <= s@.len(),
            scan_str(s@.skip(from as int)) == (match scan_str(s@.skip(i as int)) {
                None => None::<(Seq<u8>, Seq<u8>)>,
                Some(cr) => Some((acc@ + cr.0, cr.1)),
            }),
        decreases s@.len() - i,
    {
        if i >= s.len() {
            proof {
                assert(s@.skip(i as int) =~= Seq::<u8>::empty());
            }
            return Err(PkgError::ParseError);
        }
        let ghost cur = s@.skip(i as int);
        proof {
            assert(cur[0] == s@[i as int]);
        }
        let b = s[i];
        if b == QUOTE {
            proof {
                assert(cur.drop_first() =~= s@.skip(i + 1));
                assert(acc@ + Seq::<u8>::empty() =~= acc@);
            }
            return Ok((acc, i + 1));
        } else if b == BACKSLASH {
            if i + 1 >= s.len() {
                proof {
                    assert(cur.len() < 2);
                }
                return Err(PkgError::ParseError);
            }
            proof {
                assert(cur.len() >= 2);
                assert(cur[1] == s@[i + 1]);
                assert(cur.skip(2) =~= s@.skip(i + 2));
            }
            let c = s[i + 1];
            let u: u8;
            if c == BACKSLASH {
                u = BACKSLASH;
            } else if c == QUOTE {
                u = QUOTE;
            } else if c == LET_N {
                u = NL;
            } else if c == LET_R {
                u = CR;
            } else if c == LET_T {
                u = TAB;
            } else {
                return Err(PkgError::ParseError);
            }
            proof {
                assert(un_byte(s@[i + 1]) == Some(u));
                let nxt = scan_str(s@.skip(i + 2));
                match nxt {
                    None => {},
                    Some(cr) => {
                        assert(acc@ + (seq![u] + cr.0) =~= acc@.push(u) + cr.0);
                    },
                }
            }
            acc.push(u);
            i = i + 2;
        } else {
            proof {
                assert(cur.drop_first() =~= s@.skip(i + 1));
                let nxt = scan_str(s@.skip(i + 1));
                match nxt {
                    None => {},
                    Some(cr) => {
                        assert(acc@ + (seq![b] + cr.0) =~= acc@.push(b) + cr.0);
                    },
                }
            }
            acc.push(b);
            i = i + 1;
        }
    }
}

/// `{"packages":{` — the document head.
pub open spec fn lit_head() -> Seq<u8> {
    seq![LBRACE, QUOTE, 112, 97, 99, 107, 97, 103, 101, 115, QUOTE, 58, LBRACE]
}

/// `:{"version":"` — between a record's name and its version value.
pub open spec fn lit_ver() -> Seq<u8> {
    seq![58, LBRACE, QUOTE, 118, 101, 114, 115, 105, 111, 110, QUOTE, 58, QUOTE]
}

/// `,"manifest":"` — between a record's version and its manifest value.
pub open spec fn lit_man() -> Seq<u8> {
    seq![COMMA, QUOTE, 109, 97, 110, 105, 102, 101, 115, 116, QUOTE, 58, QUOTE]
}

fn lit_head_v() -> (v: Vec<u8>)
    ensures
        v@ == lit_head(),
{
    let mut v: Vec<u8> = Vec::new();
    v.push(LBRACE);
    v.push(QUOTE);
    v.push(112);
    v.push(97);
    v.push(99);
    v.push(107);
    v.push(97);
    v.push(103);
    v.push(101);
    v.push(115);
    v.push(QUOTE);
    v.push(58);
    v.push(LBRACE);
    proof {
        assert(v@ =~= lit_head());
    }
    v
}

fn lit_ver_v() -> (v: Vec<u8>)
    ensures
        v@ == lit_ver(),
{
    let mut v: Vec<u8> = Vec::new();
    v.push(58);
    v.push(LBRACE);
    v.push(QUOTE);
    v.push(118);
    v.push(101);
    v.push(114);
    v.push(115);
    v.push(105);
    v.push(111);
    v.push(110);
    v.push(QUOTE);
    v.push(58);
    v.push(QUOTE);
    proof {
        assert(v@ =~= lit_ver());
    }
    v
}

fn lit_man_v() -> (v: Vec<u8>)
    ensures
        v@ == lit_man(),
{
    let mut v: Vec<u8> = Vec::new();
    v.push(COMMA);
    v.push(QUOTE);
    v.push(109);
    v.push(97);
    v.push(110);
    v.push(105);
    v.push(102);
    v.push(101);
    v.push(115);
    v.push(116);
    v.push(QUOTE);
    v.push(58);
    v.push(QUOTE);
    proof {
        assert(v@ =~= lit_man());
    }
    v
}

/// How one record is written.
pub open spec fn ser_rec(r: Rec) -> Seq<u8> {
    seq![QUOTE] + esc(r.name) + seq![QUOTE] + lit_ver() + esc(r.version) + seq![QUOTE] + lit_man()
        + esc(r.raw_manifest) + seq![QUOTE, RBRACE]
}

/// How the records are written, comma-separated.
pub open spec fn ser_recs(rs: Seq<Rec>) -> Seq<u8>
    decreases rs.len(),
{
    if rs.len() == 0 {
        Seq::empty()
    } else if rs.len() == 1 {
        ser_rec(rs[0])
    } else {
        ser_rec(rs[0]) + seq![COMMA] + ser_recs(rs.drop_first())
    }
}

/// How the whole database document is written.
pub open spec fn ser_db(rs: Seq<Rec>) -> Seq<u8> {
    lit_head() + ser_recs(rs) + seq![RBRACE, RBRACE]
}

/// Whether `w` is a prefix of `s`.
pub open spec fn has_prefix(s: Seq<u8>, w: Seq<u8>) -> bool {
    w.len() <= s.len() && s.take(w.len() as int) == w
}

/// Reads one record: `"name":{"version":"v","manifest":"m"}`.
pub open spec fn p_rec(s: Seq<u8>) -> Option<(Rec, Seq<u8>)> {
    if s.len() == 0 || s[0] != QUOTE {
        None
    } else {
        match scan_str(s.drop_first()) {
            None => None,
            Some(nm) => if !has_prefix(nm.1, lit_ver()) {
                None
            } else {
                match scan_str(nm.1.skip(13)) {
                    None => None,
                    Some(vr) => if !has_prefix(vr.1, lit_man()) {
                        None
                    } else {
                        match scan_str(vr.1.skip(13)) {
                            None => None,
                            Some(mf) => if mf.1.len() > 0 && mf.1[0] == RBRACE {
                                Some(
                                    (
                                        Rec { name: nm.0, version: vr.0, raw_manifest: mf.0 },
                                        mf.1.drop_first(),
                                    ),
                                )
                            } else {
                                None
                            },
                        }
                    },
                }
            },
        }
    }
}

/// Reads records until the `}` that closes the `packages` object,
/// consuming it; yields the records read so far (after `acc`) and what
/// follows that `}`.
pub open spec fn p_recs(s: Seq<u8>, acc: Seq<Rec>) -> Option<(Seq<Rec>, Seq<u8>)>
    decreases s.len(),
{
    match p_rec(s) {
        None => None,
        Some(rr) => if rr.1.len() == 0 {
            None
        } else if rr.1[0] == COMMA {
            if rr.1.len() < s.len() {
                p_recs(rr.1.skip(1), acc.push(rr.0))
            } else {
                None
            }
        } else if rr.1[0] == RBRACE {
            Some((acc.push(rr.0), rr.1.drop_first()))
        } else {
            None
        },
    }
}

/// Reads the whole database document.
pub open spec fn spec_parse_db(s: Seq<u8>) -> Option<Seq<Rec>> {
    if !has_prefix(s, lit_head()) {
        None
    } else {
        let t = s.skip(13);
        if t.len() > 0 && t[0] == RBRACE {
            if t == seq![RBRACE, RBRACE] {
                Some(Seq::empty())
            } else {
                None
            }
        } else {
            match p_recs(t, Seq::empty()) {
                None => None,
                Some(rr) => if rr.1 == seq![RBRACE] {
                    Some(rr.0)
                } else {
                    None
                },
            }
        }
    }
}

/// What loading a database file's contents yields: the record sequence,
/// or `ParseError` when the document is malformed or breaks the database
/// invariant.
pub open spec fn spec_load(s: Seq<u8>) -> Result<Seq<Rec>, PkgError> {
    match spec_parse_db(s) {
        None => Err(PkgError::ParseError),
        Some(rs) => if wf_recs(rs) {
            Ok(rs)
        } else {
            Err(PkgError::ParseError)
        },
    }
}

/// Writing one record and reading it back gives the record, whatever
/// follows it.
pub proof fn lemma_p_rec_ser(r: Rec, rest: Seq<u8>)
    ensures
        p_rec(ser_rec(r) + rest) == Some((r, rest)),
{
    let s = ser_rec(r) + rest;
    assert(s[0] == QUOTE);
    let s1 = lit_ver() + esc(r.version) + seq![QUOTE] + lit_man() + esc(r.raw_manifest) + seq![
        QUOTE,
        RBRACE,
    ] + rest;
    assert(s.drop_first() =~= esc(r.name) + seq![QUOTE] + s1);
    lemma_scan_esc(r.name, s1);
    assert(scan_str(s.drop_first()) == Some((r.name, s1)));
    assert(s1.take(13) =~= lit_ver());
    let s2 = lit_man() + esc(r.raw_manifest) + seq![QUOTE, RBRACE] + rest;
    assert(s1.skip(13) =~= esc(r.version) + seq![QUOTE] + s2);
    lemma_scan_esc(r.version, s2);
    assert(s2.take(13) =~= lit_man());
    let s3 = seq![RBRACE] + rest;
    assert(s2.skip(13) =~= esc(r.raw_manifest) + seq![QUOTE] + s3);
    lemma_scan_esc(r.raw_manifest, s3);
    assert(s3[0] == RBRACE);
    assert(s3.drop_first() =~= rest);
    assert(p_rec(s) == Some((Rec { name: r.name, version: r.version, raw_manifest: r.raw_manifest }, rest)));
    assert(Rec { name: r.name, version: r.version, raw_manifest: r.raw_manifest } == r);
}

/// Writing records and reading them back gives the records, whatever
/// follows the closing `}`.
pub proof fn lemma_p_recs_ser(rs: Seq<Rec>, acc: Seq<Rec>, rest: Seq<u8>)
    requires
        rs.len() > 0,
    ensures
        p_recs(ser_recs(rs) + seq![RBRACE] + rest, acc) == Some((acc + rs, rest)),
    decreases rs.len(),
{
    let s = ser_recs(rs) + seq![RBRACE] + rest;
    if rs.len() == 1 {
        let tail = seq![RBRACE] + rest;
        assert(s =~= ser_rec(rs[0]) + tail);
        lemma_p_rec_ser(rs[0], tail);
        assert(tail[0] == RBRACE);
        assert(tail.drop_first() =~= rest);
        assert(acc.push(rs[0]) =~= acc + rs);
    } else {
        let tail = seq![COMMA] + ser_recs(rs.drop_first()) + seq![RBRACE] + rest;
        assert(s =~= ser_rec(rs[0]) + tail);
        lemma_p_rec_ser(rs[0], tail);
        assert(tail[0] == COMMA);
        assert(ser_rec(rs[0]).len() > 0);
        assert(tail.len() < s.len());
        assert(tail.skip(1) =~= ser_recs(rs.drop_first()) + seq![RBRACE] + rest);
        lemma_p_recs_ser(rs.drop_first(), acc.push(rs[0]), rest);
        assert(acc.push(rs[0]) + rs.drop_first() =~= acc + rs);
    }
}

/// The round-trip law: a written database document parses back to
/// exactly the records it was written from.
pub proof fn lemma_parse_ser_db(rs: Seq<Rec>)
    ensures
        spec_parse_db(ser_db(rs)) == Some(rs),
{
    let s = ser_db(rs);
    assert(s.take(13) =~= lit_head());
    let t = s.skip(13);
    assert(t =~= ser_recs(rs) + seq![RBRACE, RBRACE]);
    if rs.len() == 0 {
        assert(t =~= seq![RBRACE, RBRACE]);
        assert(rs =~= Seq::<Rec>::empty());
    } else {
        assert(ser_rec(rs[0])[0] == QUOTE);
        assert(t[0] == ser_rec(rs[0])[0]) by {
            if rs.len() == 1 {
                assert(ser_recs(rs) == ser_rec(rs[0]));
            }
            assert(ser_rec(rs[0]).len() > 0);
        }
        assert(t[0] != RBRACE);
        assert(t =~= ser_recs(rs) + seq![RBRACE] + seq![RBRACE]);
        lemma_p_recs_ser(rs, Seq::empty(), seq![RBRACE]);
        assert(Seq::empty() + rs =~= rs);
        assert(p_recs(t, Seq::empty()) == Some((rs, seq![RBRACE])));
    }
}

/// The round-trip law at the loading level: a document written from a
/// well-formed database always loads back as that database.
pub proof fn lemma_load_ser_db(rs: Seq<Rec>)
    requires
        wf_recs(rs),
    ensures
        spec_load(ser_db(rs)) == Ok::<Seq<Rec>, PkgError>(rs),
{
    lemma_parse_ser_db(rs);
}

/// Writing a record list grows by one written record and a comma.
pub proof fn lemma_ser_recs_snoc(rs: Seq<Rec>, r: Rec)
    requires
        rs.len() > 0,
    ensures
        ser_recs(rs.push(r)) == ser_recs(rs) + seq![COMMA] + ser_rec(r),
    decreases rs.len(),
{
    let p = rs.push(r);
    assert(p[0] == rs[0]);
    if rs.len() == 1 {
        assert(p.drop_first() =~= seq![r]);
        assert(ser_recs(seq![r]) == ser_rec(seq![r][0]));
        assert(seq![r][0] == r);
    } else {
        assert(p.drop_first() =~= rs.drop_first().push(r));
        lemma_ser_recs_snoc(rs.drop_first(), r);
        assert(ser_rec(rs[0]) + seq![COMMA] + (ser_recs(rs.drop_first()) + seq![COMMA] + ser_rec(r))
            =~= (ser_rec(rs[0]) + seq![COMMA] + ser_recs(rs.drop_first())) + seq![COMMA] + ser_rec(
            r,
        ));
    }
}

/// Appends every byte of `w` to `out`.
fn push_all(out: &mut Vec<u8>, w: &[u8])
    ensures
        final(out)@ == old(out)@ + w@,
{
    let ghost base = out@;
    let mut i: usize = 0;
    proof {
        assert(base + w@.take(0) =~= base);
    }
    while i < w.len()
        invariant
            i <= w@.len(),
            out@ == base + w@.take(i as int),
        decreases w@.len() - i,
    {
        out.push(w[i]);
        proof {
            assert(base + w@.take(i + 1) =~= (base + w@.take(i as int)).push(w@[i as int]));
        }
        i = i + 1;
    }
    proof {
        assert(w@.take(w@.len() as int) =~= w@);
    }
}

/// Appends one written record to `out`.
fn write_rec(out: &mut Vec<u8>, r: &PackageRecord)
    ensures
        final(out)@ == old(out)@ + ser_rec(r@),
{
    let ghost base = out@;
    let lv = lit_ver_v();
    let lm = lit_man_v();
    out.push(QUOTE);
    escape_into(out, r.name.as_slice());
    out.push(QUOTE);
    push_all(out, lv.as_slice());
    escape_into(out, r.version.as_slice());
    out.push(QUOTE);
    push_all(out, lm.as_slice());
    escape_into(out, r.raw_manifest.as_slice());
    out.push(QUOTE);
    out.push(RBRACE);
    proof {
        assert(out@ =~= base + ser_rec(r@));
    }
}

/// Writes the whole database document: exactly `ser_db` of the records.
pub fn serialize_db(db: &Database) -> (out: Vec<u8>)
    ensures
        out@ == ser_db(db@),
{
    let recs = db.records();
    let mut out = lit_head_v();
    if recs.len() == 0 {
        out.push(RBRACE);
        out.push(RBRACE);
        proof {
            assert(out@ =~= ser_db(db@));
        }
        return out;
    }
    write_rec(&mut out, &recs[0]);
    proof {
        assert(db@.take(1).len() == 1);
        assert(db@.take(1)[0] == db@[0]);
        assert(recs@[0]@ == db@[0]);
        assert(out@ =~= lit_head() + ser_recs(db@.take(1)));
    }
    let mut i: usize = 1;
    while i < recs.len()
        invariant
            1 <= i <= recs@.len(),
            recs@.len() == db@.len(),
            forall|k: int| 0 <= k < recs@.len() ==> (#[trigger] recs@[k])@ == db@[k],
            out@ == lit_head() + ser_recs(db@.take(i as int)),
        decreases recs@.len() - i,
    {
        out.push(COMMA);
        write_rec(&mut out, &recs[i]);
        proof {
            lemma_ser_recs_snoc(db@.take(i as int), db@[i as int]);
            assert(db@.take(i + 1) =~= db@.take(i as int).push(db@[i as int]));
            assert(out@ =~= lit_head() + (ser_recs(db@.take(i as int)) + seq![COMMA] + ser_rec(
                db@[i as int],
            )));
        }
        i = i + 1;
    }
    out.push(RBRACE);
    out.push(RBRACE);
    proof {
        assert(db@.take(db@.len() as int) =~= db@);
        assert(out@ =~= ser_db(db@));
    }
    out
}

/// The records a `PackageRecord` vector stands for.
pub open spec fn recs_view(rs: Seq<PackageRecord>) -> Seq<Rec> {
    Seq::new(rs.len(), |i: int| rs[i]@)
}

/// Reads one record starting at `from`.
fn p_rec_e(s: &[u8], from: usize) -> (r: Result<(PackageRecord, usize), PkgError>)
    requires
        from <= s@.len(),
    ensures
        match r {
            Ok(p) => from < p.1 <= s@.len() && p_rec(s@.skip(from as int)) == Some(
                (p.0@, s@.skip(p.1 as int)),
            ),
            Err(e) => e == PkgError::ParseError && p_rec(s@.skip(from as int)) is None,
        },
{
    let ghost t = s@.skip(from as int);
    if from >= s.len() || s[from] != QUOTE {
        proof {
            if from < s@.len() {
                assert(t[0] == s@[from as int]);
            }
        }
        return Err(PkgError::ParseError);
    }
    proof {
        assert(t[0] == s@[from as int]);
        assert(t.drop_first() =~= s@.skip(from + 1));
    }
    let (name, e1) = match scan_string(s, from + 1) {
        Ok(p) => p,
        Err(e) => {
            return Err(e);
        },
    };
    let lv = lit_ver_v();
    if !starts_at(s, e1, lv.as_slice()) {
        proof {
            if has_prefix(s@.skip(e1 as int), lit_ver()) {
                assert(s@.skip(e1 as int).take(13) =~= s@.subrange(e1 as int, e1 + 13));
                assert(has_at(s@, e1 as int, lit_ver()));
            }
        }
        return Err(PkgError::ParseError);
    }
    proof {
        assert(s@.skip(e1 as int).take(13) =~= s@.subrange(e1 as int, e1 + 13));
        assert(has_prefix(s@.skip(e1 as int), lit_ver()));
        assert(s@.skip(e1 as int).skip(13) =~= s@.skip(e1 + 13));
    }
    let (version, e2) = match scan_string(s, e1 + 13) {
        Ok(p) => p,
        Err(e) => {
            return Err(e);
        },
    };
    let lm = lit_man_v();
    if !starts_at(s, e2, lm.as_slice()) {
        proof {
            if has_prefix(s@.skip(e2 as int), lit_man()) {
                assert(s@.skip(e2 as int).take(13) =~= s@.subrange(e2 as int, e2 + 13));
                assert(has_at(s@, e2 as int, lit_man()));
            }
        }
        return Err(PkgError::ParseError);
    }
    proof {
        assert(s@.skip(e2 as int).take(13) =~= s@.subrange(e2 as int, e2 + 13));
        assert(has_prefix(s@.skip(e2 as int), lit_man()));
        assert(s@.skip(e2 as int).skip(13) =~= s@.skip(e2 + 13));
    }
    let (raw, e3) = match scan_string(s, e2 + 13) {
        Ok(p) => p,
        Err(e) => {
            return Err(e);
        },
    };
    let ghost mrest = s@.skip(e3 as int);
    if e3 >= s.len() || s[e3] != RBRACE {
        proof {
            if e3 < s@.len() {
                assert(mrest[0] == s@[e3 as int]);
            }
        }
        return Err(PkgError::ParseError);
    }
    proof {
        assert(mrest[0] == s@[e3 as int]);
        assert(mrest.drop_first() =~= s@.skip(e3 + 1));
    }
    let rec = PackageRecord { name, version, raw_manifest: raw };
    Ok((rec, e3 + 1))
}

/// Checks the database invariant on parsed records.
fn check_wf(recs: &Vec<PackageRecord>) -> (b: bool)
    ensures
        b == wf_recs(recs_view(recs@)),
{
    let ghost v = recs_view(recs@);
    let mut i: usize = 0;
    while i < recs.len()
        invariant
            i <= recs@.len(),
            v == recs_view(recs@),
            v.len() == recs@.len(),
            forall|x: int, y: int| 0 <= x < y < i ==> v[x].name != v[y].name,
            forall|x: int| 0 <= x < i ==> crate::database::rec_valid(#[trigger] v[x]),
        decreases recs@.len() - i,
    {
        if recs[i].name.len() == 0 || recs[i].version.len() == 0 {
            proof {
                assert(!crate::database::rec_valid(v[i as int]));
            }
            return false;
        }
        let mut j: usize = 0;
        while j < i
            invariant
                j <= i < recs@.len(),
                v == recs_view(recs@),
                v.len() == recs@.len(),
                forall|x: int| 0 <= x < j ==> v[x].name != v[i as int].name,
            decreases i - j,
        {
            if bytes_eq(recs[j].name.as_slice(), recs[i].name.as_slice()) {
                proof {
                    assert(v[j as int].name == v[i as int].name);
                }
                return false;
            }
            j = j + 1;
        }
        i = i + 1;
    }
    proof {
        assert(forall|x: int| 0 <= x < v.len() ==> crate::database::rec_valid(#[trigger] v[x]));
    }
    true
}

/// Reads a database document: exactly what `spec_load` allows, as a
/// well-formed database.
pub fn parse_db(s: &[u8]) -> (r: Result<Database, PkgError>)
    ensures
        match r {
            Ok(db) => spec_load(s@) == Ok::<Seq<Rec>, PkgError>(db@) && db.wf(),
            Err(e) => spec_load(s@) == Err::<Seq<Rec>, PkgError>(e),
        },
{
    let hv = lit_head_v();
    if !starts_at(s, 0, hv.as_slice()) {
        proof {
            if has_prefix(s@, lit_head()) {
                assert(s@.take(13) =~= s@.subrange(0, 13));
                assert(has_at(s@, 0, lit_head()));
            }
        }
        return Err(PkgError::ParseError);
    }
    proof {
        assert(s@.take(13) =~= s@.subrange(0, 13));
        assert(has_prefix(s@, lit_head()));
    }
    let ghost t = s@.skip(13);
    if 13 < s.len() && s[13] == RBRACE {
        proof {
            assert(t[0] == s@[13]);
        }
        if s.len() == 15 && s[14] == RBRACE {
            proof {
                assert(t =~= seq![RBRACE, RBRACE]);
            }
            let db = Database::new();
            proof {
                assert(db@ =~= Seq::<Rec>::empty());
            }
            return Ok(db);
        } else {
            proof {
                assert(t.len() == s@.len() - 13);
                if t == seq![RBRACE, RBRACE] {
                    assert(s@.len() == 15);
                    assert(t[1] == s@[14]);
                }
            }
            return Err(PkgError::ParseError);
        }
    }
    proof {
        if t.len() > 0 {
            assert(t[0] == s@[13]);
        }
    }
    let mut recs: Vec<PackageRecord> = Vec::new();
    let mut i: usize = 13;
    proof {
        assert(recs_view(recs@) =~= Seq::<Rec>::empty());
    }
    loop
        invariant_except_break
            p_recs(s@.skip(13), Seq::empty()) == p_recs(s@.skip(i as int), recs_view(recs@)),
        invariant
            13 <= i <= s@.len(),
            has_prefix(s@, lit_head()),
            !(13 < s@.len() && s@[13] == RBRACE),
        ensures
            spec_parse_db(s@) == Some(recs_view(recs@)),
        decreases s@.len() - i,
    {
        let (rec, end) = match p_rec_e(s, i) {
            Ok(p) => p,
            Err(e) => {
                return Err(PkgError::ParseError);
            },
        };
        let ghost rest = s@.skip(end as int);
        if end < s.len() && s[end] == COMMA {
            proof {
                assert(rest[0] == s@[end as int]);
                assert(rest.len() < s@.skip(i as int).len());
                assert(rest.skip(1) =~= s@.skip(end + 1));
                assert(recs_view(recs@.push(rec)) =~= recs_view(recs@).push(rec@));
            }
            recs.push(rec);
            i = end + 1;
        } else if end < s.len() && s[end] == RBRACE {
            proof {
                assert(rest[0] == s@[end as int]);
                assert(rest.drop_first() =~= s@.skip(end + 1));
                assert(recs_view(recs@.push(rec)) =~= recs_view(recs@).push(rec@));
            }
            recs.push(rec);
            if s.len() - end == 2 && s[end + 1] == RBRACE {
                proof {
                    assert(s@.skip(end + 1) =~= seq![RBRACE]);
                    let t0 = s@.skip(13);
                    if t0.len() > 0 {
                        assert(t0[0] == s@[13]);
                    }
                    assert(p_recs(s@.skip(13), Seq::empty()) == Some(
                        (recs_view(recs@), seq![RBRACE]),
                    ));
                }
                break;
            } else {
                proof {
                    let rem = s@.skip(end + 1);
                    if rem == seq![RBRACE] {
                        assert(rem.len() == 1);
                        assert(s@.len() == end + 2);
                        assert(rem[0] == s@[end + 1]);
                    }
                }
                return Err(PkgError::ParseError);
            }
        } else {
            proof {
                if end < s@.len() {
                    assert(rest[0] == s@[end as int]);
                } else {
                    assert(rest.len() == 0);
                }
            }
            return Err(PkgError::ParseError);
        }
    }
    if check_wf(&recs) {
        let ghost v = recs_view(recs@);
        let db = Database::from_records(recs);
        proof {
            assert(db@ =~= v);
        }
        Ok(db)
    } else {
        Err(PkgError::ParseError)
    }
}

} // verus!
