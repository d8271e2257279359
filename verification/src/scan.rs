//! Small byte-scanning helpers shared by the manifest parser and the
//! database codec: first occurrence of a byte, whitespace trimming, and
//! byte-sequence comparison, each proved against a direct specification.

use vstd::prelude::*;

verus! {

/// The byte `\n`.
pub const NL: u8 = 10;

/// The byte `"`.
pub const QUOTE: u8 = 34;

/// The byte `#`.
pub const HASH: u8 = 35;

/// The byte `,`.
pub const COMMA: u8 = 44;

/// The byte `=`.
pub const EQ_SIGN: u8 = 61;

/// The byte `[`.
pub const LBRACKET: u8 = 91;

/// The byte `\`.
pub const BACKSLASH: u8 = 92;

/// The byte `]`.
pub const RBRACKET: u8 = 93;

/// The byte `{`.
pub const LBRACE: u8 = 123;

/// The byte `}`.
pub const RBRACE: u8 = 125;

/// Horizontal whitespace (and a carriage return, so CRLF lines trim clean).
pub open spec fn is_ws(b: u8) -> bool {
    b == 32 || b == 9 || b == 13
}

/// Index of the first occurrence of `b` in `s`, or `s.len()` if absent.
pub open spec fn first_idx(s: Seq<u8>, b: u8) -> int
    decreases s.len(),
{
    if s.len() == 0 {
        0
    } else if s[0] == b {
        0
    } else {
        1 + first_idx(s.drop_first(), b)
    }
}

pub proof fn lemma_first_idx(s: Seq<u8>, b: u8)
    ensures
        0 <= first_idx(s, b) <= s.len(),
        forall|k: int| 0 <= k < first_idx(s, b) ==> s[k] != b,
        first_idx(s, b) < s.len() ==> s[first_idx(s, b)] == b,
    decreases s.len(),
{
    if s.len() > 0 && s[0] != b {
        lemma_first_idx(s.drop_first(), b);
        assert forall|k: int| 0 <= k < first_idx(s, b) implies s[k] != b by {
            if k > 0 {
                assert(s.drop_first()[k - 1] == s[k]);
            }
        }
        if first_idx(s, b) < s.len() {
            assert(s.drop_first()[first_idx(s, b) - 1] == s[first_idx(s, b)]);
        }
    }
}

/// An index before which `b` does not occur, and at which it does (or the
/// length, if `b` never occurs), is exactly `first_idx`.
pub proof fn lemma_first_idx_is(s: Seq<u8>, b: u8, e: int)
    requires
        0 <= e <= s.len(),
        forall|k: int| 0 <= k < e ==> s[k] != b,
        e < s.len() ==> s[e] == b,
    ensures
        first_idx(s, b) == e,
    decreases s.len(),
{
    if s.len() == 0 {
    } else if e == 0 {
        if s[0] != b {
            // then e == s.len() is impossible unless len == 0
            assert(e < s.len() ==> s[e] == b);
            assert(s.len() == 0);
        }
    } else {
        assert(s[0] != b);
        let t = s.drop_first();
        assert forall|k: int| 0 <= k < e - 1 implies t[k] != b by {
            assert(t[k] == s[k + 1]);
        }
        if e - 1 < t.len() {
            assert(t[e - 1] == s[e]);
        }
        lemma_first_idx_is(t, b, e - 1);
    }
}

/// First index of `b` in `s` at or after `from`; `s.len()` if absent.
pub fn find_byte(s: &[u8], from: usize, b: u8) -> (r: usize)
    requires
        from <= s@.len(),
    ensures
        from <= r <= s@.len(),
        r - from == first_idx(s@.skip(from as int), b),
{
    let mut i: usize = from;
    while i < s.len() && s[i] != b
        invariant
            from <= i <= s@.len(),
            forall|k: int| from <= k < i ==> s@[k] != b,
        decreases s@.len() - i,
    {
        i = i + 1;
    }
    proof {
        let t = s@.skip(from as int);
        assert forall|k: int| 0 <= k < i - from implies t[k] != b by {
            assert(t[k] == s@[from + k]);
        }
        if (i as int) - (from as int) < t.len() {
            assert(t[i - from] == s@[i as int]);
        }
        lemma_first_idx_is(t, b, i - from);
    }
    i
}

/// `s` with leading whitespace removed.
pub open spec fn trim_front(s: Seq<u8>) -> Seq<u8>
    decreases s.len(),
{
    if s.len() > 0 && is_ws(s[0]) {
        trim_front(s.drop_first())
    } else {
        s
    }
}

/// `s` with trailing whitespace removed.
pub open spec fn trim_back(s: Seq<u8>) -> Seq<u8>
    decreases s.len(),
{
    if s.len() > 0 && is_ws(s[s.len() - 1]) {
        trim_back(s.drop_last())
    } else {
        s
    }
}

/// `s` with whitespace removed from both ends.
pub open spec fn trimmed(s: Seq<u8>) -> Seq<u8> {
    trim_back(trim_front(s))
}

/// The sub-range `[r.0, r.1)` of `s` is `s[lo..hi]` trimmed on both ends.
pub fn trim_range(s: &[u8], lo: usize, hi: usize) -> (r: (usize, usize))
    requires
        lo <= hi <= s@.len(),
    ensures
        lo <= r.0 <= r.1 <= hi,
        s@.subrange(r.0 as int, r.1 as int) == trimmed(s@.subrange(lo as int, hi as int)),
{
    let mut i: usize = lo;
    while i < hi && is_ws_e(s[i])
        invariant
            lo <= i <= hi <= s@.len(),
            trim_front(s@.subrange(lo as int, hi as int)) == trim_front(
                s@.subrange(i as int, hi as int),
            ),
        decreases hi - i,
    {
        proof {
            let cur = s@.subrange(i as int, hi as int);
            assert(cur[0] == s@[i as int]);
            assert(cur.drop_first() =~= s@.subrange(i + 1, hi as int));
        }
        i = i + 1;
    }
    proof {
        let cur = s@.subrange(i as int, hi as int);
        if i < hi {
            assert(cur[0] == s@[i as int]);
        }
        assert(trim_front(cur) == cur);
    }
    let mut j: usize = hi;
    while j > i && is_ws_e(s[j - 1])
        invariant
            lo <= i <= j <= hi <= s@.len(),
            trim_front(s@.subrange(lo as int, hi as int)) == s@.subrange(i as int, hi as int),
            trim_back(s@.subrange(i as int, hi as int)) == trim_back(
                s@.subrange(i as int, j as int),
            ),
        decreases j,
    {
        proof {
            let cur = s@.subrange(i as int, j as int);
            assert(cur[cur.len() - 1] == s@[j - 1]);
            assert(cur.drop_last() =~= s@.subrange(i as int, j - 1));
        }
        j = j - 1;
    }
    proof {
        let cur = s@.subrange(i as int, j as int);
        if j > i {
            assert(cur[cur.len() - 1] == s@[j - 1]);
        }
        assert(trim_back(cur) == cur);
    }
    (i, j)
}

/// Executable counterpart of `is_ws`.
pub fn is_ws_e(b: u8) -> (r: bool)
    ensures
        r == is_ws(b),
{
    b == 32 || b == 9 || b == 13
}

/// Byte-for-byte equality of two slices.
pub fn bytes_eq(a: &[u8], b: &[u8]) -> (r: bool)
    ensures
        r == (a@ == b@),
{
    if a.len() != b.len() {
        return false;
    }
    let mut i: usize = 0;
    while i < a.len()
        invariant
            i <= a@.len() == b@.len(),
            forall|k: int| 0 <= k < i ==> a@[k] == b@[k],
        decreases a@.len() - i,
    {
        if a[i] != b[i] {
            return false;
        }
        i = i + 1;
    }
    proof {
        assert(a@ =~= b@);
    }
    true
}

/// Whether `w` occurs in `s` starting at position `i`.
pub open spec fn has_at(s: Seq<u8>, i: int, w: Seq<u8>) -> bool {
    0 <= i && i + w.len() <= s.len() && s.subrange(i, i + w.len()) == w
}

/// Executable test for `has_at`.
pub fn starts_at(s: &[u8], i: usize, w: &[u8]) -> (r: bool)
    requires
        i <= s@.len(),
    ensures
        r == has_at(s@, i as int, w@),
{
    if s.len() - i < w.len() {
        return false;
    }
    let sub = vstd::slice::slice_subrange(s, i, i + w.len());
    bytes_eq(sub, w)
}

} // verus!
