//! The integer part of the Wavefront OBJ mesh format: face corners.
//!
//! A face line `f v/vt/vn v/vt/vn v/vt/vn` lists, for each corner, the
//! 1-based indices of its vertex, texture coordinate and normal.
use vstd::prelude::*;
use crate::geometry::{vec3_int, Vec3};

verus! {

pub open spec fn is_digit(b: u8) -> bool {
    48 <= b <= 57
}

/// The value of a string of decimal digits.
pub open spec fn digits_value(s: Seq<u8>) -> int
    decreases s.len(),
{
    if s.len() == 0 {
        0
    } else {
        digits_value(s.drop_last()) * 10 + (s.last() - 48)
    }
}

/// The length of the sign of a decimal integer: 1 for `+` or `-`, else 0.
pub open spec fn sign_len(s: Seq<u8>) -> int {
    if s.len() > 0 && (s[0] == 43 || s[0] == 45) {
        1
    } else {
        0
    }
}

pub open spec fn all_digits(s: Seq<u8>) -> bool {
    forall|i: int| 0 <= i < s.len() ==> is_digit(#[trigger] s[i])
}

/// A decimal integer: an optional `+` or `-`, then at least one digit.
pub open spec fn spec_int(s: Seq<u8>) -> Option<int> {
    let digits = s.subrange(sign_len(s), s.len() as int);
    if digits.len() > 0 && all_digits(digits) {
        Some(
            if s[0] == 45 {
                -digits_value(digits)
            } else {
                digits_value(digits)
            },
        )
    } else {
        None
    }
}

/// The 0-based index written 1-based in `s`, where it is a decimal integer
/// whose value less one fits an `i32`.
pub open spec fn spec_index(s: Seq<u8>) -> Option<int> {
    match spec_int(s) {
        Some(n) => if i32::MIN < n <= i32::MAX {
            Some(n - 1)
        } else {
            None
        },
        None => None,
    }
}

/// `t` has slashes exactly at `i` and `j`, with `i < j`.
pub open spec fn slashes_at(t: Seq<u8>, i: int, j: int) -> bool {
    &&& 0 <= i < j < t.len()
    &&& t[i] == 47
    &&& t[j] == 47
    &&& forall|k: int| 0 <= k < t.len() && k != i && k != j ==> #[trigger] t[k] != 47
}

/// The corner `v/vt/vn` written in `t`, as 0-based indices.
pub open spec fn corner_of(t: Seq<u8>, i: int, j: int) -> Option<Vec3<int>> {
    match (
        spec_index(t.subrange(0, i)),
        spec_index(t.subrange(i + 1, j)),
        spec_index(t.subrange(j + 1, t.len() as int)),
    ) {
        (Some(a), Some(b), Some(c)) => Some(Vec3 { x: a, y: b, z: c }),
        _ => None,
    }
}

/// The corner written in `t` (see `parse_face_corner`).
pub open spec fn spec_corner(t: Seq<u8>) -> Option<Vec3<int>> {
    if exists|i: int, j: int| slashes_at(t, i, j) {
        let (i, j) = choose|i: int, j: int| slashes_at(t, i, j);
        corner_of(t, i, j)
    } else {
        None
    }
}

/// The two slashes of a corner are where they are.
proof fn lemma_slashes_unique(t: Seq<u8>, i: int, j: int, i2: int, j2: int)
    requires
        slashes_at(t, i, j),
        slashes_at(t, i2, j2),
    ensures
        i == i2 && j == j2,
{
    assert(t[i2] == 47 && t[j2] == 47);
}

proof fn lemma_digits_step(s: Seq<u8>, k: int)
    requires
        0 <= k < s.len(),
    ensures
        digits_value(s.subrange(0, k + 1)) == digits_value(s.subrange(0, k)) * 10 + (s[k] - 48),
{
    assert(s.subrange(0, k + 1).drop_last() =~= s.subrange(0, k));
}

/// The 0-based index written 1-based in `s[from..to]` (see `spec_index`).
fn parse_index(s: &[u8], from: usize, to: usize) -> (r: Option<i32>)
    requires
        from <= to <= s@.len(),
    ensures
        match spec_index(s@.subrange(from as int, to as int)) {
            Some(v) => r == Some(v as i32),
            None => r is None,
        },
{
    let ghost t = s@.subrange(from as int, to as int);
    if from == to {
        return None;
    }
    let neg = s[from] == 45;
    let start = if s[from] == 43 || s[from] == 45 {
        from + 1
    } else {
        from
    };
    assert(t[0] == s@[from as int]);
    assert(sign_len(t) == start - from);
    let ghost digits = t.subrange(sign_len(t), t.len() as int);
    assert(digits =~= s@.subrange(start as int, to as int));
    if start == to {
        return None;
    }
    let mut acc: i64 = 0;
    let mut k = start;
    while k < to
        invariant
            from < start <= to || from == start < to,
            start <= k <= to <= s@.len(),
            digits == s@.subrange(start as int, to as int),
            t == s@.subrange(from as int, to as int),
            digits == t.subrange(sign_len(t), t.len() as int),
            neg == (t[0] == 45),
            forall|i: int| start <= i < k ==> is_digit(#[trigger] s@[i]),
            acc == digits_value(s@.subrange(start as int, k as int)),
            0 <= acc <= 0x8000_0000,
        decreases to - k,
    {
        let b = s[k];
        if b < 48 || b > 57 {
            assert(!is_digit(digits[k - start]));
            return None;
        }
        proof {
            lemma_digits_step(s@.subrange(start as int, to as int), k - start);
            assert(s@.subrange(start as int, to as int).subrange(0, k - start + 1) =~= s@.subrange(
                start as int,
                k + 1,
            ));
            assert(s@.subrange(start as int, to as int).subrange(0, k - start) =~= s@.subrange(
                start as int,
                k as int,
            ));
        }
        acc = acc * 10 + (b - 48) as i64;
        k = k + 1;
        if acc > 0x8000_0000 {
            proof {
                if all_digits(digits) {
                    lemma_digits_grow(digits, k - start);
                    assert(digits.subrange(0, k - start) =~= s@.subrange(start as int, k as int));
                }
            }
            return None;
        }
    }
    assert(s@.subrange(start as int, k as int) =~= digits);
    let n: i64 = if neg {
        -acc
    } else {
        acc
    };
    if n <= i32::MIN as i64 || n > i32::MAX as i64 {
        return None;
    }
    Some((n - 1) as i32)
}

/// A longer string of digits is worth at least as much as its prefix.
proof fn lemma_digits_grow(s: Seq<u8>, k: int)
    requires
        0 <= k <= s.len(),
        forall|i: int| 0 <= i < s.len() ==> is_digit(#[trigger] s[i]),
    ensures
        digits_value(s) >= digits_value(s.subrange(0, k)),
        digits_value(s.subrange(0, k)) >= 0,
    decreases s.len(),
{
    if s.len() > 0 {
        if k == s.len() {
            assert(s.subrange(0, k) =~= s);
            lemma_digits_grow(s.drop_last(), 0);
            assert(s.drop_last().subrange(0, 0) =~= s.subrange(0, 0));
        } else {
            lemma_digits_grow(s.drop_last(), k);
            assert(s.drop_last().subrange(0, k) =~= s.subrange(0, k));
            assert(s.drop_last().subrange(0, 0) =~= s.subrange(0, 0));
            lemma_digits_grow(s.drop_last(), 0);
        }
    } else {
        assert(s.subrange(0, k) =~= s);
    }
}

/// The first slash in `t[from..]`, or the length where there is none.
fn find_slash(t: &[u8], from: usize) -> (r: usize)
    requires
        from <= t@.len(),
    ensures
        from <= r <= t@.len(),
        r < t@.len() ==> t@[r as int] == 47,
        forall|k: int| from <= k < r ==> #[trigger] t@[k] != 47,
{
    let mut k = from;
    while k < t.len()
        invariant
            from <= k <= t@.len(),
            forall|i: int| from <= i < k ==> #[trigger] t@[i] != 47,
        decreases t@.len() - k,
    {
        if t[k] == 47 {
            return k;
        }
        k = k + 1;
    }
    k
}

/// Reads a face corner `v/vt/vn` into 0-based vertex, texture-coordinate
/// and normal indices. `None` unless the token has exactly two slashes and
/// three integers around them whose values less one fit an `i32`.
pub fn parse_face_corner(tok: &[u8]) -> (r: Option<Vec3<i32>>)
    ensures
        match spec_corner(tok@) {
            Some(v) => r is Some && vec3_int(r->0) == v,
            None => r is None,
        },
{
    let i = find_slash(tok, 0);
    if i == tok.len() {
        assert forall|i2: int, j2: int| !slashes_at(tok@, i2, j2) by {
            if slashes_at(tok@, i2, j2) {
                assert(tok@[i2] == 47);
            }
        }
        return None;
    }
    let j = find_slash(tok, i + 1);
    if j == tok.len() {
        assert forall|i2: int, j2: int| !slashes_at(tok@, i2, j2) by {
            if slashes_at(tok@, i2, j2) {
                assert(tok@[i2] == 47 && tok@[j2] == 47);
            }
        }
        return None;
    }
    let k = find_slash(tok, j + 1);
    if k < tok.len() {
        assert forall|i2: int, j2: int| !slashes_at(tok@, i2, j2) by {
            if slashes_at(tok@, i2, j2) {
                assert(tok@[i2] == 47 && tok@[j2] == 47 && tok@[k as int] == 47);
            }
        }
        return None;
    }
    assert(slashes_at(tok@, i as int, j as int));
    proof {
        let (i2, j2) = choose|i2: int, j2: int| slashes_at(tok@, i2, j2);
        lemma_slashes_unique(tok@, i as int, j as int, i2, j2);
    }
    let a = parse_index(tok, 0, i);
    let b = parse_index(tok, i + 1, j);
    let c = parse_index(tok, j + 1, tok.len());
    match (a, b, c) {
        (Some(x), Some(y), Some(z)) => {
            let v = Vec3 { x, y, z };
            assert(corner_of(tok@, i as int, j as int) == Some(vec3_int(v)));
            Some(v)
        },
        _ => None,
    }
}


/// ASCII white space: space, tab, line feed, vertical tab, form feed and
/// carriage return.
pub open spec fn is_space(b: u8) -> bool {
    b == 32 || (9 <= b <= 13)
}

/// The words of `s` separated by white space, `cur` being the start of a
/// word read before `s`.
pub open spec fn words_from(s: Seq<u8>, cur: Seq<u8>) -> Seq<Seq<u8>>
    decreases s.len(),
{
    let done = if cur.len() > 0 {
        seq![cur]
    } else {
        Seq::empty()
    };
    if s.len() == 0 {
        done
    } else if is_space(s[0]) {
        done + words_from(s.drop_first(), Seq::empty())
    } else {
        words_from(s.drop_first(), cur.push(s[0]))
    }
}

/// The words of `s` separated by white space.
pub open spec fn words(s: Seq<u8>) -> Seq<Seq<u8>> {
    words_from(s, Seq::empty())
}

/// The corners of a face line: the word `f`, then one corner per word.
pub open spec fn spec_face(line: Seq<u8>) -> Option<Seq<Vec3<int>>> {
    let w = words(line);
    if w.len() >= 1 && w[0] == seq![102u8] && (forall|k: int|
        1 <= k < w.len() ==> #[trigger] spec_corner(w[k]) is Some) {
        Some(Seq::new((w.len() - 1) as nat, |k: int| spec_corner(w[k + 1])->0))
    } else {
        None
    }
}

/// The words of `s` separated by white space.
pub fn split_words(s: &[u8]) -> (r: Vec<Vec<u8>>)
    ensures
        r@.len() == words(s@).len(),
        forall|k: int| 0 <= k < r@.len() ==> #[trigger] r@[k]@ == words(s@)[k],
{
    let mut out: Vec<Vec<u8>> = Vec::new();
    let mut cur: Vec<u8> = Vec::new();
    let mut k: usize = 0;
    let ghost all = words(s@);
    assert(s@.subrange(0, s@.len() as int) =~= s@);
    while k < s.len()
        invariant
            k <= s@.len(),
            all == words(s@),
            all == out@.map_values(|v: Vec<u8>| v@) + words_from(
                s@.subrange(k as int, s@.len() as int),
                cur@,
            ),
        decreases s@.len() - k,
    {
        let ghost rest = s@.subrange(k as int, s@.len() as int);
        let ghost before = out@.map_values(|v: Vec<u8>| v@);
        let ghost c0 = cur@;
        let ghost rest2 = s@.subrange(k + 1, s@.len() as int);
        assert(rest.drop_first() =~= rest2);
        let b = s[k];
        assert(rest[0] == b);
        if b == 32 || (9 <= b && b <= 13) {
            if cur.len() > 0 {
                let word = cur;
                cur = Vec::new();
                out.push(word);
            }
            proof {
                let done = if c0.len() > 0 {
                    seq![c0]
                } else {
                    Seq::<Seq<u8>>::empty()
                };
                let now = out@.map_values(|v: Vec<u8>| v@);
                assert(words_from(rest, c0) == done + words_from(rest2, Seq::empty()));
                assert(now =~= before + done);
                assert(cur@ =~= Seq::<u8>::empty());
                assert(before + (done + words_from(rest2, Seq::empty())) =~= now + words_from(
                    rest2,
                    cur@,
                ));
            }
        } else {
            cur.push(b);
            proof {
                assert(words_from(rest, c0) == words_from(rest2, c0.push(b)));
                assert(out@.map_values(|v: Vec<u8>| v@) =~= before);
            }
        }
        k = k + 1;
    }
    if cur.len() > 0 {
        out.push(cur);
    }
    proof {
        assert(s@.subrange(k as int, s@.len() as int) =~= Seq::<u8>::empty());
        assert(out@.map_values(|v: Vec<u8>| v@) =~= all);
    }
    out
}


/// Reads a face line `f v/vt/vn v/vt/vn ...` (words separated by white
/// space) into its corners, as 0-based indices. `None` unless the first
/// word is `f` and every other word is a corner (see `parse_face_corner`).
pub fn parse_face_line(line: &[u8]) -> (r: Option<Vec<Vec3<i32>>>)
    ensures
        match spec_face(line@) {
            Some(cs) => r is Some && r->0@.len() == cs.len() && forall|k: int|
                0 <= k < cs.len() ==> vec3_int(#[trigger] r->0@[k]) == cs[k],
            None => r is None,
        },
{
    let w = split_words(line);
    let ghost ws = words(line@);
    if w.len() == 0 || w[0].len() != 1 || w[0][0] != 102 {
        proof {
            if ws.len() >= 1 && ws[0] == seq![102u8] {
                assert(w@[0]@ == ws[0]);
            }
        }
        return None;
    }
    assert(w@[0]@ =~= seq![102u8]);
    let mut corners: Vec<Vec3<i32>> = Vec::new();
    let mut k: usize = 1;
    while k < w.len()
        invariant
            1 <= k <= w@.len(),
            ws == words(line@),
            w@.len() == ws.len(),
            forall|m: int| 0 <= m < w@.len() ==> #[trigger] w@[m]@ == ws[m],
            corners@.len() == k - 1,
            forall|m: int| 1 <= m < k ==> spec_corner(#[trigger] ws[m]) is Some,
            forall|m: int|
                0 <= m < k - 1 ==> vec3_int(#[trigger] corners@[m]) == spec_corner(ws[m + 1])->0,
        decreases w@.len() - k,
    {
        assert(w@[k as int]@ == ws[k as int]);
        match parse_face_corner(w[k].as_slice()) {
            Some(c) => {
                corners.push(c);
            },
            None => {
                return None;
            },
        }
        k = k + 1;
    }
    proof {
        let cs = Seq::new((ws.len() - 1) as nat, |m: int| spec_corner(ws[m + 1])->0);
        assert forall|m: int| 0 <= m < cs.len() implies vec3_int(#[trigger] corners@[m]) == cs[m] by {
            assert(vec3_int(corners@[m]) == spec_corner(ws[m + 1])->0);
        }
    }
    Some(corners)
}


/// The kind of an OBJ line.
#[derive(Debug, Clone, Copy, PartialEq, Eq)]
pub enum ObjLine {
    /// `v x y z`: a vertex position.
    Vertex,
    /// `vt u v`: a texture coordinate.
    TexCoord,
    /// `vn x y z`: a normal.
    Normal,
    /// `f ...`: a face.
    Face,
    /// A comment (any line holding `#`), a blank line or another record.
    Other,
}

/// The kind of a line: `Other` where it holds `#`, else given by its first word.
pub open spec fn spec_line_kind(line: Seq<u8>) -> ObjLine {
    let w = words(line);
    if exists|i: int| 0 <= i < line.len() && line[i] == 35 {
        ObjLine::Other
    } else if w.len() == 0 {
        ObjLine::Other
    } else if w[0] == seq![118u8] {
        ObjLine::Vertex
    } else if w[0] == seq![118u8, 116u8] {
        ObjLine::TexCoord
    } else if w[0] == seq![118u8, 110u8] {
        ObjLine::Normal
    } else if w[0] == seq![102u8] {
        ObjLine::Face
    } else {
        ObjLine::Other
    }
}

/// Whether the word `w` is the bytes `s`.
fn word_is(w: &Vec<u8>, s: &[u8]) -> (r: bool)
    ensures
        r == (w@ == s@),
{
    if w.len() != s.len() {
        return false;
    }
    let mut i: usize = 0;
    while i < w.len()
        invariant
            i <= w@.len() == s@.len(),
            forall|k: int| 0 <= k < i ==> w@[k] == s@[k],
        decreases w@.len() - i,
    {
        if w[i] != s[i] {
            return false;
        }
        i = i + 1;
    }
    assert(w@ =~= s@);
    true
}

/// The kind of an OBJ line (see `spec_line_kind`).
pub fn classify_line(line: &[u8]) -> (r: ObjLine)
    ensures
        r == spec_line_kind(line@),
{
    let mut i: usize = 0;
    while i < line.len()
        invariant
            i <= line@.len(),
            forall|k: int| 0 <= k < i ==> line@[k] != 35,
        decreases line@.len() - i,
    {
        if line[i] == 35 {
            return ObjLine::Other;
        }
        i = i + 1;
    }
    let w = split_words(line);
    if w.len() == 0 {
        return ObjLine::Other;
    }
    let first = &w[0];
    let v: [u8; 1] = [118];
    let vt: [u8; 2] = [118, 116];
    let vn: [u8; 2] = [118, 110];
    let f: [u8; 1] = [102];
    assert(v@ =~= seq![118u8]);
    assert(vt@ =~= seq![118u8, 116u8]);
    assert(vn@ =~= seq![118u8, 110u8]);
    assert(f@ =~= seq![102u8]);
    if word_is(first, &v) {
        ObjLine::Vertex
    } else if word_is(first, &vt) {
        ObjLine::TexCoord
    } else if word_is(first, &vn) {
        ObjLine::Normal
    } else if word_is(first, &f) {
        ObjLine::Face
    } else {
        ObjLine::Other
    }
}

} // verus!
