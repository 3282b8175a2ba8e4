//! The wire-format codec for the protocol's JSON payloads: the
//! upload bundle manifest, file-name lists, single integer fields,
//! and the typed responses the server sends back.
//!
//! The grammar covered is the subset these payloads use: objects,
//! arrays, strings with the single-character escapes (`\" \\ \/ \b
//! \f \n \r \t`), integers, `null` and booleans. A `\uXXXX` escape
//! is refused as malformed.

use crate::bytes::clone_bytes;
use vstd::prelude::*;

verus! {

/// JSON insignificant whitespace.
pub open spec fn is_ws(c: u8) -> bool {
    c == 0x20 || c == 0x09 || c == 0x0a || c == 0x0d
}

/// An ASCII decimal digit.
pub open spec fn is_digit(c: u8) -> bool {
    0x30 <= c && c <= 0x39
}

/// The first index at or after `i` holding a significant byte.
pub open spec fn skip_ws(s: Seq<u8>, i: int) -> int
    decreases s.len() - i,
{
    if 0 <= i < s.len() && is_ws(s[i]) {
        skip_ws(s, i + 1)
    } else {
        i
    }
}

proof fn lemma_skip_ws(s: Seq<u8>, i: int)
    requires
        0 <= i <= s.len(),
    ensures
        i <= skip_ws(s, i) <= s.len(),
    decreases s.len() - i,
{
    if i < s.len() && is_ws(s[i]) {
        lemma_skip_ws(s, i + 1);
    }
}

/// Advances past whitespace.
fn ws(s: &Vec<u8>, i: usize) -> (r: usize)
    requires
        i <= s@.len(),
    ensures
        r == skip_ws(s@, i as int),
        i <= r <= s@.len(),
    decreases s@.len() - i,
{
    proof {
        lemma_skip_ws(s@, i as int);
    }
    if i < s.len() {
        let c = s[i];
        if c == 0x20 || c == 0x09 || c == 0x0a || c == 0x0d {
            return ws(s, i + 1);
        }
    }
    i
}

/// What a single-character escape denotes.
pub open spec fn esc_byte(c: u8) -> Option<u8> {
    if c == 0x22 {
        Some(0x22u8)
    } else if c == 0x5c {
        Some(0x5cu8)
    } else if c == 0x2f {
        Some(0x2fu8)
    } else if c == 0x62 {
        Some(0x08u8)
    } else if c == 0x66 {
        Some(0x0cu8)
    } else if c == 0x6e {
        Some(0x0au8)
    } else if c == 0x72 {
        Some(0x0du8)
    } else if c == 0x74 {
        Some(0x09u8)
    } else {
        None
    }
}

fn esc_byte_exec(c: u8) -> (r: Option<u8>)
    ensures
        r == esc_byte(c),
{
    if c == 0x22 {
        Some(0x22)
    } else if c == 0x5c {
        Some(0x5c)
    } else if c == 0x2f {
        Some(0x2f)
    } else if c == 0x62 {
        Some(0x08)
    } else if c == 0x66 {
        Some(0x0c)
    } else if c == 0x6e {
        Some(0x0a)
    } else if c == 0x72 {
        Some(0x0d)
    } else if c == 0x74 {
        Some(0x09)
    } else {
        None
    }
}

/// A string body from `i` (just past the opening quote) to its
/// closing quote: the decoded bytes and the index past the quote.
pub open spec fn spec_string_body(s: Seq<u8>, i: int) -> Option<(Seq<u8>, int)>
    decreases s.len() - i,
{
    if i < 0 || i >= s.len() {
        None
    } else if s[i] == 0x22 {
        Some((Seq::empty(), i + 1))
    } else if s[i] == 0x5c {
        if i + 1 < s.len() {
            match esc_byte(s[i + 1]) {
                Some(b) => match spec_string_body(s, i + 2) {
                    Some(p) => Some((seq![b] + p.0, p.1)),
                    None => None,
                },
                None => None,
            }
        } else {
            None
        }
    } else {
        match spec_string_body(s, i + 1) {
            Some(p) => Some((seq![s[i]] + p.0, p.1)),
            None => None,
        }
    }
}

/// Prepends one byte.
pub(crate) fn push_front(b: u8, t: Vec<u8>) -> (r: Vec<u8>)
    ensures
        r@ == seq![b] + t@,
{
    let mut out: Vec<u8> = Vec::new();
    out.push(b);
    let mut k: usize = 0;
    while k < t.len()
        invariant
            k <= t@.len(),
            out@ == seq![b] + t@.take(k as int),
        decreases t@.len() - k,
    {
        out.push(t[k]);
        proof {
            assert(out@ =~= seq![b] + t@.take(k + 1));
        }
        k = k + 1;
    }
    proof {
        assert(t@.take(t@.len() as int) =~= t@);
    }
    out
}

/// Decodes a string body starting just past its opening quote.
fn string_body(s: &Vec<u8>, i: usize) -> (r: Option<(Vec<u8>, usize)>)
    ensures
        match r {
            Some(p) => spec_string_body(s@, i as int) == Some((p.0@, p.1 as int)) && i < p.1
                <= s@.len(),
            None => spec_string_body(s@, i as int) is None,
        },
    decreases s@.len() - i,
{
    if i >= s.len() {
        return None;
    }
    let c = s[i];
    if c == 0x22 {
        let empty: Vec<u8> = Vec::new();
        proof {
            assert(empty@ =~= Seq::<u8>::empty());
        }
        return Some((empty, i + 1));
    }
    if c == 0x5c {
        if i + 1 < s.len() {
            match esc_byte_exec(s[i + 1]) {
                Some(b) => match string_body(s, i + 2) {
                    Some(p) => Some((push_front(b, p.0), p.1)),
                    None => None,
                },
                None => None,
            }
        } else {
            None
        }
    } else {
        match string_body(s, i + 1) {
            Some(p) => Some((push_front(c, p.0), p.1)),
            None => None,
        }
    }
}

/// A quoted string at `i`: whitespace is not consumed here.
pub open spec fn spec_string_at(s: Seq<u8>, i: int) -> Option<(Seq<u8>, int)> {
    if 0 <= i < s.len() && s[i] == 0x22 {
        spec_string_body(s, i + 1)
    } else {
        None
    }
}

fn string_at(s: &Vec<u8>, i: usize) -> (r: Option<(Vec<u8>, usize)>)
    ensures
        match r {
            Some(p) => spec_string_at(s@, i as int) == Some((p.0@, p.1 as int)) && i < p.1
                <= s@.len(),
            None => spec_string_at(s@, i as int) is None,
        },
{
    if i < s.len() && s[i] == 0x22 {
        string_body(s, i + 1)
    } else {
        None
    }
}

/// Unsigned digits from `i`, most significant first, onto `acc`:
/// the value and the index past the last digit. At least one digit.
pub open spec fn spec_digits(s: Seq<u8>, i: int, acc: int) -> Option<(int, int)>
    decreases s.len() - i,
{
    if 0 <= i < s.len() && is_digit(s[i]) {
        let acc2 = acc * 10 + (s[i] - 0x30);
        if i + 1 < s.len() && is_digit(s[i + 1]) {
            spec_digits(s, i + 1, acc2)
        } else {
            Some((acc2, i + 1))
        }
    } else {
        None
    }
}

proof fn lemma_digits_bounds(s: Seq<u8>, i: int, acc: int)
    requires
        spec_digits(s, i, acc) is Some,
        acc >= 0,
    ensures
        spec_digits(s, i, acc)->Some_0.0 >= acc,
        i < spec_digits(s, i, acc)->Some_0.1 <= s.len(),
    decreases s.len() - i,
{
    let acc2 = acc * 10 + (s[i] - 0x30);
    if i + 1 < s.len() && is_digit(s[i + 1]) {
        lemma_digits_bounds(s, i + 1, acc2);
    }
}

/// Reads digits, refusing values past `i64::MAX`.
fn digits(s: &Vec<u8>, i: usize, acc: i64) -> (r: Option<(i64, usize)>)
    requires
        acc >= 0,
    ensures
        match r {
            Some(p) => spec_digits(s@, i as int, acc as int) == Some((p.0 as int, p.1 as int))
                && p.0 >= 0 && i < p.1 <= s@.len(),
            None => spec_digits(s@, i as int, acc as int) is None || spec_digits(
                s@,
                i as int,
                acc as int,
            )->Some_0.0 > i64::MAX,
        },
    decreases s@.len() - i,
{
    if i >= s.len() {
        return None;
    }
    let c = s[i];
    if !(0x30 <= c && c <= 0x39) {
        return None;
    }
    let d = (c - 0x30) as i64;
    if acc > (i64::MAX - d) / 10 {
        proof {
            let acc2 = (acc as int) * 10 + d;
            assert(acc2 > i64::MAX);
            if (i as int) + 1 < s@.len() && is_digit(s@[i as int + 1]) && spec_digits(
                s@,
                i as int + 1,
                acc2,
            ) is Some {
                lemma_digits_bounds(s@, i as int + 1, acc2);
            }
        }
        return None;
    }
    let acc2 = acc * 10 + d;
    if i + 1 < s.len() {
        let c2 = s[i + 1];
        if 0x30 <= c2 && c2 <= 0x39 {
            return digits(s, i + 1, acc2);
        }
    }
    Some((acc2, i + 1))
}

/// A JSON integer at `i`: optional minus sign, then digits.
pub open spec fn spec_int_at(s: Seq<u8>, i: int) -> Option<(int, int)> {
    if 0 <= i < s.len() && s[i] == 0x2d {
        match spec_digits(s, i + 1, 0) {
            Some(p) => Some((-p.0, p.1)),
            None => None,
        }
    } else {
        spec_digits(s, i, 0)
    }
}

/// Reads an integer, refusing magnitudes past `i64::MAX`.
fn int_at(s: &Vec<u8>, i: usize) -> (r: Option<(i64, usize)>)
    ensures
        match r {
            Some(p) => spec_int_at(s@, i as int) == Some((p.0 as int, p.1 as int)) && i < p.1
                <= s@.len(),
            None => spec_int_at(s@, i as int) is None || spec_int_at(s@, i as int)->Some_0.0
                > i64::MAX || spec_int_at(s@, i as int)->Some_0.0 < -(i64::MAX as int),
        },
{
    if i < s.len() && s[i] == 0x2d {
        match digits(s, i + 1, 0) {
            Some(p) => Some((-p.0, p.1)),
            None => None,
        }
    } else {
        digits(s, i, 0)
    }
}

/// The bytes of the literal `null`.
pub open spec fn null_at(s: Seq<u8>, i: int) -> bool {
    i + 4 <= s.len() && s[i] == 0x6e && s[i + 1] == 0x75 && s[i + 2] == 0x6c && s[i + 3] == 0x6c
}

/// One manifest pair `["client_name", "entry"|null]` at `i`.
pub open spec fn spec_meta_pair(s: Seq<u8>, i: int) -> Option<((Seq<u8>, Option<Seq<u8>>), int)> {
    if 0 <= i < s.len() && s[i] == 0x5b {
        match spec_string_at(s, skip_ws(s, i + 1)) {
            Some(p1) => {
                let j2 = skip_ws(s, p1.1);
                if j2 < s.len() && s[j2] == 0x2c {
                    let j3 = skip_ws(s, j2 + 1);
                    match spec_string_at(s, j3) {
                        Some(p2) => {
                            let j4 = skip_ws(s, p2.1);
                            if j4 < s.len() && s[j4] == 0x5d {
                                Some(((p1.0, Some(p2.0)), j4 + 1))
                            } else {
                                None
                            }
                        },
                        None => {
                            if null_at(s, j3) {
                                let j4 = skip_ws(s, j3 + 4);
                                if j4 < s.len() && s[j4] == 0x5d {
                                    Some(((p1.0, None), j4 + 1))
                                } else {
                                    None
                                }
                            } else {
                                None
                            }
                        },
                    }
                } else {
                    None
                }
            },
            None => None,
        }
    } else {
        None
    }
}

fn meta_pair(s: &Vec<u8>, i: usize) -> (r: Option<((Vec<u8>, Option<Vec<u8>>), usize)>)
    requires
        i <= s@.len(),
    ensures
        match r {
            Some(p) => spec_meta_pair(s@, i as int) == Some((
                ((p.0).0@, match (p.0).1 {
                    Some(z) => Some(z@),
                    None => None,
                }),
                p.1 as int,
            )) && i < p.1 <= s@.len(),
            None => spec_meta_pair(s@, i as int) is None,
        },
{
    if !(i < s.len() && s[i] == 0x5b) {
        return None;
    }
    let j1 = ws(s, i + 1);
    let p1 = match string_at(s, j1) {
        Some(p) => p,
        None => {
            return None;
        },
    };
    let j2 = ws(s, p1.1);
    if !(j2 < s.len() && s[j2] == 0x2c) {
        return None;
    }
    let j3 = ws(s, j2 + 1);
    match string_at(s, j3) {
        Some(p2) => {
            let j4 = ws(s, p2.1);
            if j4 < s.len() && s[j4] == 0x5d {
                Some(((p1.0, Some(p2.0)), j4 + 1))
            } else {
                None
            }
        },
        None => {
            if s.len() >= 4 && j3 <= s.len() - 4 && s[j3] == 0x6e && s[j3 + 1] == 0x75 && s[j3 + 2]
                == 0x6c && s[j3 + 3] == 0x6c {
                let j4 = ws(s, j3 + 4);
                if j4 < s.len() && s[j4] == 0x5d {
                    Some(((p1.0, None), j4 + 1))
                } else {
                    None
                }
            } else {
                None
            }
        },
    }
}

/// The manifest pairs from `i` up to the closing `]`.
pub open spec fn spec_meta_items(s: Seq<u8>, i: int, first: bool, fuel: nat) -> Option<
    (Seq<(Seq<u8>, Option<Seq<u8>>)>, int),
>
    decreases fuel,
{
    if fuel == 0 {
        None
    } else {
        let j = skip_ws(s, i);
        if j < s.len() && s[j] == 0x5d {
            Some((Seq::empty(), j + 1))
        } else {
            let j2 = if first {
                j
            } else {
                if j < s.len() && s[j] == 0x2c {
                    skip_ws(s, j + 1)
                } else {
                    -1
                }
            };
            match spec_meta_pair(s, j2) {
                Some(p) => match spec_meta_items(s, p.1, false, (fuel - 1) as nat) {
                    Some(q) => Some((seq![p.0] + q.0, q.1)),
                    None => None,
                },
                None => None,
            }
        }
    }
}

/// One push extends the viewed list by the viewed pair.
proof fn lemma_meta_view_push(
    o0: Seq<(Vec<u8>, Option<Vec<u8>>)>,
    o1: Seq<(Vec<u8>, Option<Vec<u8>>)>,
    pv: (Seq<u8>, Option<Seq<u8>>),
    tv: Seq<(Seq<u8>, Option<Seq<u8>>)>,
    k: int,
)
    requires
        0 <= k < tv.len(),
        o1 == o0.push(o1.last()),
        crate::media::meta_view(o0) == seq![pv] + tv.take(k),
        crate::media::meta_view(o1).last() == tv[k],
    ensures
        crate::media::meta_view(o1) == seq![pv] + tv.take(k + 1),
{
    let lhs = crate::media::meta_view(o1);
    let rhs = seq![pv] + tv.take(k + 1);
    assert(lhs.len() == o1.len() == o0.len() + 1);
    assert(crate::media::meta_view(o0).len() == o0.len());
    assert forall|x: int| 0 <= x < lhs.len() implies lhs[x] == rhs[x] by {
        if x < o0.len() {
            assert(o1[x] == o0[x]);
            assert(lhs[x] == crate::media::meta_view(o0)[x]);
        } else {
            assert(lhs[x] == lhs.last());
        }
    }
    assert(lhs =~= rhs);
}

/// Prepends one manifest pair.
fn push_front_meta(p: (Vec<u8>, Option<Vec<u8>>), t: Vec<(Vec<u8>, Option<Vec<u8>>)>) -> (r: Vec<
    (Vec<u8>, Option<Vec<u8>>),
>)
    ensures
        crate::media::meta_view(r@) == seq![
            (p.0@, match p.1 {
                Some(z) => Some(z@),
                None => None,
            }),
        ] + crate::media::meta_view(t@),
{
    let ghost pv = (p.0@, match p.1 {
        Some(ref z) => Some::<Seq<u8>>(z@),
        None => None,
    });
    let mut out: Vec<(Vec<u8>, Option<Vec<u8>>)> = Vec::new();
    out.push(p);
    let mut k: usize = 0;
    while k < t.len()
        invariant
            k <= t@.len(),
            crate::media::meta_view(out@) == seq![pv] + crate::media::meta_view(t@).take(k as int),
        decreases t@.len() - k,
    {
        proof {
            assert(crate::media::meta_view(out@).len() == out@.len());
            assert(out@.len() == k + 1);
        }
        let name = clone_bytes(&t[k].0);
        match &t[k].1 {
            Some(zz) => {
                let c = clone_bytes(zz);
                proof {
                    assert(t@[k as int].1 is Some);
                    assert(c@ == t@[k as int].1->Some_0@);
                    assert(crate::media::meta_view(t@)[k as int] == (
                        t@[k as int].0@,
                        Some(t@[k as int].1->Some_0@),
                    ));
                }
                let ghost o0 = out@;
                out.push((name, Some(c)));
                proof {
                    lemma_meta_view_push(o0, out@, pv, crate::media::meta_view(t@), k as int);
                }
            },
            None => {
                proof {
                    assert(t@[k as int].1 is None);
                    assert(crate::media::meta_view(t@)[k as int] == (t@[k as int].0@, None::<
                        Seq<u8>,
                    >));
                }
                let ghost o0 = out@;
                out.push((name, None));
                proof {
                    lemma_meta_view_push(o0, out@, pv, crate::media::meta_view(t@), k as int);
                }
            },
        }
        k = k + 1;
    }
    proof {
        assert(crate::media::meta_view(t@).take(t@.len() as int) =~= crate::media::meta_view(t@));
    }
    out
}

fn meta_items(s: &Vec<u8>, i: usize, first: bool, fuel: usize) -> (r: Option<
    (Vec<(Vec<u8>, Option<Vec<u8>>)>, usize),
>)
    requires
        i <= s@.len(),
    ensures
        match r {
            Some(p) => spec_meta_items(s@, i as int, first, fuel as nat) == Some((
                crate::media::meta_view(p.0@),
                p.1 as int,
            )) && p.1 <= s@.len(),
            None => spec_meta_items(s@, i as int, first, fuel as nat) is None,
        },
    decreases fuel,
{
    if fuel == 0 {
        return None;
    }
    let j = ws(s, i);
    if j < s.len() && s[j] == 0x5d {
        let empty: Vec<(Vec<u8>, Option<Vec<u8>>)> = Vec::new();
        proof {
            assert(crate::media::meta_view(empty@) =~= Seq::<(Seq<u8>, Option<Seq<u8>>)>::empty());
        }
        return Some((empty, j + 1));
    }
    let j2 = if first {
        j
    } else {
        if j < s.len() && s[j] == 0x2c {
            ws(s, j + 1)
        } else {
            return None;
        }
    };
    match meta_pair(s, j2) {
        Some(p) => match meta_items(s, p.1, false, fuel - 1) {
            Some(q) => Some((push_front_meta(p.0, q.0), q.1)),
            None => None,
        },
        None => None,
    }
}

/// What the manifest payload parses to: a whole JSON array of
/// `[client_name, entry_name|null]` pairs, nothing trailing.
pub open spec fn spec_parse_meta(s: Seq<u8>) -> Option<Seq<(Seq<u8>, Option<Seq<u8>>)>> {
    let j = skip_ws(s, 0);
    if j < s.len() && s[j] == 0x5b {
        match spec_meta_items(s, j + 1, true, s.len() + 1) {
            Some(p) => if skip_ws(s, p.1) == s.len() {
                Some(p.0)
            } else {
                None
            },
            None => None,
        }
    } else {
        None
    }
}

/// Parses an upload bundle's manifest.
pub fn parse_media_meta(s: &Vec<u8>) -> (r: Option<Vec<(Vec<u8>, Option<Vec<u8>>)>>)
    requires
        s@.len() < usize::MAX,
    ensures
        match r {
            Some(v) => spec_parse_meta(s@) == Some(crate::media::meta_view(v@)),
            None => spec_parse_meta(s@) is None,
        },
{
    let j = ws(s, 0);
    if !(j < s.len() && s[j] == 0x5b) {
        return None;
    }
    match meta_items(s, j + 1, true, s.len() + 1) {
        Some(p) => {
            if ws(s, p.1) == s.len() {
                Some(p.0)
            } else {
                None
            }
        },
        None => None,
    }
}

/// The views of a list of byte strings.
pub open spec fn names_view(s: Seq<Vec<u8>>) -> Seq<Seq<u8>> {
    s.map_values(|n: Vec<u8>| n@)
}

/// One push extends the viewed name list by the pushed name's view.
pub(crate) proof fn lemma_names_view_push2(o0: Seq<Vec<u8>>, o1: Seq<Vec<u8>>)
    requires
        o1 == o0.push(o1.last()),
    ensures
        names_view(o1) == names_view(o0).push(o1.last()@),
{
    assert(names_view(o1).len() == o1.len());
    assert(names_view(o0).len() == o0.len());
    let rhs = names_view(o0).push(o1.last()@);
    assert forall|x: int| 0 <= x < names_view(o1).len() implies names_view(o1)[x] == rhs[x] by {
        if x < o0.len() {
            assert(o1[x] == o0[x]);
            assert(names_view(o1)[x] == names_view(o0)[x]);
        }
    }
    assert(names_view(o1) =~= rhs);
}

/// One push extends the viewed name list by the viewed name.
proof fn lemma_names_view_push(
    o0: Seq<Vec<u8>>,
    o1: Seq<Vec<u8>>,
    pv: Seq<u8>,
    tv: Seq<Seq<u8>>,
    k: int,
)
    requires
        0 <= k < tv.len(),
        o1 == o0.push(o1.last()),
        names_view(o0) == seq![pv] + tv.take(k),
        names_view(o1).last() == tv[k],
    ensures
        names_view(o1) == seq![pv] + tv.take(k + 1),
{
    let lhs = names_view(o1);
    let rhs = seq![pv] + tv.take(k + 1);
    assert(lhs.len() == o1.len() == o0.len() + 1);
    assert(names_view(o0).len() == o0.len());
    assert forall|x: int| 0 <= x < lhs.len() implies lhs[x] == rhs[x] by {
        if x < o0.len() {
            assert(o1[x] == o0[x]);
            assert(lhs[x] == names_view(o0)[x]);
        } else {
            assert(lhs[x] == lhs.last());
        }
    }
    assert(lhs =~= rhs);
}

/// Prepends one name.
fn push_front_name(p: Vec<u8>, t: Vec<Vec<u8>>) -> (r: Vec<Vec<u8>>)
    ensures
        names_view(r@) == seq![p@] + names_view(t@),
{
    let ghost pv = p@;
    let mut out: Vec<Vec<u8>> = Vec::new();
    out.push(p);
    let mut k: usize = 0;
    while k < t.len()
        invariant
            k <= t@.len(),
            names_view(out@) == seq![pv] + names_view(t@).take(k as int),
        decreases t@.len() - k,
    {
        proof {
            assert(names_view(out@).len() == out@.len());
        }
        let name = clone_bytes(&t[k]);
        let ghost o0 = out@;
        out.push(name);
        proof {
            lemma_names_view_push(o0, out@, pv, names_view(t@), k as int);
        }
        k = k + 1;
    }
    proof {
        assert(names_view(t@).take(t@.len() as int) =~= names_view(t@));
    }
    out
}

/// The string items from `i` up to the closing `]`.
pub open spec fn spec_string_items(s: Seq<u8>, i: int, first: bool, fuel: nat) -> Option<
    (Seq<Seq<u8>>, int),
>
    decreases fuel,
{
    if fuel == 0 {
        None
    } else {
        let j = skip_ws(s, i);
        if j < s.len() && s[j] == 0x5d {
            Some((Seq::empty(), j + 1))
        } else {
            let j2 = if first {
                j
            } else {
                if j < s.len() && s[j] == 0x2c {
                    skip_ws(s, j + 1)
                } else {
                    -1
                }
            };
            match spec_string_at(s, j2) {
                Some(p) => match spec_string_items(s, p.1, false, (fuel - 1) as nat) {
                    Some(q) => Some((seq![p.0] + q.0, q.1)),
                    None => None,
                },
                None => None,
            }
        }
    }
}

fn string_items(s: &Vec<u8>, i: usize, first: bool, fuel: usize) -> (r: Option<
    (Vec<Vec<u8>>, usize),
>)
    requires
        i <= s@.len(),
    ensures
        match r {
            Some(p) => spec_string_items(s@, i as int, first, fuel as nat) == Some((
                names_view(p.0@),
                p.1 as int,
            )) && p.1 <= s@.len(),
            None => spec_string_items(s@, i as int, first, fuel as nat) is None,
        },
    decreases fuel,
{
    if fuel == 0 {
        return None;
    }
    let j = ws(s, i);
    if j < s.len() && s[j] == 0x5d {
        let empty: Vec<Vec<u8>> = Vec::new();
        proof {
            assert(names_view(empty@) =~= Seq::<Seq<u8>>::empty());
        }
        return Some((empty, j + 1));
    }
    let j2 = if first {
        j
    } else {
        if j < s.len() && s[j] == 0x2c {
            ws(s, j + 1)
        } else {
            return None;
        }
    };
    match string_at(s, j2) {
        Some(p) => match string_items(s, p.1, false, fuel - 1) {
            Some(q) => Some((push_front_name(p.0, q.0), q.1)),
            None => None,
        },
        None => None,
    }
}

/// The bytes of the key `files`.
pub open spec fn files_key() -> Seq<u8> {
    seq![0x66u8, 0x69u8, 0x6cu8, 0x65u8, 0x73u8]
}

/// What a download request parses to: a whole JSON object
/// `{"files": [names...]}`, nothing trailing.
pub open spec fn spec_parse_files(s: Seq<u8>) -> Option<Seq<Seq<u8>>> {
    let j = skip_ws(s, 0);
    if j < s.len() && s[j] == 0x7b {
        match spec_string_at(s, skip_ws(s, j + 1)) {
            Some(p) => if p.0 == files_key() {
                let j2 = skip_ws(s, p.1);
                if j2 < s.len() && s[j2] == 0x3a {
                    let j3 = skip_ws(s, j2 + 1);
                    if j3 < s.len() && s[j3] == 0x5b {
                        match spec_string_items(s, j3 + 1, true, s.len() + 1) {
                            Some(q) => {
                                let j4 = skip_ws(s, q.1);
                                if j4 < s.len() && s[j4] == 0x7d && skip_ws(s, j4 + 1) == s.len() {
                                    Some(q.0)
                                } else {
                                    None
                                }
                            },
                            None => None,
                        }
                    } else {
                        None
                    }
                } else {
                    None
                }
            } else {
                None
            },
            None => None,
        }
    } else {
        None
    }
}

/// Whether `v` is exactly the key `files`.
fn is_files_key(v: &Vec<u8>) -> (r: bool)
    ensures
        r == (v@ == files_key()),
{
    let r = v.len() == 5 && v[0] == 0x66 && v[1] == 0x69 && v[2] == 0x6c && v[3] == 0x65 && v[4]
        == 0x73;
    proof {
        let m = files_key();
        assert(m.len() == 5 && m[0] == 0x66 && m[1] == 0x69 && m[2] == 0x6c && m[3] == 0x65 && m[4]
            == 0x73);
        if v@.len() == 5 && v@[0] == 0x66 && v@[1] == 0x69 && v@[2] == 0x6c && v@[3] == 0x65
            && v@[4] == 0x73 {
            assert(v@ =~= m);
        }
    }
    r
}

/// Parses a download request's file-name list.
pub fn parse_files_list(s: &Vec<u8>) -> (r: Option<Vec<Vec<u8>>>)
    requires
        s@.len() < usize::MAX,
    ensures
        match r {
            Some(v) => spec_parse_files(s@) == Some(names_view(v@)),
            None => spec_parse_files(s@) is None,
        },
{
    let j = ws(s, 0);
    if !(j < s.len() && s[j] == 0x7b) {
        return None;
    }
    let j1 = ws(s, j + 1);
    let p = match string_at(s, j1) {
        Some(p) => p,
        None => {
            return None;
        },
    };
    if !is_files_key(&p.0) {
        return None;
    }
    let j2 = ws(s, p.1);
    if !(j2 < s.len() && s[j2] == 0x3a) {
        return None;
    }
    let j3 = ws(s, j2 + 1);
    if !(j3 < s.len() && s[j3] == 0x5b) {
        return None;
    }
    match string_items(s, j3 + 1, true, s.len() + 1) {
        Some(q) => {
            let j4 = ws(s, q.1);
            if j4 < s.len() && s[j4] == 0x7d {
                if ws(s, j4 + 1) == s.len() {
                    Some(q.0)
                } else {
                    None
                }
            } else {
                None
            }
        },
        None => None,
    }
}

/// What a single-integer-field payload `{"<key>": n}` parses to,
/// nothing trailing.
pub open spec fn spec_parse_int_field(s: Seq<u8>, key: Seq<u8>) -> Option<int> {
    let j = skip_ws(s, 0);
    if j < s.len() && s[j] == 0x7b {
        match spec_string_at(s, skip_ws(s, j + 1)) {
            Some(p) => if p.0 == key {
                let j2 = skip_ws(s, p.1);
                if j2 < s.len() && s[j2] == 0x3a {
                    match spec_int_at(s, skip_ws(s, j2 + 1)) {
                        Some(q) => {
                            let j3 = skip_ws(s, q.1);
                            if j3 < s.len() && s[j3] == 0x7d && skip_ws(s, j3 + 1) == s.len() {
                                Some(q.0)
                            } else {
                                None
                            }
                        },
                        None => None,
                    }
                } else {
                    None
                }
            } else {
                None
            },
            None => None,
        }
    } else {
        None
    }
}

/// Parses a `{"<key>": n}` payload; magnitudes past `i64::MAX` are
/// refused.
pub fn parse_int_field(s: &Vec<u8>, key: &Vec<u8>) -> (r: Option<i64>)
    ensures
        match r {
            Some(v) => spec_parse_int_field(s@, key@) == Some(v as int),
            None => spec_parse_int_field(s@, key@) is None || spec_parse_int_field(s@, key@)->Some_0
                > i64::MAX || spec_parse_int_field(s@, key@)->Some_0 < -(i64::MAX as int),
        },
{
    let j = ws(s, 0);
    if !(j < s.len() && s[j] == 0x7b) {
        return None;
    }
    let j1 = ws(s, j + 1);
    let p = match string_at(s, j1) {
        Some(p) => p,
        None => {
            return None;
        },
    };
    if !crate::bytes::bytes_eq(&p.0, key) {
        return None;
    }
    let j2 = ws(s, p.1);
    if !(j2 < s.len() && s[j2] == 0x3a) {
        return None;
    }
    let j3 = ws(s, j2 + 1);
    match int_at(s, j3) {
        Some(q) => {
            let j4 = ws(s, q.1);
            if j4 < s.len() && s[j4] == 0x7d {
                if ws(s, j4 + 1) == s.len() {
                    Some(q.0)
                } else {
                    None
                }
            } else {
                None
            }
        },
        None => None,
    }
}

/// The bytes of the literal `true`.
pub open spec fn true_at(s: Seq<u8>, i: int) -> bool {
    i + 4 <= s.len() && s[i] == 0x74 && s[i + 1] == 0x72 && s[i + 2] == 0x75 && s[i + 3] == 0x65
}

/// The bytes of the literal `false`.
pub open spec fn false_at(s: Seq<u8>, i: int) -> bool {
    i + 5 <= s.len() && s[i] == 0x66 && s[i + 1] == 0x61 && s[i + 2] == 0x6c && s[i + 3] == 0x73
        && s[i + 4] == 0x65
}

/// The index past one JSON value at `i` (whitespace skipped first),
/// or nothing where no value stands.
pub open spec fn spec_skip_value(s: Seq<u8>, i: int, fuel: nat) -> Option<int>
    decreases fuel, 2int,
{
    if fuel == 0 {
        None
    } else {
        let j = skip_ws(s, i);
        if j >= s.len() {
            None
        } else if s[j] == 0x22 {
            match spec_string_at(s, j) {
                Some(p) => Some(p.1),
                None => None,
            }
        } else if s[j] == 0x5b {
            spec_skip_array(s, j + 1, true, (fuel - 1) as nat)
        } else if s[j] == 0x7b {
            spec_skip_object(s, j + 1, true, (fuel - 1) as nat)
        } else if null_at(s, j) || true_at(s, j) {
            Some(j + 4)
        } else if false_at(s, j) {
            Some(j + 5)
        } else {
            match spec_int_at(s, j) {
                Some(p) => Some(p.1),
                None => None,
            }
        }
    }
}

/// The index past the remaining items of an array, `]` included.
pub open spec fn spec_skip_array(s: Seq<u8>, i: int, first: bool, fuel: nat) -> Option<int>
    decreases fuel, 1int,
{
    if fuel == 0 {
        None
    } else {
        let j = skip_ws(s, i);
        if j < s.len() && s[j] == 0x5d {
            Some(j + 1)
        } else {
            let j2 = if first {
                j
            } else {
                if j < s.len() && s[j] == 0x2c {
                    j + 1
                } else {
                    -1
                }
            };
            if j2 < 0 {
                None
            } else {
                match spec_skip_value(s, j2, (fuel - 1) as nat) {
                    Some(e) => spec_skip_array(s, e, false, (fuel - 1) as nat),
                    None => None,
                }
            }
        }
    }
}

/// The index past the remaining fields of an object, `}` included.
pub open spec fn spec_skip_object(s: Seq<u8>, i: int, first: bool, fuel: nat) -> Option<int>
    decreases fuel, 1int,
{
    if fuel == 0 {
        None
    } else {
        let j = skip_ws(s, i);
        if j < s.len() && s[j] == 0x7d {
            Some(j + 1)
        } else {
            let j2 = if first {
                j
            } else {
                if j < s.len() && s[j] == 0x2c {
                    skip_ws(s, j + 1)
                } else {
                    -1
                }
            };
            match spec_string_at(s, j2) {
                Some(p) => {
                    let j3 = skip_ws(s, p.1);
                    if j3 < s.len() && s[j3] == 0x3a {
                        match spec_skip_value(s, j3 + 1, (fuel - 1) as nat) {
                            Some(e) => spec_skip_object(s, e, false, (fuel - 1) as nat),
                            None => None,
                        }
                    } else {
                        None
                    }
                },
                None => None,
            }
        }
    }
}

/// Where the value of field `key` starts (whitespace skipped) in an
/// object's field walk, with earlier fields' values skipped whole.
pub open spec fn spec_field_start(s: Seq<u8>, key: Seq<u8>, i: int, first: bool, fuel: nat) -> Option<int>
    decreases fuel,
{
    if fuel == 0 {
        None
    } else {
        let j = skip_ws(s, i);
        if j < s.len() && s[j] == 0x7d {
            None
        } else {
            let j2 = if first {
                j
            } else {
                if j < s.len() && s[j] == 0x2c {
                    skip_ws(s, j + 1)
                } else {
                    -1
                }
            };
            match spec_string_at(s, j2) {
                Some(p) => {
                    let j3 = skip_ws(s, p.1);
                    if j3 < s.len() && s[j3] == 0x3a {
                        if p.0 == key {
                            Some(skip_ws(s, j3 + 1))
                        } else {
                            match spec_skip_value(s, j3 + 1, (fuel - 1) as nat) {
                                Some(e) => spec_field_start(s, key, e, false, (fuel - 1) as nat),
                                None => None,
                            }
                        }
                    } else {
                        None
                    }
                },
                None => None,
            }
        }
    }
}

/// Where field `key`'s value starts in the object `s` holds, if the
/// body opens an object carrying that field.
pub open spec fn spec_object_field(s: Seq<u8>, key: Seq<u8>) -> Option<int> {
    let j = skip_ws(s, 0);
    if j < s.len() && s[j] == 0x7b {
        spec_field_start(s, key, j + 1, true, s.len() + 1)
    } else {
        None
    }
}

/// The end of a digit run does not depend on the accumulator.
proof fn lemma_digits_end(s: Seq<u8>, i: int, acc1: int, acc2: int)
    ensures
        spec_digits(s, i, acc1) is Some <==> spec_digits(s, i, acc2) is Some,
        spec_digits(s, i, acc1) matches Some(p1) ==> spec_digits(s, i, acc2) matches Some(p2)
            && p1.1 == p2.1,
    decreases s.len() - i,
{
    if 0 <= i < s.len() && is_digit(s[i]) {
        if i + 1 < s.len() && is_digit(s[i + 1]) {
            lemma_digits_end(s, i + 1, acc1 * 10 + (s[i] - 0x30), acc2 * 10 + (s[i] - 0x30));
        }
    }
}

/// Advances past a digit run, the value ignored.
fn skip_digits(s: &Vec<u8>, i: usize) -> (r: Option<usize>)
    requires
        i <= s@.len(),
    ensures
        match r {
            Some(e) => spec_digits(s@, i as int, 0) matches Some(p) && p.1 == e as int && e
                <= s@.len(),
            None => spec_digits(s@, i as int, 0) is None,
        },
    decreases s@.len() - i,
{
    if i >= s.len() {
        return None;
    }
    let c = s[i];
    if !(0x30 <= c && c <= 0x39) {
        return None;
    }
    if i + 1 < s.len() {
        let c2 = s[i + 1];
        if 0x30 <= c2 && c2 <= 0x39 {
            let r = skip_digits(s, i + 1);
            proof {
                lemma_digits_end(s@, i as int + 1, 0, (c - 0x30) as int);
            }
            return r;
        }
    }
    Some(i + 1)
}

fn skip_value(s: &Vec<u8>, i: usize, fuel: usize) -> (r: Option<usize>)
    requires
        i <= s@.len(),
    ensures
        match r {
            Some(e) => spec_skip_value(s@, i as int, fuel as nat) == Some(e as int) && e
                <= s@.len(),
            None => spec_skip_value(s@, i as int, fuel as nat) is None,
        },
    decreases fuel, 2int,
{
    if fuel == 0 {
        return None;
    }
    let j = ws(s, i);
    if j >= s.len() {
        return None;
    }
    let c = s[j];
    if c == 0x22 {
        match string_at(s, j) {
            Some(p) => Some(p.1),
            None => None,
        }
    } else if c == 0x5b {
        skip_array(s, j + 1, true, fuel - 1)
    } else if c == 0x7b {
        skip_object(s, j + 1, true, fuel - 1)
    } else if s.len() - j >= 4 && ((c == 0x6e && s[j + 1] == 0x75 && s[j + 2] == 0x6c && s[j + 3]
        == 0x6c) || (c == 0x74 && s[j + 1] == 0x72 && s[j + 2] == 0x75 && s[j + 3] == 0x65)) {
        Some(j + 4)
    } else if s.len() - j >= 5 && c == 0x66 && s[j + 1] == 0x61 && s[j + 2] == 0x6c && s[j + 3]
        == 0x73 && s[j + 4] == 0x65 {
        Some(j + 5)
    } else {
        proof {
            assert(!(null_at(s@, j as int) || true_at(s@, j as int)));
            assert(!false_at(s@, j as int));
        }
        if c == 0x2d {
            match skip_digits(s, j + 1) {
                Some(e) => Some(e),
                None => None,
            }
        } else {
            match skip_digits(s, j) {
                Some(e) => Some(e),
                None => None,
            }
        }
    }
}

fn skip_array(s: &Vec<u8>, i: usize, first: bool, fuel: usize) -> (r: Option<usize>)
    requires
        i <= s@.len(),
    ensures
        match r {
            Some(e) => spec_skip_array(s@, i as int, first, fuel as nat) == Some(e as int) && e
                <= s@.len(),
            None => spec_skip_array(s@, i as int, first, fuel as nat) is None,
        },
    decreases fuel, 1int,
{
    if fuel == 0 {
        return None;
    }
    let j = ws(s, i);
    if j < s.len() && s[j] == 0x5d {
        return Some(j + 1);
    }
    let j2 = if first {
        j
    } else {
        if j < s.len() && s[j] == 0x2c {
            j + 1
        } else {
            return None;
        }
    };
    match skip_value(s, j2, fuel - 1) {
        Some(e) => skip_array(s, e, false, fuel - 1),
        None => None,
    }
}

fn skip_object(s: &Vec<u8>, i: usize, first: bool, fuel: usize) -> (r: Option<usize>)
    requires
        i <= s@.len(),
    ensures
        match r {
            Some(e) => spec_skip_object(s@, i as int, first, fuel as nat) == Some(e as int) && e
                <= s@.len(),
            None => spec_skip_object(s@, i as int, first, fuel as nat) is None,
        },
    decreases fuel, 1int,
{
    if fuel == 0 {
        return None;
    }
    let j = ws(s, i);
    if j < s.len() && s[j] == 0x7d {
        return Some(j + 1);
    }
    let j2 = if first {
        j
    } else {
        if j < s.len() && s[j] == 0x2c {
            ws(s, j + 1)
        } else {
            return None;
        }
    };
    match string_at(s, j2) {
        Some(p) => {
            let j3 = ws(s, p.1);
            if j3 < s.len() && s[j3] == 0x3a {
                match skip_value(s, j3 + 1, fuel - 1) {
                    Some(e) => skip_object(s, e, false, fuel - 1),
                    None => None,
                }
            } else {
                None
            }
        },
        None => None,
    }
}

fn field_start(s: &Vec<u8>, key: &Vec<u8>, i: usize, first: bool, fuel: usize) -> (r: Option<
    usize,
>)
    requires
        i <= s@.len(),
    ensures
        match r {
            Some(v) => spec_field_start(s@, key@, i as int, first, fuel as nat) == Some(v as int)
                && v <= s@.len(),
            None => spec_field_start(s@, key@, i as int, first, fuel as nat) is None,
        },
    decreases fuel,
{
    if fuel == 0 {
        return None;
    }
    let j = ws(s, i);
    if j < s.len() && s[j] == 0x7d {
        return None;
    }
    let j2 = if first {
        j
    } else {
        if j < s.len() && s[j] == 0x2c {
            ws(s, j + 1)
        } else {
            return None;
        }
    };
    match string_at(s, j2) {
        Some(p) => {
            let j3 = ws(s, p.1);
            if j3 < s.len() && s[j3] == 0x3a {
                if crate::bytes::bytes_eq(&p.0, key) {
                    Some(ws(s, j3 + 1))
                } else {
                    match skip_value(s, j3 + 1, fuel - 1) {
                        Some(e) => field_start(s, key, e, false, fuel - 1),
                        None => None,
                    }
                }
            } else {
                None
            }
        },
        None => None,
    }
}

/// Where field `key`'s value starts in the object the body opens.
pub fn object_field(s: &Vec<u8>, key: &Vec<u8>) -> (r: Option<usize>)
    requires
        s@.len() < usize::MAX,
    ensures
        match r {
            Some(v) => spec_object_field(s@, key@) == Some(v as int) && v <= s@.len(),
            None => spec_object_field(s@, key@) is None,
        },
{
    let j = ws(s, 0);
    if j < s.len() && s[j] == 0x7b {
        field_start(s, key, j + 1, true, s.len() + 1)
    } else {
        None
    }
}

/// The integer value of field `key` in the object the body opens,
/// other fields tolerated and skipped; magnitudes past `i64::MAX`
/// are refused.
pub fn parse_field_int(s: &Vec<u8>, key: &Vec<u8>) -> (r: Option<i64>)
    requires
        s@.len() < usize::MAX,
    ensures
        match r {
            Some(v) => spec_object_field(s@, key@) matches Some(v0) && spec_int_at(s@, v0)
                matches Some(p) && p.0 == v as int,
            None => spec_object_field(s@, key@) is None || (spec_object_field(s@, key@)
                matches Some(v0) && (spec_int_at(s@, v0) is None || spec_int_at(s@, v0)->Some_0.0
                > i64::MAX || spec_int_at(s@, v0)->Some_0.0 < -(i64::MAX as int))),
        },
{
    let v0 = match object_field(s, key) {
        Some(v0) => v0,
        None => {
            return None;
        },
    };
    match int_at(s, v0) {
        Some(p) => Some(p.0),
        None => None,
    }
}

/// The boolean value of field `key` in the object the body opens,
/// other fields tolerated and skipped.
pub fn parse_field_bool(s: &Vec<u8>, key: &Vec<u8>) -> (r: Option<bool>)
    requires
        s@.len() < usize::MAX,
    ensures
        match r {
            Some(v) => spec_object_field(s@, key@) matches Some(v0) && (if v {
                true_at(s@, v0)
            } else {
                false_at(s@, v0)
            }),
            None => spec_object_field(s@, key@) is None || (spec_object_field(s@, key@)
                matches Some(v0) && !true_at(s@, v0) && !false_at(s@, v0)),
        },
{
    let v0 = match object_field(s, key) {
        Some(v0) => v0,
        None => {
            return None;
        },
    };
    if s.len() - v0 >= 4 && s[v0] == 0x74 && s[v0 + 1] == 0x72 && s[v0 + 2] == 0x75 && s[v0 + 3]
        == 0x65 {
        Some(true)
    } else if s.len() - v0 >= 5 && s[v0] == 0x66 && s[v0 + 1] == 0x61 && s[v0 + 2] == 0x6c && s[v0
        + 3] == 0x73 && s[v0 + 4] == 0x65 {
        proof {
            assert(!true_at(s@, v0 as int));
        }
        Some(false)
    } else {
        None
    }
}

/// The integer value of field `key` inside the object that field
/// `outer` holds, other fields tolerated and skipped; magnitudes
/// past `i64::MAX` are refused.
pub fn parse_subfield_int(s: &Vec<u8>, outer: &Vec<u8>, key: &Vec<u8>) -> (r: Option<i64>)
    requires
        s@.len() < usize::MAX,
    ensures
        r matches Some(v) ==> (spec_object_field(s@, outer@) matches Some(v0) && v0 < s@.len()
            && s@[v0] == 0x7b && (spec_field_start(s@, key@, v0 + 1, true, (s@.len() + 1) as nat)
            matches Some(v1) && (spec_int_at(s@, v1) matches Some(p) && p.0 == v as int))),
        r is None ==> spec_object_field(s@, outer@) is None || (spec_object_field(s@, outer@)
            matches Some(v0) && (v0 >= s@.len() || s@[v0] != 0x7b || spec_field_start(
            s@,
            key@,
            v0 + 1,
            true,
            (s@.len() + 1) as nat,
        ) is None || (spec_field_start(s@, key@, v0 + 1, true, (s@.len() + 1) as nat)
            matches Some(v1) && (spec_int_at(s@, v1) is None || spec_int_at(s@, v1)->Some_0.0
            > i64::MAX || spec_int_at(s@, v1)->Some_0.0 < -(i64::MAX as int))))),
{
    let v0 = match object_field(s, outer) {
        Some(v0) => v0,
        None => {
            return None;
        },
    };
    if !(v0 < s.len() && s[v0] == 0x7b) {
        return None;
    }
    let v1 = match field_start(s, key, v0 + 1, true, s.len() + 1) {
        Some(v1) => v1,
        None => {
            return None;
        },
    };
    match int_at(s, v1) {
        Some(p) => Some(p.0),
        None => None,
    }
}

/// The string value of field `key` in the object the body opens,
/// other fields tolerated and skipped.
pub fn parse_field_string(s: &Vec<u8>, key: &Vec<u8>) -> (r: Option<Vec<u8>>)
    requires
        s@.len() < usize::MAX,
    ensures
        match r {
            Some(v) => spec_object_field(s@, key@) matches Some(v0) && spec_string_at(s@, v0)
                matches Some(p) && p.0 == v@,
            None => spec_object_field(s@, key@) is None || (spec_object_field(s@, key@)
                matches Some(v0) && spec_string_at(s@, v0) is None),
        },
{
    let v0 = match object_field(s, key) {
        Some(v0) => v0,
        None => {
            return None;
        },
    };
    match string_at(s, v0) {
        Some(p) => Some(p.0),
        None => None,
    }
}

/// How one byte is written inside a JSON string: quote and
/// backslash escaped, control bytes as `\u00XX`, all else verbatim.
pub open spec fn esc_seq(c: u8) -> Seq<u8> {
    if c == 0x22 {
        seq![0x5cu8, 0x22u8]
    } else if c == 0x5c {
        seq![0x5cu8, 0x5cu8]
    } else if c < 0x20 {
        seq![
            0x5cu8,
            0x75u8,
            0x30u8,
            0x30u8,
            crate::keys::hex_digit((c / 16) as u8),
            crate::keys::hex_digit((c % 16) as u8),
        ]
    } else {
        seq![c]
    }
}

/// A byte string written inside JSON quotes.
pub open spec fn json_escaped(b: Seq<u8>) -> Seq<u8>
    decreases b.len(),
{
    if b.len() == 0 {
        Seq::empty()
    } else {
        json_escaped(b.drop_last()) + esc_seq(b.last())
    }
}

/// A JSON string literal for `b`.
pub open spec fn json_string(b: Seq<u8>) -> Seq<u8> {
    seq![0x22u8] + json_escaped(b) + seq![0x22u8]
}

/// A JSON integer literal.
pub open spec fn json_int(n: int) -> Seq<u8> {
    if n < 0 {
        seq![0x2du8] + crate::keys::dec_of((-n) as nat)
    } else {
        crate::keys::dec_of(n as nat)
    }
}

/// Appends `add` to `out`.
pub fn append_bytes(out: &mut Vec<u8>, add: &Vec<u8>)
    ensures
        final(out)@ == old(out)@ + add@,
{
    let ghost o0 = out@;
    let mut k: usize = 0;
    while k < add.len()
        invariant
            k <= add@.len(),
            out@ == o0 + add@.take(k as int),
        decreases add@.len() - k,
    {
        out.push(add[k]);
        proof {
            assert(out@ =~= o0 + add@.take(k + 1));
        }
        k = k + 1;
    }
    proof {
        assert(add@.take(add@.len() as int) =~= add@);
    }
}

/// Appends `b` escaped and quoted.
fn emit_json_string(out: &mut Vec<u8>, b: &Vec<u8>)
    ensures
        final(out)@ == old(out)@ + json_string(b@),
{
    let ghost o0 = out@;
    out.push(0x22);
    let ghost base = out@;
    let mut k: usize = 0;
    while k < b.len()
        invariant
            k <= b@.len(),
            out@ == base + json_escaped(b@.take(k as int)),
            base == o0 + seq![0x22u8],
        decreases b@.len() - k,
    {
        proof {
            assert(b@.take(k + 1).drop_last() =~= b@.take(k as int));
            assert(b@.take(k + 1).last() == b@[k as int]);
        }
        let c = b[k];
        let ghost pre = out@;
        if c == 0x22 {
            out.push(0x5c);
            out.push(0x22);
        } else if c == 0x5c {
            out.push(0x5c);
            out.push(0x5c);
        } else if c < 0x20 {
            out.push(0x5c);
            out.push(0x75);
            out.push(0x30);
            out.push(0x30);
            out.push(if c / 16 < 10 {
                c / 16 + 0x30
            } else {
                c / 16 + 0x57
            });
            out.push(if c % 16 < 10 {
                c % 16 + 0x30
            } else {
                c % 16 + 0x57
            });
        } else {
            out.push(c);
        }
        proof {
            assert(out@ =~= pre + esc_seq(b@[k as int]));
            assert(out@ =~= base + json_escaped(b@.take(k + 1)));
        }
        k = k + 1;
    }
    out.push(0x22);
    proof {
        assert(b@.take(b@.len() as int) =~= b@);
        assert(out@ =~= o0 + json_string(b@));
    }
}

/// Appends the decimal form of `n`.
fn emit_i64(out: &mut Vec<u8>, n: i64)
    requires
        n > i64::MIN,
    ensures
        final(out)@ == old(out)@ + json_int(n as int),
{
    let ghost o0 = out@;
    if n < 0 {
        out.push(0x2d);
        let d = crate::keys::u64_to_dec((-n) as u64);
        append_bytes(out, &d);
        proof {
            assert(out@ =~= o0 + json_int(n as int));
        }
    } else {
        let d = crate::keys::u64_to_dec(n as u64);
        append_bytes(out, &d);
    }
}

/// One media record on the wire: `[name, checksum|null, usn]`.
pub open spec fn record_json(r: crate::media::MediaRecordV) -> Seq<u8> {
    seq![0x5bu8] + json_string(r.fname) + seq![0x2cu8] + (match r.csum {
        Some(c) => json_string(c),
        None => seq![0x6eu8, 0x75u8, 0x6cu8, 0x6cu8],
    }) + seq![0x2cu8] + json_int(r.usn) + seq![0x5du8]
}

/// The record list, comma separated.
pub open spec fn records_items_json(s: Seq<crate::media::MediaRecordV>) -> Seq<u8>
    decreases s.len(),
{
    if s.len() == 0 {
        Seq::empty()
    } else if s.len() == 1 {
        record_json(s[0])
    } else {
        records_items_json(s.drop_last()) + seq![0x2cu8] + record_json(s.last())
    }
}

/// The `mediaChanges` response body:
/// `{"data": [records...], "err": ""}`.
pub open spec fn records_response_json(s: Seq<crate::media::MediaRecordV>) -> Seq<u8> {
    data_open() + seq![0x5bu8] + records_items_json(s) + seq![0x5du8] + err_close()
}

/// The bytes `{"data":`.
pub open spec fn data_open() -> Seq<u8> {
    seq![0x7bu8, 0x22u8, 0x64u8, 0x61u8, 0x74u8, 0x61u8, 0x22u8, 0x3au8]
}

/// The bytes `,"err":""}`.
pub open spec fn err_close() -> Seq<u8> {
    seq![0x2cu8, 0x22u8, 0x65u8, 0x72u8, 0x72u8, 0x22u8, 0x3au8, 0x22u8, 0x22u8, 0x7du8]
}

/// Appends `{"data":`.
fn emit_data_open(out: &mut Vec<u8>)
    ensures
        final(out)@ == old(out)@ + data_open(),
{
    let ghost o0 = out@;
    out.push(0x7b);
    out.push(0x22);
    out.push(0x64);
    out.push(0x61);
    out.push(0x74);
    out.push(0x61);
    out.push(0x22);
    out.push(0x3a);
    proof {
        assert(out@ =~= o0 + data_open());
    }
}

/// Appends `,"err":""}`.
fn emit_err_close(out: &mut Vec<u8>)
    ensures
        final(out)@ == old(out)@ + err_close(),
{
    let ghost o0 = out@;
    out.push(0x2c);
    out.push(0x22);
    out.push(0x65);
    out.push(0x72);
    out.push(0x72);
    out.push(0x22);
    out.push(0x3a);
    out.push(0x22);
    out.push(0x22);
    out.push(0x7d);
    proof {
        assert(out@ =~= o0 + err_close());
    }
}

/// Serializes the `mediaChanges` response.
pub fn emit_records_response(recs: &Vec<crate::media::MediaRecord>) -> (r: Vec<u8>)
    ensures
        r@ == records_response_json(recs@.map_values(|rec: crate::media::MediaRecord| rec@)),
{
    let ghost rv = recs@.map_values(|rec: crate::media::MediaRecord| rec@);
    let mut out: Vec<u8> = Vec::new();
    emit_data_open(&mut out);
    out.push(0x5b);
    let ghost base = out@;
    let mut k: usize = 0;
    while k < recs.len()
        invariant
            k <= recs@.len(),
            rv == recs@.map_values(|rec: crate::media::MediaRecord| rec@),
            out@ == base + records_items_json(rv.take(k as int)),
            base == Seq::<u8>::empty() + data_open() + seq![0x5bu8],
        decreases recs@.len() - k,
    {
        proof {
            assert(rv.take(k + 1).drop_last() =~= rv.take(k as int));
            assert(rv.take(k + 1).last() == rv[k as int]);
        }
        if k > 0 {
            out.push(0x2c);
        }
        let ghost pre = out@;
        out.push(0x5b);
        emit_json_string(&mut out, &recs[k].fname);
        out.push(0x2c);
        match &recs[k].csum {
            Some(c) => {
                emit_json_string(&mut out, c);
            },
            None => {
                out.push(0x6e);
                out.push(0x75);
                out.push(0x6c);
                out.push(0x6c);
            },
        }
        out.push(0x2c);
        emit_i64(&mut out, recs[k].usn as i64);
        out.push(0x5d);
        proof {
            assert(out@ =~= pre + record_json(rv[k as int]));
            assert(out@ =~= base + records_items_json(rv.take(k + 1)));
        }
        k = k + 1;
    }
    out.push(0x5d);
    emit_err_close(&mut out);
    proof {
        assert(rv.take(rv.len() as int) =~= rv);
        assert(out@ =~= records_response_json(rv));
    }
    out
}

/// The `uploadChanges` response body:
/// `{"data": [processed, last_usn], "err": ""}`.
pub open spec fn upload_response_json(processed: int, last_usn: int) -> Seq<u8> {
    data_open() + seq![0x5bu8] + json_int(processed) + seq![0x2cu8] + json_int(last_usn) + seq![
        0x5du8,
    ] + err_close()
}

/// Serializes the `uploadChanges` response.
pub fn emit_upload_response(processed: usize, last_usn: i32) -> (r: Vec<u8>)
    requires
        processed <= i64::MAX,
    ensures
        r@ == upload_response_json(processed as int, last_usn as int),
{
    let mut out: Vec<u8> = Vec::new();
    emit_data_open(&mut out);
    out.push(0x5b);
    emit_i64(&mut out, processed as i64);
    out.push(0x2c);
    emit_i64(&mut out, last_usn as i64);
    out.push(0x5d);
    emit_err_close(&mut out);
    proof {
        assert(out@ =~= upload_response_json(processed as int, last_usn as int));
    }
    out
}

/// The `hostKey` response body: `{"key": "<hex>"}`.
pub open spec fn hostkey_response_json(key: Seq<u8>) -> Seq<u8> {
    seq![0x7bu8, 0x22u8, 0x6bu8, 0x65u8, 0x79u8, 0x22u8, 0x3au8] + json_string(key) + seq![0x7du8]
}

/// Serializes the `hostKey` response.
pub fn emit_hostkey_response(key: &Vec<u8>) -> (r: Vec<u8>)
    ensures
        r@ == hostkey_response_json(key@),
{
    let mut out: Vec<u8> = Vec::new();
    out.push(0x7b);
    out.push(0x22);
    out.push(0x6b);
    out.push(0x65);
    out.push(0x79);
    out.push(0x22);
    out.push(0x3a);
    proof {
        assert(out@ =~= seq![0x7bu8, 0x22u8, 0x6bu8, 0x65u8, 0x79u8, 0x22u8, 0x3au8]);
    }
    emit_json_string(&mut out, key);
    out.push(0x7d);
    proof {
        assert(out@ =~= hostkey_response_json(key@));
    }
    out
}

/// The `mediaSanity` response body: `{"data": "OK"|"FAILED",
/// "err": ""}`.
pub open spec fn finalize_response_json(ok: bool) -> Seq<u8> {
    data_open() + (if ok {
        seq![0x22u8, 0x4fu8, 0x4bu8, 0x22u8]
    } else {
        seq![0x22u8, 0x46u8, 0x41u8, 0x49u8, 0x4cu8, 0x45u8, 0x44u8, 0x22u8]
    }) + err_close()
}

/// Serializes the `mediaSanity` response.
pub fn emit_finalize_response(ok: bool) -> (r: Vec<u8>)
    ensures
        r@ == finalize_response_json(ok),
{
    let mut out: Vec<u8> = Vec::new();
    emit_data_open(&mut out);
    let ghost mid = out@;
    if ok {
        out.push(0x22);
        out.push(0x4f);
        out.push(0x4b);
        out.push(0x22);
        proof {
            assert(out@ =~= mid + seq![0x22u8, 0x4fu8, 0x4bu8, 0x22u8]);
        }
    } else {
        out.push(0x22);
        out.push(0x46);
        out.push(0x41);
        out.push(0x49);
        out.push(0x4c);
        out.push(0x45);
        out.push(0x44);
        out.push(0x22);
        proof {
            assert(out@ =~= mid + seq![
                0x22u8,
                0x46u8,
                0x41u8,
                0x49u8,
                0x4cu8,
                0x45u8,
                0x44u8,
                0x22u8,
            ]);
        }
    }
    emit_err_close(&mut out);
    proof {
        assert(out@ =~= finalize_response_json(ok));
    }
    out
}

/// The `begin` response body:
/// `{"data": {"usn": n, "sk": "<key>"}, "err": ""}`.
pub open spec fn begin_response_json(usn: int, skey: Seq<u8>) -> Seq<u8> {
    data_open() + seq![0x7bu8, 0x22u8, 0x75u8, 0x73u8, 0x6eu8, 0x22u8, 0x3au8] + json_int(usn)
        + seq![0x2cu8, 0x22u8, 0x73u8, 0x6bu8, 0x22u8, 0x3au8] + json_string(skey) + seq![0x7du8]
        + err_close()
}

/// Serializes the `begin` response.
pub fn emit_begin_response(usn: i32, skey: &Vec<u8>) -> (r: Vec<u8>)
    ensures
        r@ == begin_response_json(usn as int, skey@),
{
    let mut out: Vec<u8> = Vec::new();
    emit_data_open(&mut out);
    let ghost m1 = out@;
    out.push(0x7b);
    out.push(0x22);
    out.push(0x75);
    out.push(0x73);
    out.push(0x6e);
    out.push(0x22);
    out.push(0x3a);
    proof {
        assert(out@ =~= m1 + seq![0x7bu8, 0x22u8, 0x75u8, 0x73u8, 0x6eu8, 0x22u8, 0x3au8]);
    }
    emit_i64(&mut out, usn as i64);
    let ghost m2 = out@;
    out.push(0x2c);
    out.push(0x22);
    out.push(0x73);
    out.push(0x6b);
    out.push(0x22);
    out.push(0x3a);
    proof {
        assert(out@ =~= m2 + seq![0x2cu8, 0x22u8, 0x73u8, 0x6bu8, 0x22u8, 0x3au8]);
    }
    emit_json_string(&mut out, skey);
    out.push(0x7d);
    emit_err_close(&mut out);
    proof {
        assert(out@ =~= begin_response_json(usn as int, skey@));
    }
    out
}

/// One download manifest pair: `"<index>": "<name>"`.
pub open spec fn meta_map_pair_json(i: int, name: Seq<u8>) -> Seq<u8> {
    json_string(crate::keys::dec_of(i as nat)) + seq![0x3au8] + json_string(name)
}

/// The download manifest pairs for the first `k` names.
pub open spec fn meta_map_items_json(names: Seq<Seq<u8>>, k: int) -> Seq<u8>
    decreases k,
{
    if k <= 0 {
        Seq::empty()
    } else if k == 1 {
        meta_map_pair_json(0, names[0])
    } else {
        meta_map_items_json(names, k - 1) + seq![0x2cu8] + meta_map_pair_json(k - 1, names[k - 1])
    }
}

/// The `_meta` entry of a download bundle: an object mapping each
/// entry's decimal index to the client file name it carries.
pub open spec fn meta_map_json(names: Seq<Seq<u8>>) -> Seq<u8> {
    seq![0x7bu8] + meta_map_items_json(names, names.len() as int) + seq![0x7du8]
}

/// Serializes a download bundle's `_meta` entry.
pub fn emit_meta_map(names: &Vec<Vec<u8>>) -> (r: Vec<u8>)
    ensures
        r@ == meta_map_json(names_view(names@)),
{
    let ghost nv = names_view(names@);
    let mut out: Vec<u8> = Vec::new();
    out.push(0x7b);
    let ghost base = out@;
    let mut k: usize = 0;
    while k < names.len()
        invariant
            k <= names@.len(),
            nv == names_view(names@),
            out@ == base + meta_map_items_json(nv, k as int),
            base == Seq::<u8>::empty().push(0x7bu8),
        decreases names@.len() - k,
    {
        if k > 0 {
            out.push(0x2c);
        }
        let ghost pre = out@;
        let idx = crate::keys::u64_to_dec(k as u64);
        emit_json_string(&mut out, &idx);
        out.push(0x3a);
        emit_json_string(&mut out, &names[k]);
        proof {
            assert(out@ =~= pre + meta_map_pair_json(k as int, nv[k as int]));
            assert(out@ =~= base + meta_map_items_json(nv, k + 1));
        }
        k = k + 1;
    }
    out.push(0x7d);
    proof {
        assert(out@ =~= meta_map_json(nv));
    }
    out
}

/// The views of a list of ids.
pub open spec fn ids_view(s: Seq<i64>) -> Seq<int> {
    s.map_values(|x: i64| x as int)
}

/// One push extends the viewed id list by the pushed id.
proof fn lemma_ids_view_push(o0: Seq<i64>, o1: Seq<i64>)
    requires
        o1 == o0.push(o1.last()),
    ensures
        ids_view(o1) == ids_view(o0).push(o1.last() as int),
{
    assert(ids_view(o1).len() == o1.len());
    assert(ids_view(o0).len() == o0.len());
    let rhs = ids_view(o0).push(o1.last() as int);
    assert forall|x: int| 0 <= x < ids_view(o1).len() implies ids_view(o1)[x] == rhs[x] by {
        if x < o0.len() {
            assert(o1[x] == o0[x]);
            assert(ids_view(o1)[x] == ids_view(o0)[x]);
        }
    }
    assert(ids_view(o1) =~= rhs);
}

/// Prepends one id.
fn push_front_id(p: i64, t: Vec<i64>) -> (r: Vec<i64>)
    ensures
        ids_view(r@) == seq![p as int] + ids_view(t@),
{
    let mut out: Vec<i64> = Vec::new();
    out.push(p);
    let mut k: usize = 0;
    while k < t.len()
        invariant
            k <= t@.len(),
            ids_view(out@) == seq![p as int] + ids_view(t@).take(k as int),
        decreases t@.len() - k,
    {
        proof {
            assert(ids_view(out@).len() == out@.len());
        }
        let ghost o0 = out@;
        out.push(t[k]);
        proof {
            lemma_ids_view_push(o0, out@);
            assert(ids_view(out@) =~= seq![p as int] + ids_view(t@).take(k + 1));
        }
        k = k + 1;
    }
    proof {
        assert(ids_view(t@).take(t@.len() as int) =~= ids_view(t@));
    }
    out
}

/// The integer items from `i` up to the closing `]`.
pub open spec fn spec_int_items(s: Seq<u8>, i: int, first: bool, fuel: nat) -> Option<
    (Seq<int>, int),
>
    decreases fuel,
{
    if fuel == 0 {
        None
    } else {
        let j = skip_ws(s, i);
        if j < s.len() && s[j] == 0x5d {
            Some((Seq::empty(), j + 1))
        } else {
            let j2 = if first {
                j
            } else {
                if j < s.len() && s[j] == 0x2c {
                    skip_ws(s, j + 1)
                } else {
                    -1
                }
            };
            match spec_int_at(s, j2) {
                Some(p) => match spec_int_items(s, p.1, false, (fuel - 1) as nat) {
                    Some(q) => Some((seq![p.0] + q.0, q.1)),
                    None => None,
                },
                None => None,
            }
        }
    }
}

fn int_items(s: &Vec<u8>, i: usize, first: bool, fuel: usize) -> (r: Option<(Vec<i64>, usize)>)
    requires
        i <= s@.len(),
    ensures
        match r {
            Some(p) => spec_int_items(s@, i as int, first, fuel as nat) == Some((
                ids_view(p.0@),
                p.1 as int,
            )) && p.1 <= s@.len(),
            None => spec_int_items(s@, i as int, first, fuel as nat) is None
                || (spec_int_items(s@, i as int, first, fuel as nat) matches Some(q)
                && exists|x: int|
                    0 <= x < q.0.len() && ((#[trigger] q.0[x]) > i64::MAX || q.0[x] < -(
                    i64::MAX as int))),
        },
    decreases fuel,
{
    if fuel == 0 {
        return None;
    }
    let j = ws(s, i);
    if j < s.len() && s[j] == 0x5d {
        let empty: Vec<i64> = Vec::new();
        proof {
            assert(ids_view(empty@) =~= Seq::<int>::empty());
        }
        return Some((empty, j + 1));
    }
    let j2 = if first {
        j
    } else {
        if j < s.len() && s[j] == 0x2c {
            ws(s, j + 1)
        } else {
            return None;
        }
    };
    match int_at(s, j2) {
        Some(p) => match int_items(s, p.1, false, fuel - 1) {
            Some(q) => Some((push_front_id(p.0, q.0), q.1)),
            None => {
                proof {
                    match spec_int_items(s@, i as int, first, fuel as nat) {
                        Some(full) => {
                            match spec_int_items(s@, p.1 as int, false, (fuel - 1) as nat) {
                                Some(rest) => {
                                    let x = choose|x: int|
                                        0 <= x < rest.0.len() && ((#[trigger] rest.0[x]) > i64::MAX
                                            || rest.0[x] < -(i64::MAX as int));
                                    assert(full.0[x + 1] == rest.0[x]);
                                },
                                None => {},
                            }
                        },
                        None => {},
                    }
                }
                None
            },
        },
        None => {
            proof {
                match spec_int_items(s@, i as int, first, fuel as nat) {
                    Some(full) => {
                        assert(full.0[0] == spec_int_at(s@, j2 as int)->Some_0.0);
                    },
                    None => {},
                }
            }
            None
        },
    }
}

/// The id list of field `key` in the object starting at `at`.
fn id_list_field_at(s: &Vec<u8>, key: &Vec<u8>, at: usize) -> (r: Option<Vec<i64>>)
    requires
        at <= s@.len(),
        s@.len() < usize::MAX,
    ensures
        r matches Some(v) ==> spec_id_list_field(s@, key@, at as int) == Some(ids_view(v@)),
        r is None ==> id_list_refused(spec_id_list_field(s@, key@, at as int)),
{
    if !(at < s.len() && s[at] == 0x7b) {
        return None;
    }
    let v0 = match field_start(s, key, at + 1, true, s.len() + 1) {
        Some(v0) => v0,
        None => {
            let empty: Vec<i64> = Vec::new();
            proof {
                assert(ids_view(empty@) =~= Seq::<int>::empty());
            }
            return Some(empty);
        },
    };
    if !(v0 < s.len() && s[v0] == 0x5b) {
        return None;
    }
    match int_items(s, v0 + 1, true, s.len() + 1) {
        Some(p) => Some(p.0),
        None => {
            proof {
                let fueln = (s@.len() + 1) as nat;
                match spec_int_items(s@, v0 as int + 1, true, fueln) {
                    Some(q) => {
                        assert(spec_id_list_field(s@, key@, at as int) == Some(q.0));
                        let l = Some(q.0);
                        assert(id_list_refused(l)) by {
                            let x = choose|x: int|
                                0 <= x < q.0.len() && ((#[trigger] q.0[x]) > i64::MAX || q.0[x]
                                    < -(i64::MAX as int));
                            assert(0 <= x < q.0.len());
                            assert(l matches Some(v) && (v[x] > i64::MAX || v[x] < -(
                            i64::MAX as int)));
                        }
                    },
                    None => {},
                }
            }
            None
        },
    }
}

/// Whether a spec-level id list cannot be handed out as machine
/// integers: it is absent-or-malformed, or an element's magnitude
/// is past `i64::MAX`.
pub open spec fn id_list_refused(o: Option<Seq<int>>) -> bool {
    match o {
        None => true,
        Some(l) => exists|x: int|
            0 <= x < l.len() && ((#[trigger] l[x]) > i64::MAX || l[x] < -(i64::MAX as int)),
    }
}

/// The bytes of the key `cards`.
pub open spec fn cards_key() -> Seq<u8> {
    seq![0x63u8, 0x61u8, 0x72u8, 0x64u8, 0x73u8]
}

/// The bytes of the key `notes`.
pub open spec fn notes_key() -> Seq<u8> {
    seq![0x6eu8, 0x6fu8, 0x74u8, 0x65u8, 0x73u8]
}

/// The bytes of the key `decks`.
pub open spec fn decks_key() -> Seq<u8> {
    seq![0x64u8, 0x65u8, 0x63u8, 0x6bu8, 0x73u8]
}

/// The id list of field `key` in the object at `at`: an absent
/// field reads as empty, a present one must be an integer array.
pub open spec fn spec_id_list_field(s: Seq<u8>, key: Seq<u8>, at: int) -> Option<Seq<int>> {
    if 0 <= at < s.len() && s[at] == 0x7b {
        match spec_field_start(s, key, at + 1, true, (s.len() + 1) as nat) {
            None => Some(Seq::empty()),
            Some(v) => if v < s.len() && s[v] == 0x5b {
                match spec_int_items(s, v + 1, true, (s.len() + 1) as nat) {
                    Some(q) => Some(q.0),
                    None => None,
                }
            } else {
                None
            },
        }
    } else {
        None
    }
}

/// The grave id lists of an `applyGraves` (or `start`) payload:
/// the cards, notes and decks deleted, read from the named chunk
/// object; an absent list reads as empty, a malformed one refuses
/// the payload.
pub fn parse_graves_request(s: &Vec<u8>, field: &Vec<u8>) -> (r: Option<
    (Vec<i64>, Vec<i64>, Vec<i64>),
>)
    requires
        s@.len() < usize::MAX,
    ensures
        r matches Some(t) ==> (spec_object_field(s@, field@) matches Some(v0) && {
            &&& spec_id_list_field(s@, cards_key(), v0) == Some(ids_view(t.0@))
            &&& spec_id_list_field(s@, notes_key(), v0) == Some(ids_view(t.1@))
            &&& spec_id_list_field(s@, decks_key(), v0) == Some(ids_view(t.2@))
        }),
        r is None ==> spec_object_field(s@, field@) is None || (spec_object_field(s@, field@)
            matches Some(v0) && (id_list_refused(spec_id_list_field(s@, cards_key(), v0))
            || id_list_refused(spec_id_list_field(s@, notes_key(), v0)) || id_list_refused(
            spec_id_list_field(s@, decks_key(), v0),
        ))),
{
    let v0 = match object_field(s, field) {
        Some(v0) => v0,
        None => {
            return None;
        },
    };
    let ckey: Vec<u8> = vec![0x63, 0x61, 0x72, 0x64, 0x73];
    let nkey: Vec<u8> = vec![0x6e, 0x6f, 0x74, 0x65, 0x73];
    let dkey: Vec<u8> = vec![0x64, 0x65, 0x63, 0x6b, 0x73];
    proof {
        assert(ckey@ =~= cards_key());
        assert(nkey@ =~= notes_key());
        assert(dkey@ =~= decks_key());
    }
    let Some(cards) = id_list_field_at(s, &ckey, v0) else {
        return None;
    };
    let Some(notes) = id_list_field_at(s, &nkey, v0) else {
        return None;
    };
    let Some(decks) = id_list_field_at(s, &dkey, v0) else {
        return None;
    };
    Some((cards, notes, decks))
}

/// A comma-joined list of integers.
pub open spec fn ints_json(s: Seq<int>) -> Seq<u8>
    decreases s.len(),
{
    if s.len() == 0 {
        Seq::empty()
    } else if s.len() == 1 {
        json_int(s[0])
    } else {
        ints_json(s.drop_last()) + seq![0x2cu8] + json_int(s.last())
    }
}

/// Appends a comma-joined id list.
fn emit_ids(out: &mut Vec<u8>, ids: &Vec<i64>)
    requires
        forall|i: int| 0 <= i < ids@.len() ==> (#[trigger] ids@[i]) > i64::MIN,
    ensures
        final(out)@ == old(out)@ + ints_json(ids_view(ids@)),
{
    let ghost base = out@;
    let mut k: usize = 0;
    while k < ids.len()
        invariant
            k <= ids@.len(),
            forall|i: int| 0 <= i < ids@.len() ==> (#[trigger] ids@[i]) > i64::MIN,
            out@ == base + ints_json(ids_view(ids@).take(k as int)),
        decreases ids@.len() - k,
    {
        proof {
            assert(ids_view(ids@).take(k + 1).drop_last() =~= ids_view(ids@).take(k as int));
            assert(ids_view(ids@).take(k + 1).last() == ids_view(ids@)[k as int]);
        }
        if k > 0 {
            out.push(0x2c);
        }
        emit_i64(out, ids[k]);
        proof {
            assert(out@ =~= base + ints_json(ids_view(ids@).take(k + 1)));
        }
        k = k + 1;
    }
    proof {
        assert(ids_view(ids@).take(ids@.len() as int) =~= ids_view(ids@));
    }
}

/// The graves response body:
/// `{"cards": [...], "notes": [...], "decks": [...]}`.
pub open spec fn graves_response_json(cards: Seq<int>, notes: Seq<int>, decks: Seq<int>) -> Seq<
    u8,
> {
    seq![0x7bu8, 0x22u8, 0x63u8, 0x61u8, 0x72u8, 0x64u8, 0x73u8, 0x22u8, 0x3au8, 0x5bu8]
        + ints_json(cards) + seq![
        0x5du8,
        0x2cu8,
        0x22u8,
        0x6eu8,
        0x6fu8,
        0x74u8,
        0x65u8,
        0x73u8,
        0x22u8,
        0x3au8,
        0x5bu8,
    ] + ints_json(notes) + seq![
        0x5du8,
        0x2cu8,
        0x22u8,
        0x64u8,
        0x65u8,
        0x63u8,
        0x6bu8,
        0x73u8,
        0x22u8,
        0x3au8,
        0x5bu8,
    ] + ints_json(decks) + seq![0x5du8, 0x7du8]
}

/// Serializes the graves response of `start`.
#[verifier::rlimit(50)]
pub fn emit_graves_response(cards: &Vec<i64>, notes: &Vec<i64>, decks: &Vec<i64>) -> (r: Vec<u8>)
    requires
        forall|i: int| 0 <= i < cards@.len() ==> (#[trigger] cards@[i]) > i64::MIN,
        forall|i: int| 0 <= i < notes@.len() ==> (#[trigger] notes@[i]) > i64::MIN,
        forall|i: int| 0 <= i < decks@.len() ==> (#[trigger] decks@[i]) > i64::MIN,
    ensures
        r@ == graves_response_json(ids_view(cards@), ids_view(notes@), ids_view(decks@)),
{
    let mut out: Vec<u8> = Vec::new();
    out.push(0x7b);
    out.push(0x22);
    out.push(0x63);
    out.push(0x61);
    out.push(0x72);
    out.push(0x64);
    out.push(0x73);
    out.push(0x22);
    out.push(0x3a);
    out.push(0x5b);
    proof {
        assert(out@ =~= seq![
            0x7bu8,
            0x22u8,
            0x63u8,
            0x61u8,
            0x72u8,
            0x64u8,
            0x73u8,
            0x22u8,
            0x3au8,
            0x5bu8,
        ]);
    }
    emit_ids(&mut out, cards);
    let ghost m1 = out@;
    out.push(0x5d);
    out.push(0x2c);
    out.push(0x22);
    out.push(0x6e);
    out.push(0x6f);
    out.push(0x74);
    out.push(0x65);
    out.push(0x73);
    out.push(0x22);
    out.push(0x3a);
    out.push(0x5b);
    proof {
        assert(out@ =~= m1 + seq![
            0x5du8,
            0x2cu8,
            0x22u8,
            0x6eu8,
            0x6fu8,
            0x74u8,
            0x65u8,
            0x73u8,
            0x22u8,
            0x3au8,
            0x5bu8,
        ]);
    }
    emit_ids(&mut out, notes);
    let ghost m2 = out@;
    out.push(0x5d);
    out.push(0x2c);
    out.push(0x22);
    out.push(0x64);
    out.push(0x65);
    out.push(0x63);
    out.push(0x6b);
    out.push(0x73);
    out.push(0x22);
    out.push(0x3a);
    out.push(0x5b);
    proof {
        assert(out@ =~= m2 + seq![
            0x5du8,
            0x2cu8,
            0x22u8,
            0x64u8,
            0x65u8,
            0x63u8,
            0x6bu8,
            0x73u8,
            0x22u8,
            0x3au8,
            0x5bu8,
        ]);
    }
    emit_ids(&mut out, decks);
    out.push(0x5d);
    out.push(0x7d);
    proof {
        assert(out@ =~= graves_response_json(
            ids_view(cards@),
            ids_view(notes@),
            ids_view(decks@),
        ));
    }
    out
}

/// The views of a row list.
pub open spec fn rows_view(s: Seq<crate::colsync::Row>) -> Seq<(int, int)> {
    s.map_values(|r: crate::colsync::Row| (r.id as int, r.usn as int))
}

/// One push extends the viewed row list by the pushed row.
proof fn lemma_rows_view_push(o0: Seq<crate::colsync::Row>, o1: Seq<crate::colsync::Row>)
    requires
        o1 == o0.push(o1.last()),
    ensures
        rows_view(o1) == rows_view(o0).push((o1.last().id as int, o1.last().usn as int)),
{
    assert(rows_view(o1).len() == o1.len());
    assert(rows_view(o0).len() == o0.len());
    let rhs = rows_view(o0).push((o1.last().id as int, o1.last().usn as int));
    assert forall|x: int| 0 <= x < rows_view(o1).len() implies rows_view(o1)[x] == rhs[x] by {
        if x < o0.len() {
            assert(o1[x] == o0[x]);
            assert(rows_view(o1)[x] == rows_view(o0)[x]);
        }
    }
    assert(rows_view(o1) =~= rhs);
}

/// Prepends one row.
fn push_front_row(p: crate::colsync::Row, t: Vec<crate::colsync::Row>) -> (r: Vec<
    crate::colsync::Row,
>)
    ensures
        rows_view(r@) == seq![(p.id as int, p.usn as int)] + rows_view(t@),
{
    let mut out: Vec<crate::colsync::Row> = Vec::new();
    out.push(p);
    let mut k: usize = 0;
    while k < t.len()
        invariant
            k <= t@.len(),
            rows_view(out@) == seq![(p.id as int, p.usn as int)] + rows_view(t@).take(k as int),
        decreases t@.len() - k,
    {
        proof {
            assert(rows_view(out@).len() == out@.len());
        }
        let ghost o0 = out@;
        out.push(t[k]);
        proof {
            lemma_rows_view_push(o0, out@);
            assert(rows_view(out@) =~= seq![(p.id as int, p.usn as int)] + rows_view(t@).take(
                k + 1,
            ));
        }
        k = k + 1;
    }
    proof {
        assert(rows_view(t@).take(t@.len() as int) =~= rows_view(t@));
    }
    out
}

/// One wire row `[id, usn]` at `i`.
pub open spec fn spec_row_at(s: Seq<u8>, i: int) -> Option<((int, int), int)> {
    if 0 <= i < s.len() && s[i] == 0x5b {
        match spec_int_at(s, skip_ws(s, i + 1)) {
            Some(p) => {
                let j = skip_ws(s, p.1);
                if j < s.len() && s[j] == 0x2c {
                    match spec_int_at(s, skip_ws(s, j + 1)) {
                        Some(q) => {
                            let j2 = skip_ws(s, q.1);
                            if j2 < s.len() && s[j2] == 0x5d {
                                Some(((p.0, q.0), j2 + 1))
                            } else {
                                None
                            }
                        },
                        None => None,
                    }
                } else {
                    None
                }
            },
            None => None,
        }
    } else {
        None
    }
}

/// The wire rows from `i` up to the closing `]`.
pub open spec fn spec_row_items(s: Seq<u8>, i: int, first: bool, fuel: nat) -> Option<
    (Seq<(int, int)>, int),
>
    decreases fuel,
{
    if fuel == 0 {
        None
    } else {
        let j = skip_ws(s, i);
        if j < s.len() && s[j] == 0x5d {
            Some((Seq::empty(), j + 1))
        } else {
            let j2 = if first {
                j
            } else {
                if j < s.len() && s[j] == 0x2c {
                    skip_ws(s, j + 1)
                } else {
                    -1
                }
            };
            match spec_row_at(s, j2) {
                Some(p) => match spec_row_items(s, p.1, false, (fuel - 1) as nat) {
                    Some(q) => Some((seq![p.0] + q.0, q.1)),
                    None => None,
                },
                None => None,
            }
        }
    }
}

/// Whether a wire row's numbers fit the model's machine types.
pub open spec fn row_in_range(r: (int, int)) -> bool {
    &&& -(i64::MAX as int) <= r.0 <= i64::MAX
    &&& i32::MIN <= r.1 <= i32::MAX
}

/// Whether a spec-level row list cannot be handed out as model
/// rows: it is absent-or-malformed, or a row is out of range.
pub open spec fn rows_refused(o: Option<(Seq<(int, int)>, int)>) -> bool {
    match o {
        None => true,
        Some(q) => exists|x: int| 0 <= x < q.0.len() && !row_in_range(#[trigger] q.0[x]),
    }
}

fn row_at(s: &Vec<u8>, i: usize) -> (r: Option<(crate::colsync::Row, usize)>)
    requires
        i <= s@.len(),
    ensures
        match r {
            Some(p) => spec_row_at(s@, i as int) == Some((
                (p.0.id as int, p.0.usn as int),
                p.1 as int,
            )) && p.1 <= s@.len(),
            None => spec_row_at(s@, i as int) is None || (spec_row_at(s@, i as int)
                matches Some(q) && !row_in_range(q.0)),
        },
{
    if !(i < s.len() && s[i] == 0x5b) {
        return None;
    }
    let p = match int_at(s, ws(s, i + 1)) {
        Some(p) => p,
        None => {
            return None;
        },
    };
    let j = ws(s, p.1);
    if !(j < s.len() && s[j] == 0x2c) {
        return None;
    }
    let q = match int_at(s, ws(s, j + 1)) {
        Some(q) => q,
        None => {
            return None;
        },
    };
    let j2 = ws(s, q.1);
    if !(j2 < s.len() && s[j2] == 0x5d) {
        return None;
    }
    if q.0 > i32::MAX as i64 || q.0 < i32::MIN as i64 {
        return None;
    }
    Some((crate::colsync::Row { id: p.0, usn: q.0 as i32 }, j2 + 1))
}

fn row_items(s: &Vec<u8>, i: usize, first: bool, fuel: usize) -> (r: Option<
    (Vec<crate::colsync::Row>, usize),
>)
    requires
        i <= s@.len(),
    ensures
        r matches Some(p) ==> spec_row_items(s@, i as int, first, fuel as nat) == Some((
            rows_view(p.0@),
            p.1 as int,
        )) && p.1 <= s@.len(),
        r is None ==> rows_refused(spec_row_items(s@, i as int, first, fuel as nat)),
    decreases fuel,
{
    let ghost full = spec_row_items(s@, i as int, first, fuel as nat);
    if fuel == 0 {
        return None;
    }
    let j = ws(s, i);
    if j < s.len() && s[j] == 0x5d {
        let empty: Vec<crate::colsync::Row> = Vec::new();
        proof {
            assert(rows_view(empty@) =~= Seq::<(int, int)>::empty());
        }
        return Some((empty, j + 1));
    }
    let j2 = if first {
        j
    } else {
        if j < s.len() && s[j] == 0x2c {
            ws(s, j + 1)
        } else {
            return None;
        }
    };
    match row_at(s, j2) {
        Some(p) => match row_items(s, p.1, false, fuel - 1) {
            Some(q) => Some((push_front_row(p.0, q.0), q.1)),
            None => {
                proof {
                    let rest = spec_row_items(s@, p.1 as int, false, (fuel - 1) as nat);
                    match rest {
                        Some(q2) => {
                            match full {
                                Some(f) => {
                                    let x = choose|x: int|
                                        0 <= x < q2.0.len() && !row_in_range(#[trigger] q2.0[x]);
                                    assert(f.0 == seq![(p.0.id as int, p.0.usn as int)] + q2.0);
                                    assert(f.0[x + 1] == q2.0[x]);
                                    assert(rows_refused(full)) by {
                                        assert(0 <= x + 1 < f.0.len() && !row_in_range(
                                            f.0[x + 1],
                                        ));
                                    }
                                },
                                None => {},
                            }
                        },
                        None => {},
                    }
                }
                None
            },
        },
        None => {
            proof {
                match spec_row_at(s@, j2 as int) {
                    Some(pq) => {
                        match full {
                            Some(f) => {
                                assert(f.0[0] == pq.0);
                                assert(rows_refused(full)) by {
                                    assert(0 <= 0 < f.0.len() && !row_in_range(f.0[0]));
                                }
                            },
                            None => {},
                        }
                    },
                    None => {},
                }
            }
            None
        },
    }
}

/// The row list of field `key` (a wire chunk table, rows as
/// `[id, usn]` pairs) in the object the body opens; USNs outside
/// `i32` are refused.
pub fn parse_field_rows(s: &Vec<u8>, key: &Vec<u8>) -> (r: Option<Vec<crate::colsync::Row>>)
    requires
        s@.len() < usize::MAX,
    ensures
        r matches Some(v) ==> (spec_object_field(s@, key@) matches Some(v0) && v0 < s@.len()
            && s@[v0] == 0x5b && (spec_row_items(s@, v0 + 1, true, (s@.len() + 1) as nat)
            matches Some(q) && q.0 == rows_view(v@))),
        r is None ==> spec_object_field(s@, key@) is None || (spec_object_field(s@, key@)
            matches Some(v0) && (v0 >= s@.len() || s@[v0] != 0x5b || rows_refused(
            spec_row_items(s@, v0 + 1, true, (s@.len() + 1) as nat),
        ))),
{
    let v0 = match object_field(s, key) {
        Some(v0) => v0,
        None => {
            return None;
        },
    };
    if !(v0 < s.len() && s[v0] == 0x5b) {
        return None;
    }
    match row_items(s, v0 + 1, true, s.len() + 1) {
        Some(p) => Some(p.0),
        None => None,
    }
}

/// A comma-joined list of wire rows.
pub open spec fn rows_json(s: Seq<(int, int)>) -> Seq<u8>
    decreases s.len(),
{
    if s.len() == 0 {
        Seq::empty()
    } else if s.len() == 1 {
        row_json(s[0])
    } else {
        rows_json(s.drop_last()) + seq![0x2cu8] + row_json(s.last())
    }
}

/// One wire row `[id, usn]`.
pub open spec fn row_json(r: (int, int)) -> Seq<u8> {
    seq![0x5bu8] + json_int(r.0) + seq![0x2cu8] + json_int(r.1) + seq![0x5du8]
}

/// Appends a comma-joined row list.
fn emit_rows(out: &mut Vec<u8>, rows: &Vec<crate::colsync::Row>)
    requires
        forall|i: int| 0 <= i < rows@.len() ==> (#[trigger] rows@[i]).id > i64::MIN,
    ensures
        final(out)@ == old(out)@ + rows_json(rows_view(rows@)),
{
    let ghost base = out@;
    let mut k: usize = 0;
    while k < rows.len()
        invariant
            k <= rows@.len(),
            forall|i: int| 0 <= i < rows@.len() ==> (#[trigger] rows@[i]).id > i64::MIN,
            out@ == base + rows_json(rows_view(rows@).take(k as int)),
        decreases rows@.len() - k,
    {
        proof {
            assert(rows_view(rows@).take(k + 1).drop_last() =~= rows_view(rows@).take(k as int));
            assert(rows_view(rows@).take(k + 1).last() == rows_view(rows@)[k as int]);
        }
        if k > 0 {
            out.push(0x2c);
        }
        let ghost pre = out@;
        out.push(0x5b);
        emit_i64(out, rows[k].id);
        out.push(0x2c);
        emit_i64(out, rows[k].usn as i64);
        out.push(0x5d);
        proof {
            assert(out@ =~= pre + row_json(rows_view(rows@)[k as int]));
            assert(out@ =~= base + rows_json(rows_view(rows@).take(k + 1)));
        }
        k = k + 1;
    }
    proof {
        assert(rows_view(rows@).take(rows@.len() as int) =~= rows_view(rows@));
    }
}

/// The bytes `{"mod":`.
pub open spec fn meta_seg_mod() -> Seq<u8> {
    seq![0x7bu8, 0x22u8, 0x6du8, 0x6fu8, 0x64u8, 0x22u8, 0x3au8]
}

fn emit_meta_seg_mod(out: &mut Vec<u8>)
    ensures
        final(out)@ == old(out)@ + meta_seg_mod(),
{
    let ghost o0 = out@;
    out.push(0x7b);
    out.push(0x22);
    out.push(0x6d);
    out.push(0x6f);
    out.push(0x64);
    out.push(0x22);
    out.push(0x3a);
    proof {
        assert(out@ =~= o0 + meta_seg_mod());
    }
}

/// The bytes `,"scm":`.
pub open spec fn meta_seg_scm() -> Seq<u8> {
    seq![0x2cu8, 0x22u8, 0x73u8, 0x63u8, 0x6du8, 0x22u8, 0x3au8]
}

fn emit_meta_seg_scm(out: &mut Vec<u8>)
    ensures
        final(out)@ == old(out)@ + meta_seg_scm(),
{
    let ghost o0 = out@;
    out.push(0x2c);
    out.push(0x22);
    out.push(0x73);
    out.push(0x63);
    out.push(0x6d);
    out.push(0x22);
    out.push(0x3a);
    proof {
        assert(out@ =~= o0 + meta_seg_scm());
    }
}

/// The bytes `,"usn":`.
pub open spec fn meta_seg_usn() -> Seq<u8> {
    seq![0x2cu8, 0x22u8, 0x75u8, 0x73u8, 0x6eu8, 0x22u8, 0x3au8]
}

fn emit_meta_seg_usn(out: &mut Vec<u8>)
    ensures
        final(out)@ == old(out)@ + meta_seg_usn(),
{
    let ghost o0 = out@;
    out.push(0x2c);
    out.push(0x22);
    out.push(0x75);
    out.push(0x73);
    out.push(0x6e);
    out.push(0x22);
    out.push(0x3a);
    proof {
        assert(out@ =~= o0 + meta_seg_usn());
    }
}

/// The bytes `,"ts":`.
pub open spec fn meta_seg_ts() -> Seq<u8> {
    seq![0x2cu8, 0x22u8, 0x74u8, 0x73u8, 0x22u8, 0x3au8]
}

fn emit_meta_seg_ts(out: &mut Vec<u8>)
    ensures
        final(out)@ == old(out)@ + meta_seg_ts(),
{
    let ghost o0 = out@;
    out.push(0x2c);
    out.push(0x22);
    out.push(0x74);
    out.push(0x73);
    out.push(0x22);
    out.push(0x3a);
    proof {
        assert(out@ =~= o0 + meta_seg_ts());
    }
}

/// The bytes `,"musn":`.
pub open spec fn meta_seg_musn() -> Seq<u8> {
    seq![0x2cu8, 0x22u8, 0x6du8, 0x75u8, 0x73u8, 0x6eu8, 0x22u8, 0x3au8]
}

fn emit_meta_seg_musn(out: &mut Vec<u8>)
    ensures
        final(out)@ == old(out)@ + meta_seg_musn(),
{
    let ghost o0 = out@;
    out.push(0x2c);
    out.push(0x22);
    out.push(0x6d);
    out.push(0x75);
    out.push(0x73);
    out.push(0x6e);
    out.push(0x22);
    out.push(0x3a);
    proof {
        assert(out@ =~= o0 + meta_seg_musn());
    }
}

/// The bytes `,"msg":"","cont":true,"hostNum":0,"empty":`.
pub open spec fn meta_seg_tail() -> Seq<u8> {
    seq![0x2cu8, 0x22u8, 0x6du8, 0x73u8, 0x67u8, 0x22u8, 0x3au8, 0x22u8, 0x22u8, 0x2cu8, 0x22u8, 0x63u8, 0x6fu8, 0x6eu8, 0x74u8, 0x22u8, 0x3au8, 0x74u8, 0x72u8, 0x75u8, 0x65u8, 0x2cu8, 0x22u8, 0x68u8, 0x6fu8, 0x73u8, 0x74u8, 0x4eu8, 0x75u8, 0x6du8, 0x22u8, 0x3au8, 0x30u8, 0x2cu8, 0x22u8, 0x65u8, 0x6du8, 0x70u8, 0x74u8, 0x79u8, 0x22u8, 0x3au8]
}

#[verifier::rlimit(50)]
fn emit_meta_seg_tail(out: &mut Vec<u8>)
    ensures
        final(out)@ == old(out)@ + meta_seg_tail(),
{
    let ghost o0 = out@;
    out.push(0x2c);
    out.push(0x22);
    out.push(0x6d);
    out.push(0x73);
    out.push(0x67);
    out.push(0x22);
    out.push(0x3a);
    out.push(0x22);
    out.push(0x22);
    out.push(0x2c);
    out.push(0x22);
    out.push(0x63);
    out.push(0x6f);
    out.push(0x6e);
    out.push(0x74);
    out.push(0x22);
    out.push(0x3a);
    out.push(0x74);
    out.push(0x72);
    out.push(0x75);
    out.push(0x65);
    out.push(0x2c);
    out.push(0x22);
    out.push(0x68);
    out.push(0x6f);
    out.push(0x73);
    out.push(0x74);
    out.push(0x4e);
    out.push(0x75);
    out.push(0x6d);
    out.push(0x22);
    out.push(0x3a);
    out.push(0x30);
    out.push(0x2c);
    out.push(0x22);
    out.push(0x65);
    out.push(0x6d);
    out.push(0x70);
    out.push(0x74);
    out.push(0x79);
    out.push(0x22);
    out.push(0x3a);
    proof {
        assert(out@ =~= o0 + meta_seg_tail());
    }
}

/// The bytes `{"done":`.
pub open spec fn chunk_seg_done() -> Seq<u8> {
    seq![0x7bu8, 0x22u8, 0x64u8, 0x6fu8, 0x6eu8, 0x65u8, 0x22u8, 0x3au8]
}

fn emit_chunk_seg_done(out: &mut Vec<u8>)
    ensures
        final(out)@ == old(out)@ + chunk_seg_done(),
{
    let ghost o0 = out@;
    out.push(0x7b);
    out.push(0x22);
    out.push(0x64);
    out.push(0x6f);
    out.push(0x6e);
    out.push(0x65);
    out.push(0x22);
    out.push(0x3a);
    proof {
        assert(out@ =~= o0 + chunk_seg_done());
    }
}

/// The bytes `,"revlog":[`.
pub open spec fn chunk_seg_revlog() -> Seq<u8> {
    seq![0x2cu8, 0x22u8, 0x72u8, 0x65u8, 0x76u8, 0x6cu8, 0x6fu8, 0x67u8, 0x22u8, 0x3au8, 0x5bu8]
}

fn emit_chunk_seg_revlog(out: &mut Vec<u8>)
    ensures
        final(out)@ == old(out)@ + chunk_seg_revlog(),
{
    let ghost o0 = out@;
    out.push(0x2c);
    out.push(0x22);
    out.push(0x72);
    out.push(0x65);
    out.push(0x76);
    out.push(0x6c);
    out.push(0x6f);
    out.push(0x67);
    out.push(0x22);
    out.push(0x3a);
    out.push(0x5b);
    proof {
        assert(out@ =~= o0 + chunk_seg_revlog());
    }
}

/// The bytes `],"cards":[`.
pub open spec fn chunk_seg_cards() -> Seq<u8> {
    seq![0x5du8, 0x2cu8, 0x22u8, 0x63u8, 0x61u8, 0x72u8, 0x64u8, 0x73u8, 0x22u8, 0x3au8, 0x5bu8]
}

fn emit_chunk_seg_cards(out: &mut Vec<u8>)
    ensures
        final(out)@ == old(out)@ + chunk_seg_cards(),
{
    let ghost o0 = out@;
    out.push(0x5d);
    out.push(0x2c);
    out.push(0x22);
    out.push(0x63);
    out.push(0x61);
    out.push(0x72);
    out.push(0x64);
    out.push(0x73);
    out.push(0x22);
    out.push(0x3a);
    out.push(0x5b);
    proof {
        assert(out@ =~= o0 + chunk_seg_cards());
    }
}

/// The bytes `],"notes":[`.
pub open spec fn chunk_seg_notes() -> Seq<u8> {
    seq![0x5du8, 0x2cu8, 0x22u8, 0x6eu8, 0x6fu8, 0x74u8, 0x65u8, 0x73u8, 0x22u8, 0x3au8, 0x5bu8]
}

fn emit_chunk_seg_notes(out: &mut Vec<u8>)
    ensures
        final(out)@ == old(out)@ + chunk_seg_notes(),
{
    let ghost o0 = out@;
    out.push(0x5d);
    out.push(0x2c);
    out.push(0x22);
    out.push(0x6e);
    out.push(0x6f);
    out.push(0x74);
    out.push(0x65);
    out.push(0x73);
    out.push(0x22);
    out.push(0x3a);
    out.push(0x5b);
    proof {
        assert(out@ =~= o0 + chunk_seg_notes());
    }
}

/// The bytes of a JSON boolean.
pub open spec fn bool_json(b: bool) -> Seq<u8> {
    if b {
        seq![0x74u8, 0x72u8, 0x75u8, 0x65u8]
    } else {
        seq![0x66u8, 0x61u8, 0x6cu8, 0x73u8, 0x65u8]
    }
}

fn emit_bool(out: &mut Vec<u8>, b: bool)
    ensures
        final(out)@ == old(out)@ + bool_json(b),
{
    let ghost o0 = out@;
    if b {
        out.push(0x74);
        out.push(0x72);
        out.push(0x75);
        out.push(0x65);
    } else {
        out.push(0x66);
        out.push(0x61);
        out.push(0x6c);
        out.push(0x73);
        out.push(0x65);
    }
    proof {
        assert(out@ =~= o0 + bool_json(b));
    }
}

/// The chunk response body: `{"done": b, "revlog": [rows],
/// "cards": [rows], "notes": [rows]}`, rows as `[id, usn]` pairs —
/// the sync-relevant columns of the model; full row payloads belong
/// to the collection store.
pub open spec fn chunk_response_json(
    done: bool,
    revlog: Seq<(int, int)>,
    cards: Seq<(int, int)>,
    notes: Seq<(int, int)>,
) -> Seq<u8> {
    chunk_seg_done() + bool_json(done) + chunk_seg_revlog() + rows_json(revlog)
        + chunk_seg_cards() + rows_json(cards) + chunk_seg_notes() + rows_json(notes) + seq![
        0x5du8,
        0x7du8,
    ]
}

/// Serializes the chunk response.
pub fn emit_chunk_response(chunk: &crate::colsync::Chunk) -> (r: Vec<u8>)
    requires
        forall|i: int| 0 <= i < chunk.revlog@.len() ==> (#[trigger] chunk.revlog@[i]).id
            > i64::MIN,
        forall|i: int| 0 <= i < chunk.cards@.len() ==> (#[trigger] chunk.cards@[i]).id > i64::MIN,
        forall|i: int| 0 <= i < chunk.notes@.len() ==> (#[trigger] chunk.notes@[i]).id > i64::MIN,
    ensures
        r@ == chunk_response_json(
            chunk.done,
            rows_view(chunk.revlog@),
            rows_view(chunk.cards@),
            rows_view(chunk.notes@),
        ),
{
    let mut out: Vec<u8> = Vec::new();
    emit_chunk_seg_done(&mut out);
    emit_bool(&mut out, chunk.done);
    emit_chunk_seg_revlog(&mut out);
    emit_rows(&mut out, &chunk.revlog);
    emit_chunk_seg_cards(&mut out);
    emit_rows(&mut out, &chunk.cards);
    emit_chunk_seg_notes(&mut out);
    emit_rows(&mut out, &chunk.notes);
    out.push(0x5d);
    out.push(0x7d);
    proof {
        assert(out@ =~= chunk_response_json(
            chunk.done,
            rows_view(chunk.revlog@),
            rows_view(chunk.cards@),
            rows_view(chunk.notes@),
        ));
    }
    out
}

/// The meta response body: modification time, schema stamp, USN,
/// server time, media USN, an empty message, the continue flag, the
/// host number, and whether the collection is empty.
pub open spec fn meta_response_json(
    mod_time: int,
    schema: int,
    usn: int,
    ts: int,
    musn: int,
    empty: bool,
) -> Seq<u8> {
    meta_seg_mod() + json_int(mod_time) + meta_seg_scm() + json_int(schema) + meta_seg_usn()
        + json_int(usn) + meta_seg_ts() + json_int(ts) + meta_seg_musn() + json_int(musn)
        + meta_seg_tail() + bool_json(empty) + seq![0x7du8]
}

/// Serializes the meta response.
pub fn emit_meta_response(
    mod_time: i64,
    schema: i64,
    usn: i32,
    ts: i64,
    musn: i32,
    empty: bool,
) -> (r: Vec<u8>)
    requires
        mod_time > i64::MIN,
        schema > i64::MIN,
        ts > i64::MIN,
    ensures
        r@ == meta_response_json(
            mod_time as int,
            schema as int,
            usn as int,
            ts as int,
            musn as int,
            empty,
        ),
{
    let mut out: Vec<u8> = Vec::new();
    emit_meta_seg_mod(&mut out);
    emit_i64(&mut out, mod_time);
    emit_meta_seg_scm(&mut out);
    emit_i64(&mut out, schema);
    emit_meta_seg_usn(&mut out);
    emit_i64(&mut out, usn as i64);
    emit_meta_seg_ts(&mut out);
    emit_i64(&mut out, ts);
    emit_meta_seg_musn(&mut out);
    emit_i64(&mut out, musn as i64);
    emit_meta_seg_tail(&mut out);
    emit_bool(&mut out, empty);
    out.push(0x7d);
    proof {
        assert(out@ =~= meta_response_json(
            mod_time as int,
            schema as int,
            usn as int,
            ts as int,
            musn as int,
            empty,
        ));
    }
    out
}

} // verus!
