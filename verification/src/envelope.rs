//! The request envelope codec: gzip payload decoding and the
//! query-string form of the well-known keys (`k`, `sk`, `c`,
//! `data`).

use crate::bytes::clone_bytes;
use crate::media::pairs_view;
use vstd::prelude::*;

verus! {

/// What gzip decompression yields for the given bytes, or nothing
/// for a malformed stream; a function of the bytes alone.
pub uninterp spec fn gunzip_of(b: Seq<u8>) -> Option<Seq<u8>>;

/// Relies on `flate2::read::GzDecoder` and `Read::read_to_end`:
/// decompresses a gzip stream, refusing a malformed one.
#[verifier::external_body]
fn gunzip(data: &Vec<u8>) -> (r: Option<Vec<u8>>)
    ensures
        match r {
            Some(v) => gunzip_of(data@) == Some(v@),
            None => gunzip_of(data@) is None,
        },
{
    let mut d = flate2::read::GzDecoder::new(data.as_slice());
    let mut out = Vec::new();
    match std::io::Read::read_to_end(&mut d, &mut out) {
        Ok(_) => Some(out),
        Err(_) => None,
    }
}

/// How a payload is decoded: gunzipped when the compression flag is
/// exactly `"1"`, passed through otherwise (also when absent).
pub open spec fn spec_decode(data: Seq<u8>, c: Option<Seq<u8>>) -> Option<Seq<u8>> {
    if c == Some(seq![0x31u8]) {
        gunzip_of(data)
    } else {
        Some(data)
    }
}

/// Decodes a request payload according to its compression flag.
/// `None` reports a malformed gzip stream.
pub fn decode_payload(data: &Vec<u8>, c: Option<&Vec<u8>>) -> (r: Option<Vec<u8>>)
    ensures
        r matches Some(v) ==> spec_decode(data@, match c {
            Some(f) => Some(f@),
            None => None,
        }) == Some(v@),
        r is None ==> spec_decode(data@, match c {
            Some(f) => Some(f@),
            None => None,
        }) is None,
{
    match c {
        Some(f) => {
            if f.len() == 1 && f[0] == 0x31 {
                proof {
                    assert(f@ =~= seq![0x31u8]);
                }
                gunzip(data)
            } else {
                proof {
                    assert(f@ != seq![0x31u8]);
                }
                Some(clone_bytes(data))
            }
        },
        None => Some(clone_bytes(data)),
    }
}

/// The index of the first `b` at or after `from`, or the length.
pub open spec fn find_byte(s: Seq<u8>, from: int, b: u8) -> int
    decreases s.len() - from,
{
    if from < 0 || from >= s.len() {
        s.len() as int
    } else if s[from] == b {
        from
    } else {
        find_byte(s, from + 1, b)
    }
}

proof fn lemma_find_byte(s: Seq<u8>, from: int, b: u8)
    requires
        0 <= from <= s.len(),
    ensures
        from <= find_byte(s, from, b) <= s.len(),
    decreases s.len() - from,
{
    if from < s.len() && s[from] != b {
        lemma_find_byte(s, from + 1, b);
    }
}

fn find_byte_exec(s: &Vec<u8>, from: usize, b: u8) -> (r: usize)
    requires
        from <= s@.len(),
    ensures
        r == find_byte(s@, from as int, b),
        from <= r <= s@.len(),
    decreases s@.len() - from,
{
    proof {
        lemma_find_byte(s@, from as int, b);
    }
    if from >= s.len() {
        s.len()
    } else if s[from] == b {
        from
    } else {
        find_byte_exec(s, from + 1, b)
    }
}

/// Copies `s[a..b]`.
fn sub_bytes(s: &Vec<u8>, a: usize, b: usize) -> (r: Vec<u8>)
    requires
        a <= b <= s@.len(),
    ensures
        r@ == s@.subrange(a as int, b as int),
{
    let mut r: Vec<u8> = Vec::new();
    let mut k: usize = a;
    while k < b
        invariant
            a <= k <= b <= s@.len(),
            r@ == s@.subrange(a as int, k as int),
        decreases b - k,
    {
        r.push(s[k]);
        proof {
            assert(r@ =~= s@.subrange(a as int, k + 1));
        }
        k = k + 1;
    }
    r
}

/// The value of a hex digit, or 16 for any other byte.
pub open spec fn hex_val(c: u8) -> u8 {
    if 0x30 <= c && c <= 0x39 {
        (c - 0x30) as u8
    } else if 0x61 <= c && c <= 0x66 {
        (c - 0x57) as u8
    } else if 0x41 <= c && c <= 0x46 {
        (c - 0x37) as u8
    } else {
        16
    }
}

fn hex_val_exec(c: u8) -> (r: u8)
    ensures
        r == hex_val(c),
{
    if 0x30 <= c && c <= 0x39 {
        c - 0x30
    } else if 0x61 <= c && c <= 0x66 {
        c - 0x57
    } else if 0x41 <= c && c <= 0x46 {
        c - 0x37
    } else {
        16
    }
}

/// Percent-decoding with form semantics: `+` becomes a space,
/// `%XX` with two hex digits becomes that byte, anything else is
/// kept as it stands.
pub open spec fn pct_decode(v: Seq<u8>) -> Seq<u8>
    decreases v.len(),
{
    if v.len() == 0 {
        Seq::empty()
    } else if v[0] == 0x2b {
        seq![0x20u8] + pct_decode(v.skip(1))
    } else if v[0] == 0x25 && v.len() >= 3 && hex_val(v[1]) < 16 && hex_val(v[2]) < 16 {
        seq![(hex_val(v[1]) * 16 + hex_val(v[2])) as u8] + pct_decode(v.skip(3))
    } else {
        seq![v[0]] + pct_decode(v.skip(1))
    }
}

/// Decodes the suffix of `v` from `i` on.
fn pct_decode_from(v: &Vec<u8>, i: usize) -> (r: Vec<u8>)
    requires
        i <= v@.len(),
    ensures
        r@ == pct_decode(v@.skip(i as int)),
    decreases v@.len() - i,
{
    let ghost suf = v@.skip(i as int);
    if i >= v.len() {
        let r: Vec<u8> = Vec::new();
        proof {
            assert(suf =~= Seq::<u8>::empty());
            assert(r@ =~= pct_decode(suf));
        }
        return r;
    }
    proof {
        assert(suf.len() == v@.len() - i);
        assert(suf[0] == v@[i as int]);
    }
    let c = v[i];
    if c == 0x2b {
        let t = pct_decode_from(v, i + 1);
        let r = crate::json::push_front(0x20, t);
        proof {
            assert(suf.skip(1) =~= v@.skip(i + 1));
        }
        r
    } else {
        let long = v.len() - i >= 3;
        if c == 0x25 && long {
            let h1 = hex_val_exec(v[i + 1]);
            let h2 = hex_val_exec(v[i + 2]);
            proof {
                assert(suf[1] == v@[i as int + 1]);
                assert(suf[2] == v@[i as int + 2]);
            }
            if h1 < 16 && h2 < 16 {
                let t = pct_decode_from(v, i + 3);
                let r = crate::json::push_front(h1 * 16 + h2, t);
                proof {
                    assert(suf.skip(3) =~= v@.skip(i as int + 3));
                }
                return r;
            }
        }
        let t = pct_decode_from(v, i + 1);
        let r = crate::json::push_front(c, t);
        proof {
            assert(suf.skip(1) =~= v@.skip(i + 1));
        }
        r
    }
}

/// Prepends one pair.
fn push_front_pair(p: (Vec<u8>, Vec<u8>), t: Vec<(Vec<u8>, Vec<u8>)>) -> (r: Vec<
    (Vec<u8>, Vec<u8>),
>)
    ensures
        pairs_view(r@) == seq![(p.0@, p.1@)] + pairs_view(t@),
{
    let ghost pv = (p.0@, p.1@);
    let mut out: Vec<(Vec<u8>, Vec<u8>)> = Vec::new();
    out.push(p);
    let mut k: usize = 0;
    while k < t.len()
        invariant
            k <= t@.len(),
            pairs_view(out@) == seq![pv] + pairs_view(t@).take(k as int),
        decreases t@.len() - k,
    {
        proof {
            assert(pairs_view(out@).len() == out@.len());
        }
        let a = clone_bytes(&t[k].0);
        let b = clone_bytes(&t[k].1);
        let ghost o0 = out@;
        out.push((a, b));
        proof {
            let lhs = pairs_view(out@);
            let rhs = seq![pv] + pairs_view(t@).take(k + 1);
            assert(lhs.len() == out@.len() == o0.len() + 1);
            assert(pairs_view(o0).len() == o0.len());
            assert forall|x: int| 0 <= x < lhs.len() implies lhs[x] == rhs[x] by {
                if x < o0.len() {
                    assert(out@[x] == o0[x]);
                    assert(lhs[x] == pairs_view(o0)[x]);
                } else {
                    assert(lhs[x] == lhs.last());
                }
            }
            assert(lhs =~= rhs);
        }
        k = k + 1;
    }
    proof {
        assert(pairs_view(t@).take(t@.len() as int) =~= pairs_view(t@));
    }
    out
}

/// The key/value pairs of a query string from `from` on: parts are
/// split on `&`, a part without `=` is skipped, key and value are
/// split at the first `=` and percent-decoded.
pub open spec fn qs_pairs(s: Seq<u8>, from: int, fuel: nat) -> Seq<(Seq<u8>, Seq<u8>)>
    decreases fuel,
{
    if fuel == 0 || from >= s.len() || from < 0 {
        Seq::empty()
    } else {
        let amp = find_byte(s, from, 0x26);
        let part = s.subrange(from, amp);
        let rest = qs_pairs(s, amp + 1, (fuel - 1) as nat);
        let eq = find_byte(part, 0, 0x3d);
        if eq < part.len() {
            seq![(pct_decode(part.take(eq)), pct_decode(part.skip(eq + 1)))] + rest
        } else {
            rest
        }
    }
}

/// What a whole query string parses to.
pub open spec fn spec_parse_qs(s: Seq<u8>) -> Seq<(Seq<u8>, Seq<u8>)> {
    qs_pairs(s, 0, s.len() + 1)
}

fn qs_pairs_from(s: &Vec<u8>, from: usize, fuel: usize) -> (r: Vec<(Vec<u8>, Vec<u8>)>)
    requires
        from <= s@.len(),
    ensures
        pairs_view(r@) == qs_pairs(s@, from as int, fuel as nat),
    decreases fuel,
{
    if fuel == 0 || from >= s.len() {
        let r: Vec<(Vec<u8>, Vec<u8>)> = Vec::new();
        proof {
            assert(pairs_view(r@) =~= Seq::<(Seq<u8>, Seq<u8>)>::empty());
        }
        return r;
    }
    let amp = find_byte_exec(s, from, 0x26);
    let part = sub_bytes(s, from, amp);
    let rest = if amp < s.len() {
        qs_pairs_from(s, amp + 1, fuel - 1)
    } else {
        let r: Vec<(Vec<u8>, Vec<u8>)> = Vec::new();
        proof {
            assert(pairs_view(r@) =~= Seq::<(Seq<u8>, Seq<u8>)>::empty());
            assert(qs_pairs(s@, amp as int + 1, (fuel - 1) as nat) =~= Seq::<
                (Seq<u8>, Seq<u8>),
            >::empty());
        }
        r
    };
    let eq = find_byte_exec(&part, 0, 0x3d);
    if eq < part.len() {
        let keypart = sub_bytes(&part, 0, eq);
        let valpart = sub_bytes(&part, eq + 1, part.len());
        let key = pct_decode_from(&keypart, 0);
        let val = pct_decode_from(&valpart, 0);
        proof {
            assert(keypart@.skip(0) =~= keypart@);
            assert(valpart@.skip(0) =~= valpart@);
            assert(keypart@ =~= part@.take(eq as int));
            assert(valpart@ =~= part@.skip(eq as int + 1));
        }
        push_front_pair((key, val), rest)
    } else {
        rest
    }
}

/// Parses a query string into its key/value pairs, in order.
pub fn parse_qs(s: &Vec<u8>) -> (r: Vec<(Vec<u8>, Vec<u8>)>)
    requires
        s@.len() < usize::MAX,
    ensures
        pairs_view(r@) == spec_parse_qs(s@),
{
    qs_pairs_from(s, 0, s.len() + 1)
}

/// The index of the first match of `pat` at or after `from`, or the
/// length when there is none.
pub open spec fn find_sub(s: Seq<u8>, from: int, pat: Seq<u8>) -> int
    decreases s.len() - from,
{
    if from < 0 || from >= s.len() || from + pat.len() > s.len() {
        s.len() as int
    } else if s.subrange(from, from + pat.len()) == pat {
        from
    } else {
        find_sub(s, from + 1, pat)
    }
}

proof fn lemma_find_sub(s: Seq<u8>, from: int, pat: Seq<u8>)
    requires
        0 <= from <= s.len(),
    ensures
        from <= find_sub(s, from, pat) <= s.len(),
        find_sub(s, from, pat) < s.len() ==> find_sub(s, from, pat) + pat.len() <= s.len(),
    decreases s.len() - from,
{
    if from < s.len() && from + pat.len() <= s.len() && s.subrange(from, from + pat.len())
        != pat {
        lemma_find_sub(s, from + 1, pat);
    }
}

/// Whether `pat` stands at `i` in `s`.
fn is_match_at(s: &Vec<u8>, i: usize, pat: &Vec<u8>) -> (r: bool)
    requires
        i + pat@.len() <= s@.len(),
    ensures
        r == (s@.subrange(i as int, i as int + pat@.len() as int) == pat@),
{
    let n = s.len();
    let mut j: usize = 0;
    while j < pat.len()
        invariant
            j <= pat@.len(),
            n == s@.len(),
            i + pat@.len() <= n,
            forall|x: int| 0 <= x < j ==> s@[i + x] == pat@[x],
        decreases pat@.len() - j,
    {
        if s[i + j] != pat[j] {
            proof {
                let sub = s@.subrange(i as int, i as int + pat@.len() as int);
                assert(sub[j as int] != pat@[j as int]);
            }
            return false;
        }
        j = j + 1;
    }
    proof {
        assert(s@.subrange(i as int, i as int + pat@.len() as int) =~= pat@);
    }
    true
}

fn find_sub_exec(s: &Vec<u8>, from: usize, pat: &Vec<u8>) -> (r: usize)
    requires
        from <= s@.len(),
    ensures
        r == find_sub(s@, from as int, pat@),
        from <= r <= s@.len(),
        r < s@.len() ==> r + pat@.len() <= s@.len(),
    decreases s@.len() - from,
{
    proof {
        lemma_find_sub(s@, from as int, pat@);
    }
    if from >= s.len() || pat.len() > s.len() - from {
        return s.len();
    }
    if is_match_at(s, from, pat) {
        from
    } else {
        find_sub_exec(s, from + 1, pat)
    }
}

/// The field name inside one part's header block: the bytes between
/// `name="` and the next quote.
pub open spec fn part_name(head: Seq<u8>) -> Seq<u8> {
    let pat = seq![0x6eu8, 0x61u8, 0x6du8, 0x65u8, 0x3du8, 0x22u8];
    let n = find_sub(head, 0, pat);
    if n == head.len() {
        Seq::empty()
    } else {
        let st = n + 6;
        head.subrange(st, find_byte(head, st, 0x22))
    }
}

fn part_name_exec(head: &Vec<u8>) -> (r: Vec<u8>)
    ensures
        r@ == part_name(head@),
{
    let pat: Vec<u8> = vec![0x6e, 0x61, 0x6d, 0x65, 0x3d, 0x22];
    proof {
        assert(pat@ =~= seq![0x6eu8, 0x61u8, 0x6du8, 0x65u8, 0x3du8, 0x22u8]);
    }
    let n = find_sub_exec(head, 0, &pat);
    if n == head.len() {
        let r: Vec<u8> = Vec::new();
        proof {
            assert(r@ =~= Seq::<u8>::empty());
        }
        r
    } else {
        let st = n + 6;
        let q = find_byte_exec(head, st, 0x22);
        sub_bytes(head, st, q)
    }
}

/// The parts of a multipart body from `from` on: each delimited by
/// `delim` (two dashes and the boundary), its headers closed by a
/// blank line, its value running to the next delimiter less the
/// final line break; two dashes after a delimiter end the body.
pub open spec fn spec_parts(s: Seq<u8>, delim: Seq<u8>, from: int, fuel: nat) -> Seq<
    (Seq<u8>, Seq<u8>),
>
    decreases fuel,
{
    let crlf2 = seq![0x0du8, 0x0au8, 0x0du8, 0x0au8];
    if fuel == 0 {
        Seq::empty()
    } else {
        let d = find_sub(s, from, delim);
        if d == s.len() {
            Seq::empty()
        } else {
            let after = d + delim.len();
            if after + 2 <= s.len() && s[after] == 0x2d && s[after + 1] == 0x2d {
                Seq::empty()
            } else {
                let he = find_sub(s, after, crlf2);
                if he == s.len() {
                    Seq::empty()
                } else {
                    let cs = he + 4;
                    let e = find_sub(s, cs, delim);
                    if e == s.len() {
                        Seq::empty()
                    } else {
                        let ve = if e >= cs + 2 && s[e - 2] == 0x0d && s[e - 1] == 0x0a {
                            e - 2
                        } else {
                            e
                        };
                        seq![(part_name(s.subrange(after, he)), s.subrange(cs, ve))] + spec_parts(
                            s,
                            delim,
                            e,
                            (fuel - 1) as nat,
                        )
                    }
                }
            }
        }
    }
}

/// What a whole multipart body parses to for `boundary`.
pub open spec fn spec_parse_multipart(s: Seq<u8>, boundary: Seq<u8>) -> Seq<(Seq<u8>, Seq<u8>)> {
    spec_parts(s, seq![0x2du8, 0x2du8] + boundary, 0, s.len() + 1)
}

fn parts_from(s: &Vec<u8>, delim: &Vec<u8>, from: usize, fuel: usize) -> (r: Vec<
    (Vec<u8>, Vec<u8>),
>)
    requires
        from <= s@.len(),
    ensures
        pairs_view(r@) == spec_parts(s@, delim@, from as int, fuel as nat),
    decreases fuel,
{
    let empty_parts: Vec<(Vec<u8>, Vec<u8>)> = Vec::new();
    proof {
        assert(pairs_view(empty_parts@) =~= Seq::<(Seq<u8>, Seq<u8>)>::empty());
    }
    if fuel == 0 {
        return empty_parts;
    }
    let d = find_sub_exec(s, from, delim);
    if d == s.len() {
        return empty_parts;
    }
    let after = d + delim.len();
    if s.len() - after >= 2 && s[after] == 0x2d && s[after + 1] == 0x2d {
        return empty_parts;
    }
    let crlf2: Vec<u8> = vec![0x0d, 0x0a, 0x0d, 0x0a];
    proof {
        assert(crlf2@ =~= seq![0x0du8, 0x0au8, 0x0du8, 0x0au8]);
    }
    let he = find_sub_exec(s, after, &crlf2);
    if he == s.len() {
        return empty_parts;
    }
    let cs = he + 4;
    let e = find_sub_exec(s, cs, delim);
    if e == s.len() {
        return empty_parts;
    }
    let ve = if e - cs >= 2 && s[e - 2] == 0x0d && s[e - 1] == 0x0a {
        e - 2
    } else {
        e
    };
    let head = sub_bytes(s, after, he);
    let name = part_name_exec(&head);
    let value = sub_bytes(s, cs, ve);
    let rest = parts_from(s, delim, e, fuel - 1);
    proof {
        assert(head@ =~= s@.subrange(after as int, he as int));
    }
    push_front_pair((name, value), rest)
}

/// Parses a multipart body into its (field name, value) pairs, in
/// order.
pub fn parse_multipart(s: &Vec<u8>, boundary: &Vec<u8>) -> (r: Vec<(Vec<u8>, Vec<u8>)>)
    requires
        s@.len() < usize::MAX,
    ensures
        pairs_view(r@) == spec_parse_multipart(s@, boundary@),
{
    let mut delim: Vec<u8> = Vec::new();
    delim.push(0x2d);
    delim.push(0x2d);
    let ghost mid = delim@;
    let mut k: usize = 0;
    while k < boundary.len()
        invariant
            k <= boundary@.len(),
            delim@ == mid + boundary@.take(k as int),
            mid == seq![0x2du8, 0x2du8],
        decreases boundary@.len() - k,
    {
        delim.push(boundary[k]);
        proof {
            assert(delim@ =~= mid + boundary@.take(k + 1));
        }
        k = k + 1;
    }
    proof {
        assert(boundary@.take(boundary@.len() as int) =~= boundary@);
        assert(delim@ =~= seq![0x2du8, 0x2du8] + boundary@);
    }
    parts_from(s, &delim, 0, s.len() + 1)
}

/// A well-formed multipart body from `from` on: parts in the shape
/// `spec_parts` reads, each carrying a nonempty field name, closed
/// by a terminator (a delimiter followed by two dashes).
pub open spec fn spec_parts_wf(s: Seq<u8>, delim: Seq<u8>, from: int, fuel: nat) -> bool
    decreases fuel,
{
    let crlf2 = seq![0x0du8, 0x0au8, 0x0du8, 0x0au8];
    if fuel == 0 {
        false
    } else {
        let d = find_sub(s, from, delim);
        if d == s.len() {
            false
        } else {
            let after = d + delim.len();
            if after + 2 <= s.len() && s[after] == 0x2d && s[after + 1] == 0x2d {
                true
            } else {
                let he = find_sub(s, after, crlf2);
                if he == s.len() {
                    false
                } else {
                    let cs = he + 4;
                    let e = find_sub(s, cs, delim);
                    if e == s.len() {
                        false
                    } else if part_name(s.subrange(after, he)).len() == 0 {
                        false
                    } else {
                        spec_parts_wf(s, delim, e, (fuel - 1) as nat)
                    }
                }
            }
        }
    }
}

/// Whether a whole multipart body is well formed for `boundary`:
/// the shell answers 400 where this does not hold.
pub open spec fn spec_multipart_wellformed(s: Seq<u8>, boundary: Seq<u8>) -> bool {
    spec_parts_wf(s, seq![0x2du8, 0x2du8] + boundary, 0, s.len() + 1)
}

fn parts_wf_from(s: &Vec<u8>, delim: &Vec<u8>, from: usize, fuel: usize) -> (r: bool)
    requires
        from <= s@.len(),
    ensures
        r == spec_parts_wf(s@, delim@, from as int, fuel as nat),
    decreases fuel,
{
    if fuel == 0 {
        return false;
    }
    let d = find_sub_exec(s, from, delim);
    if d == s.len() {
        return false;
    }
    let after = d + delim.len();
    if s.len() - after >= 2 && s[after] == 0x2d && s[after + 1] == 0x2d {
        return true;
    }
    let crlf2: Vec<u8> = vec![0x0d, 0x0a, 0x0d, 0x0a];
    proof {
        assert(crlf2@ =~= seq![0x0du8, 0x0au8, 0x0du8, 0x0au8]);
    }
    let he = find_sub_exec(s, after, &crlf2);
    if he == s.len() {
        return false;
    }
    let cs = he + 4;
    let e = find_sub_exec(s, cs, delim);
    if e == s.len() {
        return false;
    }
    let head = sub_bytes(s, after, he);
    let name = part_name_exec(&head);
    proof {
        assert(head@ =~= s@.subrange(after as int, he as int));
    }
    if name.len() == 0 {
        return false;
    }
    parts_wf_from(s, delim, e, fuel - 1)
}

/// Checks a multipart body's shape: true exactly when every part is
/// delimited and named and the body ends in a terminator.
pub fn multipart_wellformed(s: &Vec<u8>, boundary: &Vec<u8>) -> (r: bool)
    requires
        s@.len() < usize::MAX,
    ensures
        r == spec_multipart_wellformed(s@, boundary@),
{
    let mut delim: Vec<u8> = Vec::new();
    delim.push(0x2d);
    delim.push(0x2d);
    let ghost mid = delim@;
    let mut k: usize = 0;
    while k < boundary.len()
        invariant
            k <= boundary@.len(),
            delim@ == mid + boundary@.take(k as int),
            mid == seq![0x2du8, 0x2du8],
        decreases boundary@.len() - k,
    {
        delim.push(boundary[k]);
        proof {
            assert(delim@ =~= mid + boundary@.take(k + 1));
        }
        k = k + 1;
    }
    proof {
        assert(boundary@.take(boundary@.len() as int) =~= boundary@);
        assert(delim@ =~= seq![0x2du8, 0x2du8] + boundary@);
    }
    parts_wf_from(s, &delim, 0, s.len() + 1)
}

/// The value bound to `key` among parsed pairs; a later binding
/// wins, as it would filling a map in order.
pub open spec fn pairs_assoc(m: Seq<(Seq<u8>, Seq<u8>)>, key: Seq<u8>) -> Option<Seq<u8>>
    decreases m.len(),
{
    if m.len() == 0 {
        None
    } else if m.last().0 == key {
        Some(m.last().1)
    } else {
        pairs_assoc(m.drop_last(), key)
    }
}

/// Looks `key` up among parsed pairs.
pub fn lookup_pair(m: &Vec<(Vec<u8>, Vec<u8>)>, key: &Vec<u8>) -> (r: Option<Vec<u8>>)
    ensures
        match r {
            Some(v) => pairs_assoc(pairs_view(m@), key@) == Some(v@),
            None => pairs_assoc(pairs_view(m@), key@) is None,
        },
{
    let ghost mv = pairs_view(m@);
    let mut i: usize = m.len();
    proof {
        assert(mv.take(m@.len() as int) =~= mv);
    }
    while i > 0
        invariant
            i <= m@.len(),
            mv == pairs_view(m@),
            pairs_assoc(mv, key@) == pairs_assoc(mv.take(i as int), key@),
        decreases i,
    {
        i = i - 1;
        proof {
            assert(mv.take(i + 1).drop_last() =~= mv.take(i as int));
            assert(mv.take(i + 1).last() == mv[i as int]);
        }
        if crate::bytes::bytes_eq(&m[i].0, key) {
            return Some(clone_bytes(&m[i].1));
        }
    }
    proof {
        assert(mv.take(0) =~= Seq::<(Seq<u8>, Seq<u8>)>::empty());
    }
    None
}

} // verus!
