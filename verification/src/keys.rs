//! Host-key generation: an opaque 32-character lowercase-hex token
//! derived from the username, the current time and fresh randomness.

use rand::Rng;
use vstd::prelude::*;

verus! {

/// The 16-byte digest that the `md5` crate computes for the given bytes.
pub uninterp spec fn md5_of(data: Seq<u8>) -> Seq<u8>;

/// True of an ASCII lowercase hex digit (`0-9a-f`).
pub open spec fn is_lower_hex(c: u8) -> bool {
    (0x30 <= c && c <= 0x39) || (0x61 <= c && c <= 0x66)
}

/// True of an ASCII alphanumeric byte (`0-9A-Za-z`).
pub open spec fn is_alnum(c: u8) -> bool {
    (0x30 <= c && c <= 0x39) || (0x41 <= c && c <= 0x5a) || (0x61 <= c && c <= 0x7a)
}

/// The lowercase hex digit for a value below 16.
pub open spec fn hex_digit(n: u8) -> u8
    recommends
        n < 16,
{
    if n < 10 {
        (n + 0x30) as u8
    } else {
        (n + 0x57) as u8
    }
}

/// Lowercase hex rendering of a byte string: two digits per byte,
/// high nibble first.
pub open spec fn hex_of(data: Seq<u8>) -> Seq<u8> {
    Seq::new(data.len() * 2, |i: int|
        if i % 2 == 0 {
            hex_digit((data[i / 2] / 16) as u8)
        } else {
            hex_digit((data[i / 2] % 16) as u8)
        })
}

/// Decimal ASCII rendering of a natural number, most significant
/// digit first, no leading zeros (`0` renders as `"0"`).
pub open spec fn dec_of(n: nat) -> Seq<u8>
    decreases n,
{
    if n < 10 {
        seq![(n + 0x30) as u8]
    } else {
        dec_of(n / 10) + seq![((n % 10) + 0x30) as u8]
    }
}

/// Decimal renderings are never empty.
pub proof fn lemma_dec_of_nonempty(n: nat)
    ensures
        dec_of(n).len() >= 1,
    decreases n,
{
    if n >= 10 {
        lemma_dec_of_nonempty(n / 10);
    }
}

/// A decimal rendering opens with a digit.
pub proof fn lemma_dec_of_first_digit(n: nat)
    ensures
        dec_of(n).len() >= 1,
        0x30 <= dec_of(n)[0] <= 0x39,
    decreases n,
{
    if n >= 10 {
        lemma_dec_of_first_digit(n / 10);
        lemma_dec_of_nonempty(n / 10);
        assert(dec_of(n)[0] == dec_of(n / 10)[0]);
    }
}

/// Distinct numbers render distinctly.
pub proof fn lemma_dec_of_injective(a: nat, b: nat)
    requires
        dec_of(a) == dec_of(b),
    ensures
        a == b,
    decreases a + b,
{
    if a < 10 && b < 10 {
        assert(dec_of(a)[0] == (a + 0x30) as u8);
        assert(dec_of(b)[0] == (b + 0x30) as u8);
        assert((a + 0x30) as u8 == a + 0x30);
        assert((b + 0x30) as u8 == b + 0x30);
        assert(a == b);
    } else if a < 10 {
        lemma_dec_of_nonempty(b / 10);
        assert(dec_of(b).len() >= 2);
        assert(dec_of(a).len() == 1);
    } else if b < 10 {
        lemma_dec_of_nonempty(a / 10);
        assert(dec_of(a).len() >= 2);
        assert(dec_of(b).len() == 1);
    } else {
        let da = dec_of(a / 10);
        let db = dec_of(b / 10);
        assert(dec_of(a) == da + seq![((a % 10) + 0x30) as u8]);
        assert(dec_of(b) == db + seq![((b % 10) + 0x30) as u8]);
        assert(dec_of(a).last() == ((a % 10) + 0x30) as u8);
        assert(dec_of(b).last() == ((b % 10) + 0x30) as u8);
        assert(dec_of(a).drop_last() =~= da);
        assert(dec_of(b).drop_last() =~= db);
        lemma_dec_of_injective(a / 10, b / 10);
        assert(a % 10 == b % 10);
        assert(a == 10 * (a / 10) + a % 10) by (nonlinear_arith);
        assert(b == 10 * (b / 10) + b % 10) by (nonlinear_arith);
        assert(a == b);
    }
}

/// Powers of ten.
pub open spec fn pow10(k: nat) -> nat
    decreases k,
{
    if k == 0 {
        1
    } else {
        10 * pow10((k - 1) as nat)
    }
}

/// A number below the k-th power of ten renders in at most k
/// digits.
pub proof fn lemma_dec_of_len_digits(n: nat, k: nat)
    requires
        1 <= k,
        n < pow10(k),
    ensures
        dec_of(n).len() <= k,
    decreases n,
{
    if n >= 10 {
        if k == 1 {
            assert(pow10(1) == 10 * pow10(0));
            assert(false);
        }
        assert(pow10(k) == 10 * pow10((k - 1) as nat));
        assert(10 * (n / 10) + n % 10 == n) by (nonlinear_arith);
        assert(n / 10 < pow10((k - 1) as nat)) by {
            if n / 10 >= pow10((k - 1) as nat) {
                assert(10 * (n / 10) >= 10 * pow10((k - 1) as nat)) by (nonlinear_arith)
                    requires
                        n / 10 >= pow10((k - 1) as nat),
                ;
                assert(10 * (n / 10) + n % 10 == n) by (nonlinear_arith);
                assert(false);
            }
        };
        lemma_dec_of_len_digits(n / 10, (k - 1) as nat);
    }
}

/// Any machine-held index renders in at most twenty digits.
pub proof fn lemma_dec_of_len_20(n: nat)
    requires
        n <= usize::MAX,
    ensures
        dec_of(n).len() <= 20,
{
    reveal_with_fuel(pow10, 21);
    assert(pow10(20) == 100000000000000000000);
    assert((usize::MAX as nat) < pow10(20));
    lemma_dec_of_len_digits(n, 20);
}

proof fn lemma_hex_digit_is_lower_hex(n: u8)
    requires
        n < 16,
    ensures
        is_lower_hex(hex_digit(n)),
{
}

/// Relies on `md5::compute`: the digest is a function of the input
/// bytes alone and is always 16 bytes long.
#[verifier::external_body]
pub(crate) fn md5_digest(data: &Vec<u8>) -> (r: Vec<u8>)
    ensures
        r@ == md5_of(data@),
        r@.len() == 16,
{
    md5::compute(data.as_slice()).0.to_vec()
}

/// Relies on `rand::Rng::sample_iter` with the `Alphanumeric`
/// distribution, which draws uniformly from `0-9A-Za-z`; only the
/// length and the character class hold of every outcome.
#[verifier::external_body]
fn random_alnum8() -> (r: Vec<u8>)
    ensures
        r@.len() == 8,
        forall|i: int| 0 <= i < r@.len() ==> is_alnum(#[trigger] r@[i]),
{
    rand::thread_rng().sample_iter(rand::distributions::Alphanumeric).take(8).collect()
}

/// Relies on `std::time::SystemTime::now`: seconds since the Unix
/// epoch. Nothing is promised of the value, which depends on the
/// clock.
#[verifier::external_body]
fn unix_time_secs() -> (r: u64)
{
    match std::time::SystemTime::now().duration_since(std::time::UNIX_EPOCH) {
        Ok(d) => d.as_secs(),
        Err(_) => 0,
    }
}

/// The lowercase-hex md5 digest of `data`: the content checksum that
/// media records carry.
pub fn checksum_hex(data: &Vec<u8>) -> (r: Vec<u8>)
    ensures
        r@ == hex_of(md5_of(data@)),
{
    let digest = md5_digest(data);
    to_hex(&digest)
}

/// Renders `data` as lowercase hex, two digits per byte.
pub fn to_hex(data: &Vec<u8>) -> (r: Vec<u8>)
    ensures
        r@ == hex_of(data@),
        r@.len() == 2 * data@.len(),
        forall|i: int| 0 <= i < r@.len() ==> is_lower_hex(#[trigger] r@[i]),
{
    let mut r: Vec<u8> = Vec::new();
    let mut k: usize = 0;
    while k < data.len()
        invariant
            k <= data@.len(),
            r@ == hex_of(data@.take(k as int)),
        decreases data@.len() - k,
    {
        let b = data[k];
        r.push(if b / 16 < 10 { b / 16 + 0x30 } else { b / 16 + 0x57 });
        r.push(if b % 16 < 10 { b % 16 + 0x30 } else { b % 16 + 0x57 });
        proof {
            assert(r@ =~= hex_of(data@.take(k + 1)));
        }
        k = k + 1;
    }
    proof {
        assert(data@.take(data@.len() as int) =~= data@);
        assert(forall|i: int| 0 <= i < r@.len() ==> is_lower_hex(#[trigger] r@[i])) by {
            assert forall|i: int| 0 <= i < r@.len() implies is_lower_hex(#[trigger] r@[i]) by {
                if i % 2 == 0 {
                    lemma_hex_digit_is_lower_hex((data@[i / 2] / 16) as u8);
                } else {
                    lemma_hex_digit_is_lower_hex((data@[i / 2] % 16) as u8);
                }
            }
        }
    }
    r
}

/// Renders `n` in decimal ASCII.
pub fn u64_to_dec(n: u64) -> (r: Vec<u8>)
    ensures
        r@ == dec_of(n as nat),
{
    let mut digits: Vec<u8> = Vec::new();
    let mut m: u64 = n;
    loop
        invariant_except_break
            digits@.len() > 0 ==> m > 0,
        invariant
            dec_of(n as nat) == if digits@.len() == 0 {
                dec_of(m as nat)
            } else if m == 0 {
                digits@.reverse()
            } else {
                dec_of(m as nat) + digits@.reverse()
            },
        ensures
            digits@.len() > 0,
            m == 0,
        decreases m,
    {
        let ghost m0 = m as nat;
        let ghost d0 = digits@;
        let d: u8 = (m % 10) as u8 + 0x30;
        digits.push(d);
        m = m / 10;
        proof {
            assert(digits@.reverse() =~= seq![d] + d0.reverse());
            if m0 < 10 {
                assert(dec_of(m0) =~= seq![d]);
            }
            if d0.len() == 0 {
                if m == 0 {
                    assert(digits@.reverse() =~= dec_of(m0));
                } else {
                    assert(dec_of(m0) == dec_of(m0 / 10) + seq![((m0 % 10) + 0x30) as u8]);
                    assert(dec_of(m as nat) + digits@.reverse() =~= dec_of(m0));
                }
            } else {
                assert(dec_of(n as nat) == dec_of(m0) + d0.reverse());
                if m == 0 {
                    assert(dec_of(n as nat) =~= digits@.reverse());
                } else {
                    assert(dec_of(m0) == dec_of(m0 / 10) + seq![((m0 % 10) + 0x30) as u8]);
                    assert(dec_of(n as nat) =~= dec_of(m as nat) + digits@.reverse());
                }
            }
        }
        if m == 0 {
            break;
        }
    }
    let mut r: Vec<u8> = Vec::new();
    let mut k: usize = digits.len();
    while k > 0
        invariant
            k <= digits@.len(),
            r@ == digits@.reverse().take(digits@.len() - k),
        decreases k,
    {
        k = k - 1;
        r.push(digits[k]);
        proof {
            assert(r@ =~= digits@.reverse().take(digits@.len() - k));
        }
    }
    proof {
        assert(digits@.reverse().take(digits@.len() as int) =~= digits@.reverse());
    }
    r
}

/// The seed string that a host-key digests: `username:seconds:randoms`
/// joined by ASCII colons.
pub open spec fn hostkey_seed(username: Seq<u8>, secs: nat, randoms: Seq<u8>) -> Seq<u8> {
    username + seq![0x3au8] + dec_of(secs) + seq![0x3au8] + randoms
}

/// Mints a host-key for `username`: the lowercase-hex md5 digest of
/// `username:unix_seconds:8_random_alphanumerics`. The time and the
/// randomness vary per call, so only the shape is promised: 32
/// lowercase hex characters, the digest of a seed of that form.
pub fn gen_hostkey(username: &Vec<u8>) -> (r: Vec<u8>)
    ensures
        r@.len() == 32,
        forall|i: int| 0 <= i < r@.len() ==> is_lower_hex(#[trigger] r@[i]),
        exists|secs: nat, randoms: Seq<u8>|
            {
                &&& randoms.len() == 8
                &&& (forall|i: int| 0 <= i < randoms.len() ==> is_alnum(#[trigger] randoms[i]))
                &&& r@ == hex_of(md5_of(hostkey_seed(username@, secs, randoms)))
            },
{
    let secs = unix_time_secs();
    let randoms = random_alnum8();
    let mut seed: Vec<u8> = Vec::new();
    let mut k: usize = 0;
    while k < username.len()
        invariant
            k <= username@.len(),
            seed@ == username@.take(k as int),
        decreases username@.len() - k,
    {
        seed.push(username[k]);
        k = k + 1;
    }
    proof {
        assert(username@.take(username@.len() as int) =~= username@);
    }
    seed.push(0x3a);
    let ts = u64_to_dec(secs);
    let mut k2: usize = 0;
    let ghost mid = seed@;
    while k2 < ts.len()
        invariant
            k2 <= ts@.len(),
            seed@ == mid + ts@.take(k2 as int),
        decreases ts@.len() - k2,
    {
        seed.push(ts[k2]);
        proof {
            assert(seed@ =~= mid + ts@.take(k2 + 1));
        }
        k2 = k2 + 1;
    }
    seed.push(0x3a);
    let mut k3: usize = 0;
    let ghost mid2 = seed@;
    while k3 < randoms.len()
        invariant
            k3 <= randoms@.len(),
            seed@ == mid2 + randoms@.take(k3 as int),
        decreases randoms@.len() - k3,
    {
        seed.push(randoms[k3]);
        proof {
            assert(seed@ =~= mid2 + randoms@.take(k3 + 1));
        }
        k3 = k3 + 1;
    }
    proof {
        assert(seed@ =~= hostkey_seed(username@, secs as nat, randoms@));
    }
    let digest = md5_digest(&seed);
    let r = to_hex(&digest);
    proof {
        assert(r@ == hex_of(md5_of(hostkey_seed(username@, secs as nat, randoms@))));
    }
    r
}

} // verus!
