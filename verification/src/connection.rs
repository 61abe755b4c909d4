//! Stateless anti-spoofing connection ids for the UDP path.
//!
//! A connection id is derived from the client's IPv4 address, the
//! current time bucket (`now / window`) and a process-wide secret;
//! nothing is stored per client. Validation recomputes the id for the
//! current and the immediately preceding bucket, so an id stays good
//! for at least one full window however late in a bucket it was
//! issued, and for at most two. The derivation packs the address and
//! the low bucket bits into the bits that the secret masks, so two
//! different addresses — or two different buckets within a horizon of
//! `2^32` buckets — can never share an id.

use vstd::prelude::*;
use vstd::arithmetic::div_mod::{
    lemma_div_is_ordered, lemma_div_multiples_vanish, lemma_fundamental_div_mod,
};
use vstd::arithmetic::mul::lemma_mul_inequality;

verus! {

/// The low 32 bits of a bucket number, as mixed into an id.
pub open spec fn bucket_low(bucket: u64) -> u64 {
    bucket & 0xFFFF_FFFF
}

/// The connection id for one client address in one time bucket.
pub open spec fn spec_connection_id(secret: u64, ip: u32, bucket: u64) -> u64 {
    secret ^ (((ip as u64) << 32) | bucket_low(bucket))
}

/// Whether `id` passes validation for `ip` at time `now`: it must be
/// the id of the current bucket or of the one just before it.
pub open spec fn spec_validate(id: u64, secret: u64, ip: u32, now: u64, window: u64) -> bool
    recommends
        window > 0,
{
    let b = now / window;
    ||| id == spec_connection_id(secret, ip, b)
    ||| (b > 0 && id == spec_connection_id(secret, ip, (b - 1) as u64))
}

/// Derives the id for one bucket.
pub fn connection_id(secret: u64, ip: u32, bucket: u64) -> (r: u64)
    ensures
        r == spec_connection_id(secret, ip, bucket),
{
    secret ^ (((ip as u64) << 32) | (bucket & 0xFFFF_FFFF))
}

/// Issues the connection id a client at `ip` gets when it connects at
/// `now`.
pub fn issue(secret: u64, ip: u32, now: u64, window: u64) -> (r: u64)
    requires
        window > 0,
    ensures
        r == spec_connection_id(secret, ip, now / window),
{
    connection_id(secret, ip, now / window)
}

/// Checks a presented connection id for `ip` at `now`.
pub fn validate(id: u64, secret: u64, ip: u32, now: u64, window: u64) -> (r: bool)
    requires
        window > 0,
    ensures
        r == spec_validate(id, secret, ip, now, window),
{
    let b = now / window;
    if id == connection_id(secret, ip, b) {
        true
    } else if b > 0 && id == connection_id(secret, ip, b - 1) {
        true
    } else {
        false
    }
}

/// Ids from different inputs differ, as long as either the address
/// differs or the buckets differ in their low 32 bits.
pub proof fn lemma_distinct_ids(secret: u64, ip1: u32, b1: u64, ip2: u32, b2: u64)
    requires
        ip1 != ip2 || bucket_low(b1) != bucket_low(b2),
    ensures
        spec_connection_id(secret, ip1, b1) != spec_connection_id(secret, ip2, b2),
{
    assert((secret ^ (((ip1 as u64) << 32) | (b1 & 0xFFFF_FFFF))) != (secret ^ (((ip2 as u64)
        << 32) | (b2 & 0xFFFF_FFFF)))) by (bit_vector)
        requires
            ip1 != ip2 || (b1 & 0xFFFF_FFFF) != (b2 & 0xFFFF_FFFF),
    ;
}

/// Buckets less than `2^32` apart differ in their low 32 bits.
pub proof fn lemma_bucket_low_distinct(b1: u64, b2: u64)
    requires
        b1 < b2,
        b2 - b1 < 0x1_0000_0000,
    ensures
        bucket_low(b1) != bucket_low(b2),
{
    assert((b1 & 0xFFFF_FFFF) != (b2 & 0xFFFF_FFFF)) by (bit_vector)
        requires
            b1 < b2 && b2 - b1 < 0x1_0000_0000,
    ;
}

/// An id issued at `issued_at` still validates at any `now` less than
/// one full window later, for the same address: the issuing bucket is
/// then still the current or the preceding one.
pub proof fn lemma_fresh_id_validates(secret: u64, ip: u32, issued_at: u64, now: u64, window: u64)
    requires
        window > 0,
        issued_at <= now,
        now < issued_at + window,
    ensures
        spec_validate(spec_connection_id(secret, ip, issued_at / window), secret, ip, now, window),
{
    let b = (issued_at / window) as int;
    let cur = (now / window) as int;
    lemma_div_is_ordered(issued_at as int, now as int, window as int);
    assert(b <= cur);
    lemma_fundamental_div_mod(issued_at as int, window as int);
    assert(issued_at == window * b + (issued_at as int % (window as int)));
    assert(now < (b + 2) * window) by (nonlinear_arith)
        requires
            now < issued_at + window,
            issued_at as int == (window as int) * b + (issued_at as int % (window as int)),
            0 <= issued_at as int % (window as int) < window as int,
            window > 0,
    ;
    if cur >= b + 2 {
        lemma_fundamental_div_mod(now as int, window as int);
        lemma_mul_inequality(b + 2, cur, window as int);
        assert(now >= (b + 2) * window);
    }
    assert(cur == b || cur == b + 1);
}

/// An id never validates for a different client address, whatever
/// bucket it was issued in and whenever it is presented.
pub proof fn lemma_wrong_address_rejected(
    secret: u64,
    issued_ip: u32,
    bucket: u64,
    other_ip: u32,
    now: u64,
    window: u64,
)
    requires
        window > 0,
        issued_ip != other_ip,
    ensures
        !spec_validate(spec_connection_id(secret, issued_ip, bucket), secret, other_ip, now, window),
{
    let cur = now / window;
    lemma_distinct_ids(secret, issued_ip, bucket, other_ip, cur);
    if cur > 0 {
        lemma_distinct_ids(secret, issued_ip, bucket, other_ip, (cur - 1) as u64);
    }
}

/// An id stops validating once two full windows have passed since it
/// was issued — its bucket is then neither current nor preceding —
/// and stays invalid for the next `2^32` buckets.
pub proof fn lemma_expired_id_rejected(secret: u64, ip: u32, issued_at: u64, now: u64, window: u64)
    requires
        window > 0,
        issued_at + 2 * window <= now,
        now / window - issued_at / window < 0x1_0000_0000,
    ensures
        !spec_validate(spec_connection_id(secret, ip, issued_at / window), secret, ip, now, window),
{
    let b = (issued_at / window) as int;
    let cur = (now / window) as int;
    lemma_fundamental_div_mod(issued_at as int, window as int);
    assert(issued_at >= window * b);
    assert((b + 2) * window <= now) by (nonlinear_arith)
        requires
            issued_at as int >= (window as int) * b,
            issued_at + 2 * window <= now,
            window > 0,
    ;
    lemma_div_is_ordered((b + 2) * window, now as int, window as int);
    lemma_div_multiples_vanish(b + 2, window as int);
    assert(((window as int) * (b + 2)) / (window as int) == b + 2);
    assert((b + 2) * window == window * (b + 2)) by (nonlinear_arith);
    assert(cur >= b + 2);
    lemma_bucket_low_distinct(issued_at / window, now / window);
    lemma_distinct_ids(secret, ip, issued_at / window, ip, now / window);
    lemma_bucket_low_distinct(issued_at / window, (cur - 1) as u64);
    lemma_distinct_ids(secret, ip, issued_at / window, ip, (cur - 1) as u64);
}

} // verus!
