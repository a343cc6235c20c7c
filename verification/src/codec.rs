//! The auction element codec: fixed-width binary order records.
//!
//! A page of auction data is a plain concatenation of 112-byte records,
//! each holding one order's owner, balance snapshot, token pair, validity
//! window and amounts, all big-endian. A page fails to decode only when
//! its length is not a multiple of 112 or a record trades a token against
//! itself.

use crate::models::{Address, Order};
use crate::wide_math::{ceil_div, mul_div_ceil};
use vstd::arithmetic::div_mod::{
    lemma_div_denominator, lemma_fundamental_div_mod,
};
use vstd::arithmetic::power::pow;
use vstd::prelude::*;

verus! {

/// The fixed size of one encoded auction element.
pub const ELEMENT_SIZE: usize = 112;

/// `256^n`: the number of values `n` bytes can hold.
pub open spec fn pow256(n: nat) -> int {
    pow(256, n)
}

/// The value of a big-endian byte string.
pub open spec fn be_val(s: Seq<u8>) -> int
    decreases s.len(),
{
    if s.len() == 0 {
        0
    } else {
        be_val(s.drop_last()) * 256 + s.last()
    }
}

/// A big-endian byte string of length `n` holds a value below `256^n`.
pub proof fn lemma_be_val_bound(s: Seq<u8>)
    ensures
        0 <= be_val(s) < pow256(s.len()),
    decreases s.len(),
{
    if s.len() == 0 {
        assert(pow256(0) == 1) by {
            vstd::arithmetic::power::lemma_pow0(256);
        }
    } else {
        lemma_be_val_bound(s.drop_last());
        assert(pow256(s.len()) == 256 * pow256((s.len() - 1) as nat)) by {
            lemma_pow256_unfold((s.len() - 1) as nat);
        }
        assert(be_val(s.drop_last()) * 256 + 255 < 256 * pow256((s.len() - 1) as nat))
            by (nonlinear_arith)
            requires
                be_val(s.drop_last()) < pow256((s.len() - 1) as nat),
        ;
    }
}

/// Appending one byte multiplies the capacity by 256.
proof fn lemma_pow256_unfold(k: nat)
    ensures
        pow256(k + 1) == 256 * pow256(k),
{
    vstd::arithmetic::power::lemma_pow_adds(256, 1, k);
    vstd::arithmetic::power::lemma_pow1(256);
}

/// The values a `u128` can hold are exactly those of sixteen bytes.
proof fn lemma_pow256_constants()
    ensures
        pow256(1) == 0x100,
        pow256(2) == 0x1_0000,
        pow256(4) == 0x1_0000_0000,
        pow256(16) == 0x1_0000_0000_0000_0000_0000_0000_0000_0000,
{
    vstd::arithmetic::power::lemma_pow1(256);
    vstd::arithmetic::power::lemma_pow_adds(256, 1, 1);
    vstd::arithmetic::power::lemma_pow_adds(256, 2, 2);
    vstd::arithmetic::power::lemma_pow_adds(256, 4, 4);
    vstd::arithmetic::power::lemma_pow_adds(256, 8, 8);
    assert(pow256(2) == 0x1_0000) by (nonlinear_arith)
        requires
            pow256(2) == pow256(1) * pow256(1),
            pow256(1) == 0x100,
    ;
    assert(pow256(4) == 0x1_0000_0000) by (nonlinear_arith)
        requires
            pow256(4) == pow256(2) * pow256(2),
            pow256(2) == 0x1_0000,
    ;
    assert(pow256(8) == 0x1_0000_0000_0000_0000) by (nonlinear_arith)
        requires
            pow256(8) == pow256(4) * pow256(4),
            pow256(4) == 0x1_0000_0000,
    ;
    assert(pow256(16) == 0x1_0000_0000_0000_0000_0000_0000_0000_0000) by (nonlinear_arith)
        requires
            pow256(16) == pow256(8) * pow256(8),
            pow256(8) == 0x1_0000_0000_0000_0000,
    ;
}

/// Reads the big-endian value of `bytes[start..start + n]`, for `n <= 16`.
fn read_be(bytes: &Vec<u8>, start: usize, n: usize) -> (r: u128)
    requires
        n <= 16,
        start + n <= bytes@.len(),
    ensures
        r == be_val(bytes@.subrange(start as int, start + n)),
{
    let total = bytes.len();
    let mut acc: u128 = 0;
    let mut i: usize = 0;
    proof {
        assert(bytes@.subrange(start as int, start as int).len() == 0);
        assert(pow256(0) == 1) by {
            vstd::arithmetic::power::lemma_pow0(256);
        }
    }
    while i < n
        invariant
            n <= 16,
            start + n <= bytes@.len(),
            total == bytes@.len(),
            i <= n,
            acc == be_val(bytes@.subrange(start as int, start + i)),
            acc < pow256(i as nat),
        decreases n - i,
    {
        proof {
            lemma_pow256_constants();
            assert(pow256((i + 1) as nat) == 256 * pow256(i as nat)) by {
                lemma_pow256_unfold(i as nat);
            }
            if (i + 1) as nat <= 16 {
                assert(pow256((i + 1) as nat) <= pow256(16)) by {
                    if ((i + 1) as nat) < 16 {
                        vstd::arithmetic::power::lemma_pow_strictly_increases(
                            256, (i + 1) as nat, 16);
                    }
                }
            }
            let sub = bytes@.subrange(start as int, start + i + 1);
            assert(sub.drop_last() =~= bytes@.subrange(start as int, start + i));
            assert(sub.last() == bytes@[start + i]);
            assert((acc as int) * 256 + 255 < pow256(16)) by {
                assert((acc as int) * 256 <= 256 * pow256(i as nat) - 256);
            }
        }
        acc = acc * 256 + (bytes[start + i] as u128);
        i = i + 1;
    }
    acc
}

/// Appends the `n`-byte big-endian encoding of `v`.
fn write_be(out: &mut Vec<u8>, v: u128, n: usize)
    requires
        n <= 16,
        v < pow256(n as nat),
    ensures
        final(out)@.len() == old(out)@.len() + n,
        final(out)@.subrange(0, old(out)@.len() as int) == old(out)@,
        be_val(final(out)@.subrange(old(out)@.len() as int, final(out)@.len() as int)) == v,
{
    let ghost base = out@.len() as int;
    // The divisor that exposes the most significant remaining byte.
    let mut d: u128 = 1;
    let mut k: usize = 1;
    proof {
        assert(pow256(0) == 1) by {
            vstd::arithmetic::power::lemma_pow0(256);
        }
    }
    while k < n
        invariant
            k <= 16,
            n <= 16,
            1 <= k,
            n >= 1 ==> k <= n,
            d == pow256((k - 1) as nat),
        decreases n - k,
    {
        proof {
            lemma_pow256_constants();
            assert(pow256(k as nat) == 256 * pow256((k - 1) as nat)) by {
                lemma_pow256_unfold((k - 1) as nat);
            }
            assert(pow256(k as nat) <= pow256(15)) by {
                if (k as nat) < 15 {
                    vstd::arithmetic::power::lemma_pow_strictly_increases(256, k as nat, 15);
                }
            }
            assert(pow256(15) < pow256(16)) by {
                vstd::arithmetic::power::lemma_pow_strictly_increases(256, 15, 16);
            }
        }
        d = d * 256;
        k = k + 1;
    }
    let mut i: usize = 0;
    proof {
        assert(out@.subrange(base, base).len() == 0);
        assert(pow256(0) == 1) by {
            vstd::arithmetic::power::lemma_pow0(256);
        }
        if n > 0 {
            assert((v as int) / pow256(n as nat) == 0) by {
                vstd::arithmetic::div_mod::lemma_basic_div(v as int, pow256(n as nat));
            }
        }
    }
    while i < n
        invariant
            n <= 16,
            i <= n,
            i < n ==> d == pow256((n - 1 - i) as nat),
            v < pow256(n as nat),
            out@.len() == base + i,
            base <= out@.len(),
            out@.subrange(0, base) == old(out)@.subrange(0, base),
            out@.subrange(0, base).len() == base,
            old(out)@ == old(out)@.subrange(0, base),
            be_val(out@.subrange(base, base + i)) == (v as int) / pow256((n - i) as nat),
        decreases n - i,
    {
        proof {
            lemma_pow256_constants();
            vstd::arithmetic::power::lemma_pow_positive(256, (n - 1 - i) as nat);
            lemma_be_step(v as int, (n - 1 - i) as nat);
        }
        let b: u8 = ((v / d) % 256) as u8;
        let ghost before = out@;
        out.push(b);
        proof {
            assert(out@.subrange(base, base + i + 1).drop_last() =~= before.subrange(
                base, base + i));
            assert(out@.subrange(base, base + i + 1).last() == b);
            assert(out@.subrange(0, base) =~= before.subrange(0, base));
            assert(pow256(((n - i) as nat)) == 256 * pow256((n - 1 - i) as nat)) by {
                lemma_pow256_unfold((n - 1 - i) as nat);
            }
        }
        if i + 1 < n {
            proof {
                assert(pow256((n - 1 - i) as nat) == 256 * pow256((n - 2 - i) as nat)) by {
                    lemma_pow256_unfold((n - 2 - i) as nat);
                }
            }
            d = d / 256;
        }
        i = i + 1;
    }
    proof {
        assert(pow256(0) == 1) by {
            vstd::arithmetic::power::lemma_pow0(256);
        }
        assert(out@.subrange(0, base) =~= old(out)@);
    }
}

/// Exposing one more big-endian byte: `v/256^k == 256*(v/256^(k+1)) + (v/256^k) % 256`.
proof fn lemma_be_step(v: int, k: nat)
    requires
        v >= 0,
    ensures
        v / pow256(k + 1) * 256 + (v / pow256(k)) % 256 == v / pow256(k),
{
    vstd::arithmetic::power::lemma_pow_positive(256, k);
    lemma_pow256_unfold(k);
    lemma_fundamental_div_mod(v / pow256(k), 256);
    lemma_div_denominator(v, pow256(k), 256);
    assert(pow256(k) * 256 == 256 * pow256(k)) by (nonlinear_arith);
    assert((v / pow256(k)) / 256 == v / pow256(k + 1));
}

/// One order record of an auction page.
#[derive(Clone, Copy, Debug, PartialEq, Eq, Structural)]
pub struct AuctionElement {
    pub owner: Address,
    pub sell_token_balance: u128,
    pub buy_token: u16,
    pub sell_token: u16,
    pub valid_from: u32,
    pub valid_until: u32,
    pub price_numerator: u128,
    pub price_denominator: u128,
    pub remaining_amount: u128,
}

/// The element a 112-byte record denotes. The balance field occupies 32
/// bytes on the wire but only its low sixteen bytes carry a value.
pub open spec fn spec_element_of(rec: Seq<u8>) -> AuctionElement {
    AuctionElement {
        owner: Address {
            hi: be_val(rec.subrange(0, 4)) as u32,
            lo: be_val(rec.subrange(4, 20)) as u128,
        },
        sell_token_balance: be_val(rec.subrange(36, 52)) as u128,
        buy_token: be_val(rec.subrange(52, 54)) as u16,
        sell_token: be_val(rec.subrange(54, 56)) as u16,
        valid_from: be_val(rec.subrange(56, 60)) as u32,
        valid_until: be_val(rec.subrange(60, 64)) as u32,
        price_numerator: be_val(rec.subrange(64, 80)) as u128,
        price_denominator: be_val(rec.subrange(80, 96)) as u128,
        remaining_amount: be_val(rec.subrange(96, 112)) as u128,
    }
}

/// Decodes the record at `bytes[start..start + 112]`.
pub fn decode_element(bytes: &Vec<u8>, start: usize) -> (r: AuctionElement)
    requires
        start + ELEMENT_SIZE <= bytes@.len(),
    ensures
        r == spec_element_of(bytes@.subrange(start as int, start + ELEMENT_SIZE)),
{
    let total = bytes.len();
    let ghost rec = bytes@.subrange(start as int, start + ELEMENT_SIZE);
    proof {
        assert(start + ELEMENT_SIZE <= total);
        lemma_pow256_constants();
        lemma_be_val_bound(rec.subrange(0, 4));
        lemma_be_val_bound(rec.subrange(4, 20));
        lemma_be_val_bound(rec.subrange(36, 52));
        lemma_be_val_bound(rec.subrange(52, 54));
        lemma_be_val_bound(rec.subrange(54, 56));
        lemma_be_val_bound(rec.subrange(56, 60));
        lemma_be_val_bound(rec.subrange(60, 64));
        assert(pow256(4) <= pow256(16) && pow256(2) <= pow256(16) && pow256((20 - 4) as nat) == pow256(16))
            by {
            vstd::arithmetic::power::lemma_pow_strictly_increases(256, 4, 16);
            vstd::arithmetic::power::lemma_pow_strictly_increases(256, 2, 16);
        }
        assert forall|a: int, b: int|
            start <= a && a <= b && b <= start + ELEMENT_SIZE implies bytes@.subrange(a, b)
            =~= rec.subrange(a - start, b - start) by {}
    }
    AuctionElement {
        owner: Address {
            hi: read_be(bytes, start, 4) as u32,
            lo: read_be(bytes, start + 4, 16),
        },
        sell_token_balance: read_be(bytes, start + 36, 16),
        buy_token: read_be(bytes, start + 52, 2) as u16,
        sell_token: read_be(bytes, start + 54, 2) as u16,
        valid_from: read_be(bytes, start + 56, 4) as u32,
        valid_until: read_be(bytes, start + 60, 4) as u32,
        price_numerator: read_be(bytes, start + 64, 16),
        price_denominator: read_be(bytes, start + 80, 16),
        remaining_amount: read_be(bytes, start + 96, 16),
    }
}

/// Encodes the element as its 112-byte record. Decoding the result gives
/// the element back: the codec round-trips.
pub fn encode_element(e: &AuctionElement) -> (r: Vec<u8>)
    ensures
        r@.len() == ELEMENT_SIZE,
        spec_element_of(r@) == *e,
{
    let mut out: Vec<u8> = Vec::new();
    proof {
        lemma_pow256_constants();
        assert(pow256(2) < pow256(16) && pow256(4) < pow256(16)) by {
            vstd::arithmetic::power::lemma_pow_strictly_increases(256, 2, 16);
            vstd::arithmetic::power::lemma_pow_strictly_increases(256, 4, 16);
        }
    }
    write_be(&mut out, e.owner.hi as u128, 4);
    let ghost s1 = out@;
    write_be(&mut out, e.owner.lo, 16);
    let ghost s2 = out@;
    write_be(&mut out, 0, 16);
    let ghost s3 = out@;
    write_be(&mut out, e.sell_token_balance, 16);
    let ghost s4 = out@;
    write_be(&mut out, e.buy_token as u128, 2);
    let ghost s5 = out@;
    write_be(&mut out, e.sell_token as u128, 2);
    let ghost s6 = out@;
    write_be(&mut out, e.valid_from as u128, 4);
    let ghost s7 = out@;
    write_be(&mut out, e.valid_until as u128, 4);
    let ghost s8 = out@;
    write_be(&mut out, e.price_numerator, 16);
    let ghost s9 = out@;
    write_be(&mut out, e.price_denominator, 16);
    let ghost s10 = out@;
    write_be(&mut out, e.remaining_amount, 16);
    proof {
        let f = out@;
        lemma_prefix_points(f, s10, 96);
        lemma_prefix_points(s10, s9, 80);
        lemma_prefix_points(s9, s8, 64);
        lemma_prefix_points(s8, s7, 60);
        lemma_prefix_points(s7, s6, 56);
        lemma_prefix_points(s6, s5, 54);
        lemma_prefix_points(s5, s4, 52);
        lemma_prefix_points(s4, s3, 36);
        lemma_prefix_points(s3, s2, 20);
        lemma_prefix_points(s2, s1, 4);
        assert(f.subrange(0, 4) =~= s1.subrange(0, 4));
        assert(f.subrange(4, 20) =~= s2.subrange(4, 20));
        assert(f.subrange(36, 52) =~= s4.subrange(36, 52));
        assert(f.subrange(52, 54) =~= s5.subrange(52, 54));
        assert(f.subrange(54, 56) =~= s6.subrange(54, 56));
        assert(f.subrange(56, 60) =~= s7.subrange(56, 60));
        assert(f.subrange(60, 64) =~= s8.subrange(60, 64));
        assert(f.subrange(64, 80) =~= s9.subrange(64, 80));
        assert(f.subrange(80, 96) =~= s10.subrange(80, 96));
        assert(be_val(f.subrange(0, 4)) == e.owner.hi);
        assert(be_val(f.subrange(4, 20)) == e.owner.lo);
        assert(be_val(f.subrange(36, 52)) == e.sell_token_balance);
        assert(be_val(f.subrange(52, 54)) == e.buy_token);
        assert(be_val(f.subrange(54, 56)) == e.sell_token);
        assert(be_val(f.subrange(56, 60)) == e.valid_from);
        assert(be_val(f.subrange(60, 64)) == e.valid_until);
        assert(be_val(f.subrange(64, 80)) == e.price_numerator);
        assert(be_val(f.subrange(80, 96)) == e.price_denominator);
        assert(be_val(f.subrange(96, 112)) == e.remaining_amount);
        assert(spec_element_of(f).owner == e.owner);
        assert(spec_element_of(f) == *e);
    }
    out
}

/// A shared prefix means shared bytes, position by position.
proof fn lemma_prefix_points(a: Seq<u8>, b: Seq<u8>, l: int)
    requires
        0 <= l <= a.len(),
        a.subrange(0, l) == b,
    ensures
        forall|i: int| 0 <= i < l ==> a[i] == b[i],
{
    assert forall|i: int| 0 <= i < l implies a[i] == b[i] by {
        assert(a.subrange(0, l)[i] == a[i]);
    }
}

/// Why a page fails to decode.
#[derive(Clone, Copy, Debug, PartialEq, Eq, Structural)]
pub enum CodecError {
    CorruptPage,
}

/// The `k`-th 112-byte record of a page.
pub open spec fn spec_record(bytes: Seq<u8>, k: int) -> Seq<u8> {
    bytes.subrange(112 * k, 112 * k + 112)
}

/// A page decodes iff its length is a whole number of records and no
/// record trades a token against itself.
pub open spec fn spec_page_ok(bytes: Seq<u8>) -> bool {
    &&& bytes.len() % 112 == 0
    &&& forall|k: int|
        0 <= k < bytes.len() / 112 ==> (#[trigger] spec_element_of(spec_record(bytes, k))).sell_token
            != spec_element_of(spec_record(bytes, k)).buy_token
}

/// Decodes a whole page into its auction elements.
pub fn decode_page(bytes: &Vec<u8>) -> (r: Result<Vec<AuctionElement>, CodecError>)
    ensures
        match r {
            Ok(v) => {
                &&& spec_page_ok(bytes@)
                &&& v@.len() == bytes@.len() / 112
                &&& forall|k: int|
                    0 <= k < v@.len() ==> #[trigger] v@[k] == spec_element_of(
                        spec_record(bytes@, k))
            },
            Err(err) => err == CodecError::CorruptPage && !spec_page_ok(bytes@),
        },
{
    let total = bytes.len();
    if total % ELEMENT_SIZE != 0 {
        return Err(CodecError::CorruptPage);
    }
    let n = total / ELEMENT_SIZE;
    proof {
        vstd::arithmetic::div_mod::lemma_fundamental_div_mod(total as int, 112);
    }
    let mut out: Vec<AuctionElement> = Vec::new();
    let mut k: usize = 0;
    while k < n
        invariant
            total == bytes@.len(),
            total % 112 == 0,
            n == total / 112,
            (n as int) * 112 == total,
            k <= n,
            out@.len() == k,
            forall|j: int|
                0 <= j < k ==> #[trigger] out@[j] == spec_element_of(spec_record(bytes@, j))
                    && out@[j].sell_token != out@[j].buy_token,
        decreases n - k,
    {
        proof {
            assert((k as int) * 112 + 112 <= (n as int) * 112) by (nonlinear_arith)
                requires
                    k < n,
            ;
            assert((k as int) * 112 >= 0) by (nonlinear_arith)
                requires
                    k >= 0,
            ;
        }
        let start = k * ELEMENT_SIZE;
        let element = decode_element(bytes, start);
        proof {
            assert(bytes@.subrange(start as int, start + ELEMENT_SIZE) =~= spec_record(
                bytes@, k as int));
        }
        if element.sell_token == element.buy_token {
            return Err(CodecError::CorruptPage);
        }
        out.push(element);
        k = k + 1;
    }
    proof {
        assert forall|j: int|
            0 <= j < bytes@.len() / 112 implies (#[trigger] spec_element_of(
            spec_record(bytes@, j))).sell_token != spec_element_of(
            spec_record(bytes@, j)).buy_token by {
            assert(out@[j] == spec_element_of(spec_record(bytes@, j)));
        }
    }
    Ok(out)
}

/// Encodes a list of elements as one page: their records concatenated in
/// order. Each record of the result decodes back to its element, so a
/// page built from self-consistent elements (no self-trades) decodes to
/// exactly the list it was built from.
pub fn encode_page(elements: &Vec<AuctionElement>) -> (r: Vec<u8>)
    ensures
        r@.len() == 112 * elements@.len(),
        forall|k: int|
            0 <= k < elements@.len() ==> spec_element_of(spec_record(r@, k)) == elements@[k],
        (forall|k: int|
            0 <= k < elements@.len() ==> (#[trigger] elements@[k]).sell_token
                != elements@[k].buy_token) ==> spec_page_ok(r@),
{
    let mut out: Vec<u8> = Vec::new();
    let mut i: usize = 0;
    while i < elements.len()
        invariant
            i <= elements@.len(),
            out@.len() == 112 * i,
            forall|k: int|
                0 <= k < i ==> spec_element_of(spec_record(out@, k)) == elements@[k],
        decreases elements@.len() - i,
    {
        let mut block = encode_element(&elements[i]);
        let ghost before = out@;
        let ghost bv = block@;
        out.append(&mut block);
        proof {
            assert(out@ == before + bv);
            assert forall|k: int|
                0 <= k < i implies spec_element_of(spec_record(out@, k)) == elements@[k] by {
                assert(spec_record(out@, k) =~= spec_record(before, k));
            }
            assert(spec_record(out@, i as int) =~= bv);
        }
        i = i + 1;
    }
    proof {
        if forall|k: int|
            0 <= k < elements@.len() ==> (#[trigger] elements@[k]).sell_token
                != elements@[k].buy_token {
            let n = elements@.len() as int;
            vstd::arithmetic::div_mod::lemma_mod_multiples_basic(n, 112);
            assert(112 * n == n * 112) by (nonlinear_arith);
            assert(out@.len() % 112 == 0);
            vstd::arithmetic::div_mod::lemma_div_multiples_vanish(n, 112);
            assert((112 * n) / 112 == n);
            assert forall|k: int|
                0 <= k < out@.len() / 112 implies (#[trigger] spec_element_of(
                spec_record(out@, k))).sell_token != spec_element_of(
                spec_record(out@, k)).buy_token by {
                assert(spec_element_of(spec_record(out@, k)) == elements@[k]);
            }
        }
    }
    out
}

/// The buy amount that the remaining sell budget still commands at the
/// order's limit ratio, rounded up; a record with no sell budget at all
/// (a zero denominator) commands nothing, and a product beyond 128 bits
/// saturates.
pub open spec fn spec_scaled_buy(e: AuctionElement) -> u128 {
    if e.price_denominator == 0 {
        0
    } else {
        let v = ceil_div(e.price_numerator * e.remaining_amount, e.price_denominator as int);
        if v <= u128::MAX {
            v as u128
        } else {
            u128::MAX
        }
    }
}

/// The order a record stands for in a snapshot, under the given per-user
/// order id: it can still sell its remaining amount, and asks for the
/// proportional share of its buy amount.
pub open spec fn spec_order_of(e: AuctionElement, id: u16) -> Order {
    Order {
        id,
        account_id: e.owner,
        buy_token: e.buy_token,
        sell_token: e.sell_token,
        buy_amount: spec_scaled_buy(e),
        sell_amount: e.remaining_amount,
    }
}

impl AuctionElement {
    /// Converts the record into the snapshot order with the given id.
    pub fn to_order(&self, id: u16) -> (r: Order)
        ensures
            r == spec_order_of(*self, id),
    {
        let buy_amount: u128 = if self.price_denominator == 0 {
            0
        } else {
            match mul_div_ceil(self.price_numerator, self.remaining_amount, self.price_denominator)
                {
                Some(v) => v,
                None => u128::MAX,
            }
        };
        Order {
            id,
            account_id: self.owner,
            buy_token: self.buy_token,
            sell_token: self.sell_token,
            buy_amount,
            sell_amount: self.remaining_amount,
        }
    }
}

} // verus!
