//! Fixed-size values of the Ethereum world as plain bytes and limbs:
//! 20-byte addresses and 256-bit unsigned integers.

use vstd::prelude::*;

verus! {

/// The unsigned integer that `bytes` spells in big-endian order.
pub open spec fn be_value(bytes: Seq<u8>) -> nat
    decreases bytes.len(),
{
    if bytes.len() == 0 {
        0
    } else {
        be_value(bytes.drop_last()) * 256 + bytes.last() as nat
    }
}

/// `256` raised to the power `n`.
pub open spec fn pow256(n: nat) -> nat
    decreases n,
{
    if n == 0 {
        1
    } else {
        pow256((n - 1) as nat) * 256
    }
}

/// A big-endian value of `n` bytes stays below `256^n`.
pub proof fn lemma_be_value_bound(bytes: Seq<u8>)
    ensures
        be_value(bytes) < pow256(bytes.len()),
    decreases bytes.len(),
{
    if bytes.len() > 0 {
        lemma_be_value_bound(bytes.drop_last());
    }
}

/// `256^n` grows with `n`.
pub proof fn lemma_pow256_monotone(n: nat)
    ensures
        pow256(n) <= pow256(n + 1),
        pow256(n) >= 1,
    decreases n,
{
    if n > 0 {
        lemma_pow256_monotone((n - 1) as nat);
    }
}

/// `256^m <= 256^n` whenever `m <= n`.
pub proof fn lemma_pow256_monotone_between(m: nat, n: nat)
    requires
        m <= n,
    ensures
        pow256(m) <= pow256(n),
    decreases n - m,
{
    if m < n {
        lemma_pow256_monotone_between(m, (n - 1) as nat);
        lemma_pow256_monotone((n - 1) as nat);
    }
}

/// The value of limbs stored least significant first, 64 bits each.
pub open spec fn limbs_value(limbs: Seq<u64>) -> nat
    recommends
        limbs.len() == 4,
{
    limbs[0] as nat + limbs[1] as nat * 0x1_0000_0000_0000_0000nat + limbs[2] as nat
        * 0x1_0000_0000_0000_0000_0000_0000_0000_0000nat + limbs[3] as nat
        * 0x1_0000_0000_0000_0000_0000_0000_0000_0000_0000_0000_0000_0000nat
}

/// The numeric value of a hexadecimal digit, upper or lower case.
pub open spec fn hex_digit_value(c: char) -> Option<nat> {
    if '0' <= c && c <= '9' {
        Some((c as nat - '0' as nat) as nat)
    } else if 'a' <= c && c <= 'f' {
        Some((c as nat - 'a' as nat + 10) as nat)
    } else if 'A' <= c && c <= 'F' {
        Some((c as nat - 'A' as nat + 10) as nat)
    } else {
        None
    }
}

/// The digits of a hexadecimal text: the text without a leading `0x` or `0X`.
pub open spec fn hex_digits(text: Seq<char>) -> Seq<char> {
    if text.len() >= 2 && text[0] == '0' && (text[1] == 'x' || text[1] == 'X') {
        text.skip(2)
    } else {
        text
    }
}

/// `text` spells a 20-byte address: forty hexadecimal digits, with or without
/// a `0x` prefix.
pub open spec fn is_address_text(text: Seq<char>) -> bool {
    let digits = hex_digits(text);
    &&& digits.len() == 40
    &&& forall|i: int| 0 <= i < 40 ==> (#[trigger] hex_digit_value(digits[i])) is Some
}

/// Byte `i` of the address that `text` spells: digits `2i` and `2i + 1`.
pub open spec fn address_text_byte(text: Seq<char>, i: int) -> nat {
    let digits = hex_digits(text);
    hex_digit_value(digits[2 * i]).unwrap() * 16 + hex_digit_value(digits[2 * i + 1]).unwrap()
}

/// A 20-byte account or contract address.
#[derive(Clone, Copy, Debug, PartialEq, Eq)]
pub struct Address {
    pub bytes: [u8; 20],
}

impl Address {
    pub fn from_bytes(bytes: [u8; 20]) -> (a: Address)
        ensures
            a.bytes == bytes,
    {
        Address { bytes }
    }

    /// Whether two addresses are the same.
    pub fn equals(&self, other: &Address) -> (r: bool)
        ensures
            r == (*self == *other),
    {
        let mut i: usize = 0;
        while i < 20
            invariant
                0 <= i <= 20,
                forall|j: int| 0 <= j < i ==> self.bytes[j] == other.bytes[j],
            decreases 20 - i,
        {
            if self.bytes[i] != other.bytes[i] {
                return false;
            }
            i = i + 1;
        }
        assert(self.bytes =~= other.bytes);
        true
    }
}

/// `FromStr` of `alloy_primitives::Address`: it strips a leading `0x` or
/// `0X`, and succeeds exactly on forty hexadecimal digits of either case,
/// each pair of digits giving one byte, most significant digit first.
#[verifier::external_body]
fn alloy_address_from_str(text: &str) -> (r: Option<[u8; 20]>)
    ensures
        r is Some <==> is_address_text(text@),
        r matches Some(bytes) ==> forall|i: int|
            0 <= i < 20 ==> bytes[i] as nat == #[trigger] address_text_byte(text@, i),
{
    match text.parse::<alloy::primitives::Address>() {
        Ok(address) => Some(address.into_array()),
        Err(_) => None,
    }
}

/// Parses an address written as forty hexadecimal digits, with or without a
/// `0x` prefix.
pub fn parse_address(text: &str) -> (r: Option<Address>)
    ensures
        r is Some <==> is_address_text(text@),
        r matches Some(a) ==> forall|i: int|
            0 <= i < 20 ==> a.bytes[i] as nat == #[trigger] address_text_byte(text@, i),
{
    match alloy_address_from_str(text) {
        Some(bytes) => Some(Address::from_bytes(bytes)),
        None => None,
    }
}

/// A 256-bit unsigned integer, as four 64-bit limbs, least significant first.
#[derive(Clone, Copy, Debug, PartialEq, Eq)]
pub struct U256 {
    pub limbs: [u64; 4],
}

impl U256 {
    pub open spec fn value(&self) -> nat {
        limbs_value(self.limbs@)
    }

    pub fn from_limbs(limbs: [u64; 4]) -> (r: U256)
        ensures
            r.limbs == limbs,
    {
        U256 { limbs }
    }
}

/// Limb `k` (least significant first) of the 256-bit number that 32 bytes
/// spell in big-endian order: the big-endian value of bytes `24 - 8k` to
/// `32 - 8k`.
pub open spec fn be_limb(bytes: Seq<u8>, k: int) -> u64 {
    be_value(bytes.subrange(24 - 8 * k, 32 - 8 * k)) as u64
}

/// The 256-bit number that 32 bytes spell in big-endian order.
pub open spec fn u256_from_be_spec(bytes: Seq<u8>) -> U256 {
    U256 { limbs: [be_limb(bytes, 0), be_limb(bytes, 1), be_limb(bytes, 2), be_limb(bytes, 3)] }
}

/// `ruint::Uint::<256, 4>::from_be_bytes` followed by `into_limbs`: the limbs,
/// least significant first, of the number that the 32 bytes spell in
/// big-endian order; limb `k` holds bytes `24 - 8k` to `32 - 8k`.
#[verifier::external_body]
fn ruint_u256_limbs_from_be_bytes(bytes: [u8; 32]) -> (limbs: [u64; 4])
    ensures
        forall|k: int| 0 <= k < 4 ==> limbs[k] == #[trigger] be_limb(bytes@, k),
{
    alloy::primitives::U256::from_be_bytes(bytes).into_limbs()
}

/// The 256-bit number that the 32 bytes spell in big-endian order.
pub fn u256_from_be_bytes(bytes: [u8; 32]) -> (r: U256)
    ensures
        r == u256_from_be_spec(bytes@),
{
    let limbs = ruint_u256_limbs_from_be_bytes(bytes);
    proof {
        let spec_limbs = u256_from_be_spec(bytes@).limbs;
        assert(limbs[0] == be_limb(bytes@, 0));
        assert(limbs[1] == be_limb(bytes@, 1));
        assert(limbs[2] == be_limb(bytes@, 2));
        assert(limbs[3] == be_limb(bytes@, 3));
        assert(limbs =~= spec_limbs);
    }
    U256::from_limbs(limbs)
}

/// The big-endian value of two byte strings one after the other.
pub proof fn lemma_be_value_concat(a: Seq<u8>, b: Seq<u8>)
    ensures
        be_value(a + b) == be_value(a) * pow256(b.len()) + be_value(b),
    decreases b.len(),
{
    if b.len() == 0 {
        assert(a + b =~= a);
        assert(pow256(0) == 1);
        assert(be_value(a) * 1 == be_value(a));
    } else {
        let b1 = b.drop_last();
        lemma_be_value_concat(a, b1);
        assert((a + b).drop_last() =~= a + b1);
        assert((a + b).last() == b.last());
        let x = be_value(a);
        let y = pow256(b1.len());
        let z = be_value(b1);
        let l = b.last() as int;
        assert(be_value(a + b1) == x * y + z);
        assert(be_value(a + b) == be_value(a + b1) * 256 + l);
        assert(pow256(b.len()) == y * 256);
        assert(be_value(b) == z * 256 + l);
        assert((x * y + z) * 256 + l == x * (y * 256) + (z * 256 + l)) by (nonlinear_arith);
    }
}

/// The limbs of the number that 32 bytes spell hold that number.
pub proof fn lemma_u256_from_be_value(bytes: Seq<u8>)
    requires
        bytes.len() == 32,
    ensures
        u256_from_be_spec(bytes).value() == be_value(bytes),
{
    let c3 = bytes.subrange(0, 8);
    let c2 = bytes.subrange(8, 16);
    let c1 = bytes.subrange(16, 24);
    let c0 = bytes.subrange(24, 32);
    assert(pow256(8) == 0x1_0000_0000_0000_0000nat) by {
        reveal_with_fuel(pow256, 9);
    }
    lemma_be_value_bound(c0);
    lemma_be_value_bound(c1);
    lemma_be_value_bound(c2);
    lemma_be_value_bound(c3);
    lemma_be_value_concat(c3, c2);
    lemma_be_value_concat(c3 + c2, c1);
    lemma_be_value_concat(c3 + c2 + c1, c0);
    assert(c3 + c2 + c1 + c0 =~= bytes);
    let u = u256_from_be_spec(bytes);
    assert(u.limbs@[0] == be_value(c0));
    assert(u.limbs@[1] == be_value(c1));
    assert(u.limbs@[2] == be_value(c2));
    assert(u.limbs@[3] == be_value(c3));
    let v0 = be_value(c0);
    let v1 = be_value(c1);
    let v2 = be_value(c2);
    let v3 = be_value(c3);
    let b = 0x1_0000_0000_0000_0000int;
    assert(((v3 * b + v2) * b + v1) * b + v0 == v0 + v1 * b + v2 * (b * b) + v3 * (b * b * b))
        by (nonlinear_arith);
}

/// The `len` lowest bytes of `n` in big-endian order: the encoding of `n`
/// modulo `256^len`.
pub open spec fn be_bytes(n: nat, len: nat) -> Seq<u8>
    decreases len,
{
    if len == 0 {
        Seq::empty()
    } else {
        be_bytes(n / 256, (len - 1) as nat).push((n % 256) as u8)
    }
}

/// An encoding of `len` bytes is `len` bytes long.
pub proof fn lemma_be_bytes_len(n: nat, len: nat)
    ensures
        be_bytes(n, len).len() == len,
    decreases len,
{
    if len > 0 {
        lemma_be_bytes_len(n / 256, (len - 1) as nat);
    }
}

/// Reading back an encoding of `len` bytes gives the number modulo `256^len`.
pub proof fn lemma_be_bytes_value(n: nat, len: nat)
    ensures
        be_value(be_bytes(n, len)) == n % pow256(len),
    decreases len,
{
    if len > 0 {
        let rest = be_bytes(n / 256, (len - 1) as nat);
        lemma_be_bytes_value(n / 256, (len - 1) as nat);
        lemma_pow256_monotone((len - 1) as nat);
        let p = pow256((len - 1) as nat);
        assert(be_bytes(n, len).drop_last() =~= rest);
        vstd::arithmetic::div_mod::lemma_breakdown(n as int, 256, p as int);
        assert(pow256(len) == 256 * p);
    }
}

/// The last `k` bytes of an encoding of `len` bytes encode the number in `k`
/// bytes.
pub proof fn lemma_be_bytes_low(n: nat, len: nat, k: nat)
    requires
        k <= len,
    ensures
        be_bytes(n, len).subrange(len - k, len as int) == be_bytes(n, k),
    decreases len,
{
    lemma_be_bytes_len(n, len);
    if k == len {
        assert(be_bytes(n, len).subrange(0, len as int) =~= be_bytes(n, len));
    } else if k == 0 {
        assert(be_bytes(n, len).subrange(len as int, len as int) =~= be_bytes(n, 0));
    } else {
        let rest = be_bytes(n / 256, (len - 1) as nat);
        lemma_be_bytes_len(n / 256, (len - 1) as nat);
        lemma_be_bytes_low(n / 256, (len - 1) as nat, (k - 1) as nat);
        assert(be_bytes(n, len).subrange(len - k, len as int) =~= rest.subrange(
            len - k,
            len - 1,
        ).push((n % 256) as u8));
    }
}

/// Reading back the encoding of a number below `256^len` gives the number.
pub proof fn lemma_be_bytes_roundtrip(n: nat, len: nat)
    requires
        n < pow256(len),
    ensures
        be_value(be_bytes(n, len)) == n,
{
    lemma_be_bytes_value(n, len);
    vstd::arithmetic::div_mod::lemma_small_mod(n, pow256(len));
}

/// `256^n` at the widths of the words read here: 3, 16 and 32 bytes.
pub proof fn lemma_pow256_widths()
    ensures
        pow256(3) == 0x100_0000nat,
        pow256(16) == 0x1_0000_0000_0000_0000_0000_0000_0000_0000nat,
        pow256(32) == 0x1_0000_0000_0000_0000_0000_0000_0000_0000_0000_0000_0000_0000_0000_0000_0000_0000nat,
{
    reveal_with_fuel(pow256, 33);
}

/// Four limbs hold a number below `2^256`.
pub proof fn lemma_limbs_value_bound(limbs: [u64; 4])
    ensures
        limbs_value(limbs@) < pow256(32),
{
    lemma_pow256_widths();
    let b = 0x1_0000_0000_0000_0000int;
    let (l0, l1, l2, l3) = (limbs[0] as int, limbs[1] as int, limbs[2] as int, limbs[3] as int);
    assert(l0 + l1 * b + l2 * (b * b) + l3 * (b * b * b) < b * b * b * b) by (nonlinear_arith)
        requires
            0 <= l0 < b,
            0 <= l1 < b,
            0 <= l2 < b,
            0 <= l3 < b,
            b == 0x1_0000_0000_0000_0000int,
    ;
}

/// A 256-bit number has one set of limbs: equal values mean equal numbers.
pub proof fn lemma_u256_value_determines(a: U256, c: U256)
    requires
        a.value() == c.value(),
    ensures
        a == c,
{
    let b = 0x1_0000_0000_0000_0000int;
    let n = a.value() as int;
    let qa2 = a.limbs[3] as int;
    let qa1 = a.limbs[2] as int + b * qa2;
    let qa0 = a.limbs[1] as int + b * qa1;
    let qc2 = c.limbs[3] as int;
    let qc1 = c.limbs[2] as int + b * qc2;
    let qc0 = c.limbs[1] as int + b * qc1;
    assert(n == qa0 * b + a.limbs[0]);
    assert(n == qc0 * b + c.limbs[0]);
    vstd::arithmetic::div_mod::lemma_fundamental_div_mod_converse(n, b, qa0, a.limbs[0] as int);
    vstd::arithmetic::div_mod::lemma_fundamental_div_mod_converse(n, b, qc0, c.limbs[0] as int);
    assert(qa0 == qa1 * b + a.limbs[1]);
    assert(qc0 == qc1 * b + c.limbs[1]);
    vstd::arithmetic::div_mod::lemma_fundamental_div_mod_converse(qa0, b, qa1, a.limbs[1] as int);
    vstd::arithmetic::div_mod::lemma_fundamental_div_mod_converse(qa0, b, qc1, c.limbs[1] as int);
    assert(qa1 == qa2 * b + a.limbs[2]);
    assert(qc1 == qc2 * b + c.limbs[2]);
    vstd::arithmetic::div_mod::lemma_fundamental_div_mod_converse(qa1, b, qa2, a.limbs[2] as int);
    vstd::arithmetic::div_mod::lemma_fundamental_div_mod_converse(qa1, b, qc2, c.limbs[2] as int);
    assert(a.limbs =~= c.limbs);
}

} // verus!
