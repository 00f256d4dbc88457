//! Little- and big-endian integers read from byte buffers.

use vstd::prelude::*;

verus! {

/// The number one more than the largest `usize`: results wrap around it.
pub open spec fn usize_modulus() -> int {
    usize::MAX as int + 1
}

/// The unsigned value of `bytes` read as a little-endian number (first byte least significant).
pub open spec fn le_value(bytes: Seq<u8>) -> nat
    decreases bytes.len(),
{
    if bytes.len() == 0 {
        0
    } else {
        bytes[0] as nat + 256 * le_value(bytes.drop_first())
    }
}

/// The unsigned value of `bytes` read as a big-endian number (first byte most significant).
pub open spec fn be_value(bytes: Seq<u8>) -> nat
    decreases bytes.len(),
{
    if bytes.len() == 0 {
        0
    } else {
        be_value(bytes.drop_last()) * 256 + bytes.last() as nat
    }
}

/// Reading bytes as a big-endian number is reading them, reversed, as a
/// little-endian one; so `read_bytes_be` gives what `read_bytes_le` gives on
/// the reversed bytes.
pub proof fn lemma_be_is_reversed_le(bytes: Seq<u8>)
    ensures
        be_value(bytes) == le_value(bytes.reverse()),
    decreases bytes.len(),
{
    if bytes.len() > 0 {
        lemma_be_is_reversed_le(bytes.drop_last());
        let r = bytes.reverse();
        assert(r[0] == bytes.last());
        assert(r.drop_first() =~= bytes.drop_last().reverse());
    }
}

/// 256 to the power `n`: one more than the largest number `n` bytes hold.
pub open spec fn byte_range(n: nat) -> nat
    decreases n,
{
    if n == 0 {
        1
    } else {
        256 * byte_range((n - 1) as nat)
    }
}

proof fn lemma_le_value_bound(bytes: Seq<u8>)
    ensures
        le_value(bytes) < byte_range(bytes.len()),
    decreases bytes.len(),
{
    if bytes.len() > 0 {
        lemma_le_value_bound(bytes.drop_first());
    }
}

proof fn lemma_byte_range_grows(n: nat, m: nat)
    requires
        n <= m,
    ensures
        byte_range(n) <= byte_range(m),
    decreases m - n,
{
    if n < m {
        lemma_byte_range_grows(n, (m - 1) as nat);
    }
}

/// Bytes that fit in a word, read either way, need no wrapping: the number
/// is below the word's modulus.
pub proof fn lemma_no_wrap(bytes: Seq<u8>)
    requires
        8 * bytes.len() <= usize::BITS,
    ensures
        le_value(bytes) < usize_modulus(),
        be_value(bytes) < usize_modulus(),
{
    lemma_le_value_bound(bytes);
    lemma_le_value_bound(bytes.reverse());
    lemma_be_is_reversed_le(bytes);
    assert(byte_range(4) == 0x1_0000_0000) by {
        reveal_with_fuel(byte_range, 5);
    }
    assert(byte_range(8) == 0x1_0000_0000_0000_0000) by {
        reveal_with_fuel(byte_range, 9);
    }
    assert(usize::BITS == 32 || usize::BITS == 64);
    if usize::BITS == 32 {
        assert(usize::MAX == 0xffff_ffff);
        lemma_byte_range_grows(bytes.len(), 4);
    } else {
        assert(usize::MAX == 0xffff_ffff_ffff_ffff);
        lemma_byte_range_grows(bytes.len(), 8);
    }
}

/// Appending a byte to a number wraps around the word size the same way whether
/// the wrap is taken before or after the multiplication.
proof fn lemma_append_byte(a: int, b: u8)
    requires
        a >= 0,
    ensures
        ((a % usize_modulus()) * 256) % usize_modulus() + b as int == (a * 256 + b as int) % usize_modulus(),
        ((a % usize_modulus()) * 256) % usize_modulus() + b as int <= usize::MAX,
{
    let m = usize_modulus();
    let j = m / 256;
    assert(m == 256 * j && j > 0) by {
        assert(usize::BITS == 32 || usize::BITS == 64);
        if usize::BITS == 32 {
            assert(usize::MAX == 0xffff_ffff);
        } else {
            assert(usize::MAX == 0xffff_ffff_ffff_ffff);
        }
    }
    let x = a * 256;
    vstd::arithmetic::div_mod::lemma_mul_mod_noop_left(a, 256, m);
    let y = x % m;
    vstd::arithmetic::div_mod::lemma_mod_bound(x, m);
    vstd::arithmetic::div_mod::lemma_mod_multiples_basic(a, 256);
    vstd::arithmetic::div_mod::lemma_mod_mod(x, 256, j);
    assert(y % 256 == 0);
    vstd::arithmetic::div_mod::lemma_fundamental_div_mod(y, 256);
    let k = y / 256;
    assert(y == 256 * k);
    assert(k < j) by (nonlinear_arith)
        requires y == 256 * k, y < m, m == 256 * j;
    assert(y + (b as int) < m);
    vstd::arithmetic::div_mod::lemma_add_mod_noop(x, b as int, m);
    vstd::arithmetic::div_mod::lemma_small_mod(b as nat, m as nat);
    vstd::arithmetic::div_mod::lemma_mod_twice(x, m);
    vstd::arithmetic::div_mod::lemma_small_mod((y + b) as nat, m as nat);
}

/// Reads `length` bytes of `data` from `start` as a little-endian number.
/// The number wraps around the word size, as shifting a word does.
pub fn read_bytes_le(data: &[u8], start: usize, length: usize) -> (r: usize)
    requires
        length == 0 || start + length <= data@.len(),
    ensures
        length == 0 ==> r == 0,
        length > 0 ==> r as int == (le_value(data@.subrange(start as int, start + length)) as int)
            % usize_modulus(),
        length > 0 && 8 * length <= usize::BITS ==> r as int == le_value(
            data@.subrange(start as int, start + length),
        ),
{
    proof {
        if length > 0 && 8 * length <= usize::BITS {
            let bytes = data@.subrange(start as int, start + length);
            lemma_no_wrap(bytes);
            vstd::arithmetic::div_mod::lemma_small_mod(le_value(bytes), usize_modulus() as nat);
        }
    }
    if length == 0 {
        return 0;
    }
    let n = data.len();
    let mut r: usize = 0;
    let mut b: usize = 0;
    assert(data@.subrange(start as int, start as int) =~= Seq::<u8>::empty());
    assert(data@.subrange(start + length, start + length) =~= Seq::<u8>::empty());
    proof {
        vstd::arithmetic::div_mod::lemma_small_mod(0, usize_modulus() as nat);
    }
    while b < length
        invariant
            b <= length,
            start + length <= data@.len(),
            n == data@.len(),
            r as int == (le_value(data@.subrange(start + length - b, start + length)) as int) % usize_modulus(),
        decreases length - b,
    {
        let byte = data[start + length - b - 1];
        proof {
            let tail = data@.subrange(start + length - b, start + length);
            let longer = data@.subrange(start + length - b - 1, start + length);
            assert(longer.drop_first() =~= tail);
            lemma_append_byte(le_value(tail) as int, byte);
        }
        r = r.wrapping_mul(256).wrapping_add(byte as usize);
        b = b + 1;
    }
    r
}

/// Reads `length` bytes of `data` from `start` as a big-endian number.
/// The number wraps around the word size, as shifting a word does.
pub fn read_bytes_be(data: &[u8], start: usize, length: usize) -> (r: usize)
    requires
        length == 0 || start + length <= data@.len(),
    ensures
        length == 0 ==> r == 0,
        length > 0 ==> r as int == (be_value(data@.subrange(start as int, start + length)) as int)
            % usize_modulus(),
        length > 0 && 8 * length <= usize::BITS ==> r as int == be_value(
            data@.subrange(start as int, start + length),
        ),
{
    proof {
        if length > 0 && 8 * length <= usize::BITS {
            let bytes = data@.subrange(start as int, start + length);
            lemma_no_wrap(bytes);
            vstd::arithmetic::div_mod::lemma_small_mod(be_value(bytes), usize_modulus() as nat);
        }
    }
    if length == 0 {
        return 0;
    }
    let n = data.len();
    let mut r: usize = 0;
    let mut b: usize = 0;
    assert(data@.subrange(start as int, start as int) =~= Seq::<u8>::empty());
    assert(data@.subrange(start + length, start + length) =~= Seq::<u8>::empty());
    proof {
        vstd::arithmetic::div_mod::lemma_small_mod(0, usize_modulus() as nat);
    }
    while b < length
        invariant
            b <= length,
            start + length <= data@.len(),
            n == data@.len(),
            r as int == (be_value(data@.subrange(start as int, start + b)) as int) % usize_modulus(),
        decreases length - b,
    {
        let byte = data[start + b];
        proof {
            let head = data@.subrange(start as int, start + b);
            let longer = data@.subrange(start as int, start + b + 1);
            assert(longer.drop_last() =~= head);
            lemma_append_byte(be_value(head) as int, byte);
        }
        r = r.wrapping_mul(256).wrapping_add(byte as usize);
        b = b + 1;
    }
    r
}

/// The little-endian 16-bit number at byte `at` of `d`.
pub open spec fn le16_at(d: Seq<u8>, at: int) -> int {
    d[at] as int + 256 * d[at + 1] as int
}

/// The little-endian 32-bit number at byte `at` of `d`.
pub open spec fn le32_at(d: Seq<u8>, at: int) -> int {
    d[at] as int + 256 * d[at + 1] as int + 65536 * d[at + 2] as int + 16777216 * d[at + 3] as int
}

/// The modulus is at least 2^32, whatever the word size.
pub proof fn lemma_usize_modulus_bound()
    ensures
        usize_modulus() >= 0x1_0000_0000,
{
    assert(usize::BITS == 32 || usize::BITS == 64);
    if usize::BITS == 32 {
        assert(usize::MAX == 0xffff_ffff);
    } else {
        assert(usize::MAX == 0xffff_ffff_ffff_ffff);
    }
}

/// Reading one, two or four little-endian bytes gives the byte, the 16-bit
/// or the 32-bit number, without wrapping.
pub proof fn lemma_le_small(d: Seq<u8>, at: int)
    requires
        0 <= at,
    ensures
        at + 1 <= d.len() ==> (le_value(d.subrange(at, at + 1)) as int) % usize_modulus() == d[at] as int,
        at + 2 <= d.len() ==> (le_value(d.subrange(at, at + 2)) as int) % usize_modulus() == le16_at(d, at),
        at + 4 <= d.len() ==> (le_value(d.subrange(at, at + 4)) as int) % usize_modulus() == le32_at(d, at),
{
    lemma_usize_modulus_bound();
    if at + 1 <= d.len() {
        let s = d.subrange(at, at + 1);
        assert(s.drop_first() =~= Seq::<u8>::empty());
        assert(le_value(s) == s[0] as int + 256 * le_value(s.drop_first()));
        vstd::arithmetic::div_mod::lemma_small_mod(d[at] as nat, usize_modulus() as nat);
    }
    if at + 2 <= d.len() {
        let s0 = d.subrange(at, at + 2);
        let s1 = s0.drop_first();
        let s2 = s1.drop_first();
        assert(s2 =~= Seq::<u8>::empty());
        assert(le_value(s2) == 0);
        assert(le_value(s1) == s1[0] as int + 256 * le_value(s2));
        assert(le_value(s0) == s0[0] as int + 256 * le_value(s1));
        assert(le_value(s0) == le16_at(d, at));
        vstd::arithmetic::div_mod::lemma_small_mod(le_value(s0), usize_modulus() as nat);
    }
    if at + 4 <= d.len() {
        let s0 = d.subrange(at, at + 4);
        let s1 = s0.drop_first();
        let s2 = s1.drop_first();
        let s3 = s2.drop_first();
        let s4 = s3.drop_first();
        assert(s4 =~= Seq::<u8>::empty());
        assert(le_value(s4) == 0);
        assert(le_value(s3) == s3[0] as int + 256 * le_value(s4));
        assert(le_value(s2) == s2[0] as int + 256 * le_value(s3));
        assert(le_value(s1) == s1[0] as int + 256 * le_value(s2));
        assert(le_value(s0) == s0[0] as int + 256 * le_value(s1));
        assert(le_value(s0) == le32_at(d, at));
        vstd::arithmetic::div_mod::lemma_small_mod(le_value(s0), usize_modulus() as nat);
    }
}

/// Reads the byte at `at`.
pub fn read_u8(data: &[u8], at: usize) -> (v: u8)
    requires
        at < data@.len(),
    ensures
        v == data@[at as int],
{
    proof {
        lemma_le_small(data@, at as int);
    }
    read_bytes_le(data, at, 1) as u8
}

/// Reads the little-endian 16-bit number at `at`.
pub fn read_u16_le(data: &[u8], at: usize) -> (v: u16)
    requires
        at + 2 <= data@.len(),
    ensures
        v as int == le16_at(data@, at as int),
{
    proof {
        lemma_le_small(data@, at as int);
    }
    read_bytes_le(data, at, 2) as u16
}

/// Reads the little-endian 32-bit number at `at`.
pub fn read_u32_le(data: &[u8], at: usize) -> (v: u32)
    requires
        at + 4 <= data@.len(),
    ensures
        v as int == le32_at(data@, at as int),
{
    proof {
        lemma_le_small(data@, at as int);
    }
    read_bytes_le(data, at, 4) as u32
}

/// The big-endian 32-bit number at byte `at` of `d`.
pub open spec fn be32_at(d: Seq<u8>, at: int) -> int {
    16777216 * d[at] as int + 65536 * d[at + 1] as int + 256 * d[at + 2] as int + d[at + 3] as int
}

/// Reads the big-endian 32-bit number at `at`.
pub fn read_u32_be(data: &[u8], at: usize) -> (v: u32)
    requires
        at + 4 <= data@.len(),
    ensures
        v as int == be32_at(data@, at as int),
{
    proof {
        lemma_usize_modulus_bound();
        let s4 = data@.subrange(at as int, at + 4);
        let s3 = s4.drop_last();
        let s2 = s3.drop_last();
        let s1 = s2.drop_last();
        let s0 = s1.drop_last();
        assert(s0 =~= Seq::<u8>::empty());
        assert(be_value(s0) == 0);
        assert(be_value(s1) == be_value(s0) * 256 + s1.last());
        assert(be_value(s2) == be_value(s1) * 256 + s2.last());
        assert(be_value(s3) == be_value(s2) * 256 + s3.last());
        assert(be_value(s4) == be_value(s3) * 256 + s4.last());
        assert(be_value(s4) == be32_at(data@, at as int));
        vstd::arithmetic::div_mod::lemma_small_mod(be_value(s4), usize_modulus() as nat);
    }
    read_bytes_be(data, at, 4) as u32
}

/// Whether `data` begins with the bytes of `prefix`.
pub fn starts_with(data: &[u8], prefix: &[u8]) -> (r: bool)
    ensures
        r == (prefix@.len() <= data@.len() && data@.subrange(0, prefix@.len() as int) == prefix@),
{
    if prefix.len() > data.len() {
        return false;
    }
    let mut i: usize = 0;
    while i < prefix.len()
        invariant
            prefix@.len() <= data@.len(),
            i <= prefix@.len(),
            forall|k: int| 0 <= k < i ==> data@[k] == prefix@[k],
        decreases prefix@.len() - i,
    {
        if data[i] != prefix[i] {
            assert(data@.subrange(0, prefix@.len() as int)[i as int] != prefix@[i as int]);
            return false;
        }
        i += 1;
    }
    assert(data@.subrange(0, prefix@.len() as int) =~= prefix@);
    true
}

/// The bytes `data[start..end]`, copied.
pub fn copy_range(data: &[u8], start: usize, end: usize) -> (r: Vec<u8>)
    requires
        start <= end <= data@.len(),
    ensures
        r@ == data@.subrange(start as int, end as int),
{
    let mut r: Vec<u8> = Vec::new();
    let mut i: usize = start;
    while i < end
        invariant
            start <= i <= end <= data@.len(),
            r@ == data@.subrange(start as int, i as int),
        decreases end - i,
    {
        r.push(data[i]);
        i += 1;
        assert(r@ =~= data@.subrange(start as int, i as int));
    }
    r
}

} // verus!
