//! Big-endian encoding of 64-bit integers, the one number format of the store's files.

use vstd::prelude::*;

use crate::error::OpenError;
use crate::layout::FileId;

verus! {

/// The number that a sequence of bytes denotes when read most significant byte first.
pub open spec fn be_value(bytes: Seq<u8>) -> nat
    decreases bytes.len(),
{
    if bytes.len() == 0 {
        0
    } else {
        be_value(bytes.drop_last()) * 256 + bytes.last() as nat
    }
}

/// The `width` least significant base-256 digits of `value`, most significant first.
pub open spec fn be_bytes(value: nat, width: nat) -> Seq<u8>
    decreases width,
{
    if width == 0 {
        Seq::empty()
    } else {
        be_bytes(value / 256, (width - 1) as nat).push((value % 256) as u8)
    }
}

/// The eight bytes that store `value`.
pub open spec fn be64(value: u64) -> Seq<u8> {
    be_bytes(value as nat, 8)
}

/// 256 to the power `n`.
pub open spec fn pow256(n: nat) -> nat
    decreases n,
{
    if n == 0 {
        1
    } else {
        256 * pow256((n - 1) as nat)
    }
}

/// The `index`-th eight-byte word of `bytes`, decoded.
pub open spec fn word_at(bytes: Seq<u8>, index: int) -> u64 {
    be_value(bytes.subrange(8 * index, 8 * index + 8)) as u64
}

/// The first `count` eight-byte words of `bytes`, decoded.
pub open spec fn words(bytes: Seq<u8>, count: nat) -> Seq<u64> {
    Seq::new(count, |i: int| word_at(bytes, i))
}

/// No element is larger than a later one.
pub open spec fn ordered(s: Seq<u64>) -> bool {
    forall|i: int, j: int| 0 <= i <= j < s.len() ==> s[i] <= s[j]
}

/// The last element, or zero for the empty sequence.
pub open spec fn last_or_zero(s: Seq<u64>) -> u64 {
    if s.len() == 0 {
        0
    } else {
        s.last()
    }
}

/// An encoding has as many bytes as were asked for.
pub proof fn lemma_be_bytes_len(value: nat, width: nat)
    ensures
        be_bytes(value, width).len() == width,
    decreases width,
{
    if width > 0 {
        lemma_be_bytes_len(value / 256, (width - 1) as nat);
    }
}

/// A sequence of `n` bytes denotes a number below 256 to the `n`.
pub proof fn lemma_be_value_bound(bytes: Seq<u8>)
    ensures
        be_value(bytes) < pow256(bytes.len()),
    decreases bytes.len(),
{
    if bytes.len() > 0 {
        lemma_be_value_bound(bytes.drop_last());
        let hi = be_value(bytes.drop_last());
        let p = pow256((bytes.len() - 1) as nat);
        assert(hi * 256 + 256 <= p * 256) by (nonlinear_arith)
            requires
                hi + 1 <= p,
        ;
    }
}

/// Eight bytes denote a number that fits in 64 bits.
pub proof fn lemma_pow256_eight()
    ensures
        pow256(8) == 0x1_0000_0000_0000_0000,
{
    assert(pow256(0) == 1);
    assert(pow256(1) == 256);
    assert(pow256(2) == 0x1_0000);
    assert(pow256(3) == 0x100_0000);
    assert(pow256(4) == 0x1_0000_0000);
    assert(pow256(5) == 0x100_0000_0000);
    assert(pow256(6) == 0x1_0000_0000_0000);
    assert(pow256(7) == 0x100_0000_0000_0000);
}

/// Decoding undoes encoding, up to the digits that the width keeps.
pub proof fn lemma_decode_encode(value: nat, width: nat)
    ensures
        be_value(be_bytes(value, width)) == value % pow256(width),
    decreases width,
{
    if width == 0 {
    } else {
        let rest = be_bytes(value / 256, (width - 1) as nat);
        let all = be_bytes(value, width);
        lemma_decode_encode(value / 256, (width - 1) as nat);
        assert(all.drop_last() =~= rest);
        assert(all.last() == (value % 256) as u8);
        let p = pow256((width - 1) as nat);
        lemma_pow256_positive((width - 1) as nat);
        lemma_mod_digits(value, p);
    }
}

/// Encoding undoes decoding.
pub proof fn lemma_encode_decode(bytes: Seq<u8>)
    ensures
        be_bytes(be_value(bytes), bytes.len()) == bytes,
    decreases bytes.len(),
{
    if bytes.len() > 0 {
        let head = bytes.drop_last();
        lemma_encode_decode(head);
        let v = be_value(bytes);
        assert(v / 256 == be_value(head) && v % 256 == bytes.last() as nat) by {
            lemma_div_mod_digit(be_value(head), bytes.last() as nat);
        }
        assert(be_bytes(v, bytes.len()) =~= bytes);
    }
}

/// A 64-bit number survives a round trip through its eight bytes.
pub proof fn lemma_be64_round_trip(value: u64)
    ensures
        be64(value).len() == 8,
        be_value(be64(value)) == value,
{
    lemma_be_bytes_len(value as nat, 8);
    lemma_decode_encode(value as nat, 8);
    lemma_pow256_eight();
}

/// Different numbers have different encodings.
pub proof fn lemma_be64_injective(a: u64, b: u64)
    requires
        be64(a) == be64(b),
    ensures
        a == b,
{
    lemma_be64_round_trip(a);
    lemma_be64_round_trip(b);
}

proof fn lemma_pow256_positive(n: nat)
    ensures
        pow256(n) > 0,
    decreases n,
{
    if n > 0 {
        lemma_pow256_positive((n - 1) as nat);
    }
}

proof fn lemma_div_mod_digit(hi: nat, lo: nat)
    requires
        lo < 256,
    ensures
        (hi * 256 + lo) / 256 == hi,
        (hi * 256 + lo) % 256 == lo,
{
    assert((hi * 256 + lo) / 256 == hi && (hi * 256 + lo) % 256 == lo) by (nonlinear_arith)
        requires
            lo < 256,
    ;
}

proof fn lemma_mod_digits(value: nat, p: nat)
    requires
        p > 0,
    ensures
        ((value / 256) % p) * 256 + value % 256 == value % (256 * p),
{
    let q = value / 256;
    let d = value % 256;
    let qq = q / p;
    let qr = q % p;
    assert(value == q * 256 + d);
    assert(q == qq * p + qr) by (nonlinear_arith)
        requires
            qq == q / p,
            qr == q % p,
            p > 0,
    ;
    assert(qr < p);
    let r = qr * 256 + d;
    assert(r < 256 * p) by (nonlinear_arith)
        requires
            r == qr * 256 + d,
            qr < p,
            d < 256,
    ;
    assert(value == qq * (256 * p) + r) by (nonlinear_arith)
        requires
            value == q * 256 + d,
            q == qq * p + qr,
            r == qr * 256 + d,
    ;
    vstd::arithmetic::div_mod::lemma_fundamental_div_mod_converse(
        value as int,
        (256 * p) as int,
        qq as int,
        r as int,
    );
}

/// Encodes a number as its eight big-endian bytes.
pub fn encode_u64(value: u64) -> (bytes: Vec<u8>)
    ensures
        bytes@ == be64(value),
{
    let mut out: Vec<u8> = Vec::new();
    let mut k: usize = 0;
    while k < 8
        invariant
            k <= 8,
            out@.len() == k,
            forall|j: int| 0 <= j < k ==> out@[j] == 0u8,
        decreases 8 - k,
    {
        out.push(0u8);
        k += 1;
    }
    let mut rest: u64 = value;
    let mut i: usize = 8;
    while i > 0
        invariant
            i <= 8,
            out@.len() == 8,
            be64(value) =~= be_bytes(rest as nat, i as nat) + out@.subrange(i as int, 8),
        decreases i,
    {
        let digit: u8 = (rest % 256) as u8;
        proof {
            let before = be_bytes(rest as nat, i as nat);
            assert(before == be_bytes((rest / 256) as nat, (i - 1) as nat).push(digit));
        }
        i -= 1;
        out.set(i, digit);
        rest = rest / 256;
    }
    assert(out@.subrange(0, 8) =~= out@);
    out
}

/// Decodes the eight big-endian bytes that start at `at`.
pub fn decode_u64(bytes: &[u8], at: usize) -> (value: u64)
    requires
        at + 8 <= bytes@.len(),
    ensures
        value == be_value(bytes@.subrange(at as int, at + 8)),
{
    let total: usize = bytes.len();
    let mut acc: u64 = 0;
    let mut i: usize = 0;
    while i < 8
        invariant
            i <= 8,
            total == bytes@.len(),
            at + 8 <= bytes@.len(),
            acc == be_value(bytes@.subrange(at as int, at + i)),
        decreases 8 - i,
    {
        let byte: u8 = bytes[at + i];
        proof {
            let done = bytes@.subrange(at as int, at + i);
            let more = bytes@.subrange(at as int, at + i + 1);
            assert(more.drop_last() =~= done);
            assert(more.last() == byte);
            lemma_be_value_bound(more);
            lemma_pow256_grows((i + 1) as nat, 8);
            lemma_pow256_eight();
        }
        acc = acc * 256 + byte as u64;
        i += 1;
    }
    acc
}

proof fn lemma_pow256_grows(m: nat, n: nat)
    requires
        m <= n,
    ensures
        pow256(m) <= pow256(n),
    decreases n,
{
    if m < n {
        lemma_pow256_grows(m, (n - 1) as nat);
    }
}

/// Decodes the first `count` words of a keys file or an offsets file and checks their order.
///
/// `file` names the file that the bytes were read from, for the error.
pub fn decode_ordered(bytes: &[u8], count: u64, file: FileId) -> (res: Result<Vec<u64>, OpenError>)
    ensures
        match res {
            Ok(values) => {
                &&& 8 * count <= bytes@.len()
                &&& values@ == words(bytes@, count as nat)
                &&& ordered(values@)
            },
            Err(OpenError::LengthMismatch(f)) => f == file && bytes@.len() < 8 * count,
            Err(OpenError::OutOfOrder(f)) => {
                &&& f == file
                &&& 8 * count <= bytes@.len()
                &&& !ordered(words(bytes@, count as nat))
            },
            Err(_) => false,
        },
{
    let total: usize = bytes.len();
    let have: u64 = (total / 8) as u64;
    if have < count {
        return Err(OpenError::LengthMismatch(file));
    }
    let n: usize = count as usize;
    let mut values: Vec<u64> = Vec::new();
    let mut prev: u64 = 0;
    let mut i: usize = 0;
    while i < n
        invariant
            i <= n,
            n == count,
            total == bytes@.len(),
            8 * n <= bytes@.len(),
            values@ == words(bytes@, i as nat),
            ordered(values@),
            prev == last_or_zero(values@),
        decreases n - i,
    {
        let value: u64 = decode_u64(bytes, 8 * i);
        if prev > value {
            proof {
                let all = words(bytes@, count as nat);
                assert(i > 0);
                assert(all[i - 1] == values@[i - 1]);
                assert(all[i as int] == value);
            }
            return Err(OpenError::OutOfOrder(file));
        }
        proof {
            assert(values@.push(value) =~= words(bytes@, (i + 1) as nat));
        }
        prev = value;
        values.push(value);
        i += 1;
    }
    Ok(values)
}

} // verus!
