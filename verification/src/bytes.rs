//! Byte-level helpers shared by the wire formats.
//!
//! Everything on the air and across the event boundary is little-endian. The
//! encodings are stated as sequences, so the formats built from them can be
//! compared byte for byte.
use vstd::prelude::*;

verus! {

// ---------------------------------------------------------------------------
// Model
// ---------------------------------------------------------------------------

/// The `width` low bytes of `value`, least significant first.
pub open spec fn le_bytes(value: nat, width: nat) -> Seq<u8>
    decreases width,
{
    if width == 0 {
        Seq::empty()
    } else {
        seq![(value % 256) as u8] + le_bytes(value / 256, (width - 1) as nat)
    }
}

/// The number that a little-endian byte string stands for.
pub open spec fn le_value(bytes: Seq<u8>) -> nat
    decreases bytes.len(),
{
    if bytes.len() == 0 {
        0
    } else {
        bytes[0] as nat + 256 * le_value(bytes.drop_first())
    }
}

/// `256` to the power `width`: one more than the largest `width`-byte number.
pub open spec fn le_limit(width: nat) -> nat
    decreases width,
{
    if width == 0 {
        1
    } else {
        256 * le_limit((width - 1) as nat)
    }
}

/// `width` zero bytes.
pub open spec fn zeros(width: nat) -> Seq<u8> {
    Seq::new(width, |i: int| 0u8)
}

/// The array that holds 32 given bytes.
pub open spec fn array_32(bytes: Seq<u8>) -> [u8; 32] {
    choose|array: [u8; 32]| array@ == bytes
}

/// The array that holds 16 given bytes.
pub open spec fn array_16(bytes: Seq<u8>) -> [u8; 16] {
    choose|array: [u8; 16]| array@ == bytes
}

/// Lexicographic order on byte strings of the same length.
pub open spec fn lex_le(a: Seq<u8>, b: Seq<u8>) -> bool
    decreases a.len(),
{
    if a.len() == 0 || b.len() == 0 {
        a.len() == 0
    } else if a[0] != b[0] {
        a[0] < b[0]
    } else {
        lex_le(a.drop_first(), b.drop_first())
    }
}

// ---------------------------------------------------------------------------
// Lemmas
// ---------------------------------------------------------------------------

/// An encoding has exactly the width it was asked for.
pub proof fn lemma_le_bytes_len(value: nat, width: nat)
    ensures
        le_bytes(value, width).len() == width,
    decreases width,
{
    if width > 0 {
        lemma_le_bytes_len(value / 256, (width - 1) as nat);
    }
}

/// Decoding gives back every number that fits the width it was encoded in.
pub proof fn lemma_le_round_trip(value: nat, width: nat)
    requires
        value < le_limit(width),
    ensures
        le_value(le_bytes(value, width)) == value,
    decreases width,
{
    if width > 0 {
        lemma_le_bytes_len(value, width);
        lemma_le_round_trip(value / 256, (width - 1) as nat);
        assert(le_bytes(value, width).drop_first() =~= le_bytes(
            value / 256,
            (width - 1) as nat,
        ));
    }
}

/// A decoded number is below the limit of its width, and encoding it again
/// gives the same bytes.
pub proof fn lemma_le_value_bound(bytes: Seq<u8>)
    ensures
        le_value(bytes) < le_limit(bytes.len()),
        le_bytes(le_value(bytes), bytes.len()) == bytes,
    decreases bytes.len(),
{
    if bytes.len() > 0 {
        let rest = bytes.drop_first();
        lemma_le_value_bound(rest);
        let value = le_value(bytes);
        assert(value % 256 == bytes[0] as nat);
        assert(value / 256 == le_value(rest));
        assert(le_bytes(value, bytes.len()) =~= bytes);
    }
}

/// An array is the one that holds its bytes.
pub proof fn lemma_array_32(array: [u8; 32])
    ensures
        array_32(array@) == array,
{
    assert(array_32(array@) =~= array);
}

/// Any 32 bytes are held by an array.
pub proof fn lemma_array_32_holds(bytes: Seq<u8>)
    requires
        bytes.len() == 32,
    ensures
        array_32(bytes)@ == bytes,
{
    let array: [u8; 32] = [
        bytes[0], bytes[1], bytes[2], bytes[3],
        bytes[4], bytes[5], bytes[6], bytes[7],
        bytes[8], bytes[9], bytes[10], bytes[11],
        bytes[12], bytes[13], bytes[14], bytes[15],
        bytes[16], bytes[17], bytes[18], bytes[19],
        bytes[20], bytes[21], bytes[22], bytes[23],
        bytes[24], bytes[25], bytes[26], bytes[27],
        bytes[28], bytes[29], bytes[30], bytes[31],
    ];
    assert(array@ =~= bytes);
}

/// An array is the one that holds its bytes.
pub proof fn lemma_array_16(array: [u8; 16])
    ensures
        array_16(array@) == array,
{
    assert(array_16(array@) =~= array);
}

/// Any 16 bytes are held by an array.
pub proof fn lemma_array_16_holds(bytes: Seq<u8>)
    requires
        bytes.len() == 16,
    ensures
        array_16(bytes)@ == bytes,
{
    let array: [u8; 16] = [
        bytes[0], bytes[1], bytes[2], bytes[3],
        bytes[4], bytes[5], bytes[6], bytes[7],
        bytes[8], bytes[9], bytes[10], bytes[11],
        bytes[12], bytes[13], bytes[14], bytes[15],
    ];
    assert(array@ =~= bytes);
}

/// The limits of the widths in use.
pub proof fn lemma_le_limits()
    ensures
        le_limit(2) == 0x1_0000,
        le_limit(4) == 0x1_0000_0000,
        le_limit(8) == 0x1_0000_0000_0000_0000,
{
    reveal_with_fuel(le_limit, 9);
}

/// The lexicographic order is total and antisymmetric on strings of one length.
pub proof fn lemma_lex_order(a: Seq<u8>, b: Seq<u8>)
    requires
        a.len() == b.len(),
    ensures
        lex_le(a, b) || lex_le(b, a),
        lex_le(a, b) && lex_le(b, a) ==> a == b,
    decreases a.len(),
{
    if a.len() > 0 {
        lemma_lex_order(a.drop_first(), b.drop_first());
        if a[0] == b[0] && a.drop_first() == b.drop_first() {
            assert(a =~= seq![a[0]] + a.drop_first());
            assert(b =~= seq![b[0]] + b.drop_first());
        }
    } else {
        assert(a =~= b);
    }
}

proof fn lemma_lex_prefix(a: Seq<u8>, b: Seq<u8>, n: int)
    requires
        a.len() == b.len(),
        0 <= n <= a.len(),
        a.subrange(0, n) == b.subrange(0, n),
    ensures
        lex_le(a, b) == lex_le(a.subrange(n, a.len() as int), b.subrange(n, b.len() as int)),
    decreases n,
{
    if n == 0 {
        assert(a.subrange(0, a.len() as int) =~= a);
        assert(b.subrange(0, b.len() as int) =~= b);
    } else {
        assert(a[0] == a.subrange(0, n)[0]);
        assert(b[0] == b.subrange(0, n)[0]);
        let ra = a.drop_first();
        let rb = b.drop_first();
        assert(ra.subrange(0, n - 1) =~= a.subrange(0, n).drop_first());
        assert(rb.subrange(0, n - 1) =~= b.subrange(0, n).drop_first());
        lemma_lex_prefix(ra, rb, n - 1);
        assert(ra.subrange(n - 1, ra.len() as int) =~= a.subrange(n, a.len() as int));
        assert(rb.subrange(n - 1, rb.len() as int) =~= b.subrange(n, b.len() as int));
    }
}

// ---------------------------------------------------------------------------
// Comparing
// ---------------------------------------------------------------------------

/// Whether two byte strings are the same.
pub fn same_bytes(a: &[u8], b: &[u8]) -> (same: bool)
    ensures
        same == (a@ == b@),
{
    if a.len() != b.len() {
        return false;
    }
    let mut i: usize = 0;
    while i < a.len()
        invariant
            i <= a.len(),
            a.len() == b.len(),
            forall|j: int| 0 <= j < i ==> a@[j] == b@[j],
        decreases a.len() - i,
    {
        if a[i] != b[i] {
            assert(a@[i as int] != b@[i as int]);
            return false;
        }
        i = i + 1;
    }
    assert(a@ =~= b@);
    true
}

/// Whether two 32-byte arrays are the same.
pub fn same_32(a: &[u8; 32], b: &[u8; 32]) -> (same: bool)
    ensures
        same == (*a == *b),
{
    let same = same_bytes(a.as_slice(), b.as_slice());
    assert(a@ == b@ ==> a =~= b);
    same
}

/// Whether two 16-byte arrays are the same.
pub fn same_16(a: &[u8; 16], b: &[u8; 16]) -> (same: bool)
    ensures
        same == (*a == *b),
{
    let same = same_bytes(a.as_slice(), b.as_slice());
    assert(a@ == b@ ==> a =~= b);
    same
}

/// Whether `a` comes no later than `b` in lexicographic order.
pub fn lex_no_later(a: &[u8; 32], b: &[u8; 32]) -> (r: bool)
    ensures
        r == lex_le(a@, b@),
{
    let mut i: usize = 0;
    while i < 32
        invariant
            i <= 32,
            a@.subrange(0, i as int) == b@.subrange(0, i as int),
        decreases 32 - i,
    {
        proof {
            lemma_lex_prefix(a@, b@, i as int);
            assert(a@.subrange(i as int, 32)[0] == a@[i as int]);
            assert(b@.subrange(i as int, 32)[0] == b@[i as int]);
        }
        if a[i] != b[i] {
            return a[i] < b[i];
        }
        proof {
            assert(a@.subrange(0, i + 1) =~= a@.subrange(0, i as int).push(a@[i as int]));
            assert(b@.subrange(0, i + 1) =~= b@.subrange(0, i as int).push(b@[i as int]));
        }
        i = i + 1;
    }
    proof {
        lemma_lex_prefix(a@, b@, 32);
    }
    true
}

// ---------------------------------------------------------------------------
// Writing
// ---------------------------------------------------------------------------

/// Append a byte string.
pub fn put_all(out: &mut Vec<u8>, bytes: &[u8])
    ensures
        final(out)@ == old(out)@ + bytes@,
{
    out.extend_from_slice(bytes);
    assert(out@ =~= old(out)@ + bytes@);
}

/// Append the `width` low bytes of `value`, least significant first.
pub fn put_le(out: &mut Vec<u8>, value: u64, width: usize)
    ensures
        final(out)@ == old(out)@ + le_bytes(value as nat, width as nat),
{
    let mut rest: u64 = value;
    let mut left: usize = width;
    while left > 0
        invariant
            out@ + le_bytes(rest as nat, left as nat) == old(out)@ + le_bytes(
                value as nat,
                width as nat,
            ),
        decreases left,
    {
        let ghost before = out@;
        out.push((rest % 256) as u8);
        proof {
            let tail = le_bytes((rest / 256) as nat, (left - 1) as nat);
            assert(out@ + tail =~= before + (seq![(rest as nat % 256) as u8] + tail));
        }
        rest = rest / 256;
        left = left - 1;
    }
    assert(out@ + Seq::<u8>::empty() =~= out@);
}

/// A copy of a byte string.
pub fn copy_of(bytes: &[u8]) -> (out: Vec<u8>)
    ensures
        out@ == bytes@,
{
    let mut out: Vec<u8> = Vec::with_capacity(bytes.len());
    put_all(&mut out, bytes);
    assert(out@ =~= bytes@);
    out
}

// ---------------------------------------------------------------------------
// Reading
// ---------------------------------------------------------------------------

/// The number in the `width` bytes from `at` on.
pub fn get_le(buf: &[u8], at: usize, width: usize) -> (value: u64)
    requires
        width <= 8,
        at + width <= buf@.len(),
    ensures
        value == le_value(buf@.subrange(at as int, at + width)),
        value < le_limit(width as nat),
{
    proof {
        lemma_le_limits();
        lemma_le_value_bound(buf@.subrange(at as int, at + width));
        lemma_le_limit_monotone(width as nat, 8);
    }
    let len: usize = buf.len();
    let mut value: u64 = 0;
    let mut i: usize = width;
    while i > 0
        invariant
            width <= 8,
            i <= width,
            at + width <= len == buf@.len(),
            value == le_value(buf@.subrange(at + i, at + width)),
            le_limit(8) == 0x1_0000_0000_0000_0000,
        decreases i,
    {
        let ghost rest = buf@.subrange(at + i, at + width);
        let ghost longer = buf@.subrange(at + i - 1, at + width);
        proof {
            assert(longer.drop_first() =~= rest);
            assert(longer[0] == buf@[at + i - 1]);
            lemma_le_value_bound(longer);
            lemma_le_limit_monotone(longer.len(), 8);
            assert(le_value(longer) == longer[0] as nat + 256 * le_value(rest));
        }
        value = buf[at + i - 1] as u64 + 256 * value;
        i = i - 1;
    }
    value
}

proof fn lemma_le_limit_monotone(a: nat, b: nat)
    requires
        a <= b,
    ensures
        le_limit(a) <= le_limit(b),
        le_limit(a) >= 1,
    decreases b,
{
    if a < b {
        lemma_le_limit_monotone(a, (b - 1) as nat);
    } else if a > 0 {
        lemma_le_limit_monotone((a - 1) as nat, (b - 1) as nat);
    }
}

/// The 12 bytes from `at` on.
pub fn get_12(buf: &[u8], at: usize) -> (out: [u8; 12])
    requires
        at + 12 <= buf@.len(),
    ensures
        out@ == buf@.subrange(at as int, at + 12),
{
    let len: usize = buf.len();
    let mut out: [u8; 12] = [0u8; 12];
    let mut i: usize = 0;
    while i < 12
        invariant
            i <= 12,
            at + 12 <= len == buf@.len(),
            forall|j: int| 0 <= j < i ==> out@[j] == buf@[at + j],
        decreases 12 - i,
    {
        out[i] = buf[at + i];
        i = i + 1;
    }
    assert(out@ =~= buf@.subrange(at as int, at + 12));
    out
}

/// The 16 bytes from `at` on.
pub fn get_16(buf: &[u8], at: usize) -> (out: [u8; 16])
    requires
        at + 16 <= buf@.len(),
    ensures
        out@ == buf@.subrange(at as int, at + 16),
{
    let len: usize = buf.len();
    let mut out: [u8; 16] = [0u8; 16];
    let mut i: usize = 0;
    while i < 16
        invariant
            i <= 16,
            at + 16 <= len == buf@.len(),
            forall|j: int| 0 <= j < i ==> out@[j] == buf@[at + j],
        decreases 16 - i,
    {
        out[i] = buf[at + i];
        i = i + 1;
    }
    assert(out@ =~= buf@.subrange(at as int, at + 16));
    out
}

/// The 32 bytes from `at` on.
pub fn get_32(buf: &[u8], at: usize) -> (out: [u8; 32])
    requires
        at + 32 <= buf@.len(),
    ensures
        out@ == buf@.subrange(at as int, at + 32),
{
    let len: usize = buf.len();
    let mut out: [u8; 32] = [0u8; 32];
    let mut i: usize = 0;
    while i < 32
        invariant
            i <= 32,
            at + 32 <= len == buf@.len(),
            forall|j: int| 0 <= j < i ==> out@[j] == buf@[at + j],
        decreases 32 - i,
    {
        out[i] = buf[at + i];
        i = i + 1;
    }
    assert(out@ =~= buf@.subrange(at as int, at + 32));
    out
}

/// The 64 bytes from `at` on.
pub fn get_64(buf: &[u8], at: usize) -> (out: [u8; 64])
    requires
        at + 64 <= buf@.len(),
    ensures
        out@ == buf@.subrange(at as int, at + 64),
{
    let len: usize = buf.len();
    let mut out: [u8; 64] = [0u8; 64];
    let mut i: usize = 0;
    while i < 64
        invariant
            i <= 64,
            at + 64 <= len == buf@.len(),
            forall|j: int| 0 <= j < i ==> out@[j] == buf@[at + j],
        decreases 64 - i,
    {
        out[i] = buf[at + i];
        i = i + 1;
    }
    assert(out@ =~= buf@.subrange(at as int, at + 64));
    out
}

/// The bytes from `at` on, without copying them.
pub fn tail_of<'a>(buf: &'a [u8], at: usize) -> (out: &'a [u8])
    requires
        at <= buf@.len(),
    ensures
        out@ == buf@.subrange(at as int, buf@.len() as int),
{
    vstd::slice::slice_subrange(buf, at, buf.len())
}

/// Numbers are little-endian: the first byte is the lowest, and the rest is what is
/// left of the number without it.
pub proof fn law_numbers_are_little_endian(value: nat, width: nat)
    requires
        width > 0,
    ensures
        le_bytes(value, width).len() == width,
        le_bytes(value, width)[0] == value % 256,
        le_bytes(value, width).drop_first() == le_bytes(value / 256, (width - 1) as nat),
{
    lemma_le_bytes_len(value, width);
    assert(le_bytes(value, width).drop_first() =~= le_bytes(value / 256, (width - 1) as nat));
}

/// The order of byte strings is decided where they first differ, by the smaller byte.
pub proof fn law_order_is_decided_by_the_first_difference(a: Seq<u8>, b: Seq<u8>, at: int)
    requires
        a.len() == b.len(),
        0 <= at < a.len(),
        forall|i: int| 0 <= i < at ==> #[trigger] a[i] == b[i],
        a[at] != b[at],
    ensures
        lex_le(a, b) == (a[at] < b[at]),
    decreases a.len(),
{
    if at > 0 {
        let rest_a = a.drop_first();
        let rest_b = b.drop_first();
        assert(a[0] == b[0]);
        assert forall|i: int| 0 <= i < at - 1 implies #[trigger] rest_a[i] == rest_b[i] by {
            assert(a[i + 1] == b[i + 1]);
        }
        law_order_is_decided_by_the_first_difference(rest_a, rest_b, at - 1);
    }
}

} // verus!
