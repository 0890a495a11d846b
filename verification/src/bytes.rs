//! Little-endian integers inside byte sequences.
use vstd::prelude::*;

verus! {

/// The two bytes of `x`, least significant first.
pub open spec fn le16(x: u16) -> Seq<u8> {
    seq![(x % 256) as u8, (x / 256) as u8]
}

/// The four bytes of `x`, least significant first.
pub open spec fn le32(x: u32) -> Seq<u8> {
    seq![
        (x % 256) as u8,
        ((x / 256) % 256) as u8,
        ((x / 0x1_0000) % 256) as u8,
        (x / 0x100_0000) as u8,
    ]
}

/// The eight bytes of `x`, least significant first.
pub open spec fn le64(x: u64) -> Seq<u8> {
    le32((x % 0x1_0000_0000) as u32) + le32((x / 0x1_0000_0000) as u32)
}

/// The 16-bit value whose low byte is `lo` and whose high byte is `hi`.
pub open spec fn word(lo: u8, hi: u8) -> u16 {
    (lo + 256 * hi) as u16
}

/// The little-endian 16-bit value at offset `i` of `s`.
pub open spec fn u16_at(s: Seq<u8>, i: int) -> u16 {
    word(s[i], s[i + 1])
}

/// The little-endian 32-bit value at offset `i` of `s`.
pub open spec fn u32_at(s: Seq<u8>, i: int) -> u32 {
    (s[i] + 0x100 * s[i + 1] + 0x1_0000 * s[i + 2] + 0x100_0000 * s[i + 3]) as u32
}

/// What the low eight bits of a length say about it.
pub open spec fn low8(n: nat) -> u8 {
    (n % 256) as u8
}

/// What the low sixteen bits of a length say about it.
pub open spec fn low16(n: nat) -> u16 {
    (n % 0x1_0000) as u16
}

/// `s` back to front.
pub open spec fn reversed(s: Seq<u8>) -> Seq<u8> {
    Seq::new(s.len(), |i: int| s[s.len() - 1 - i])
}

/// Splitting a 16-bit value into bytes and joining them again changes nothing.
pub proof fn le16_round_trips(x: u16)
    ensures
        u16_at(le16(x), 0) == x,
        word(le16(x)[0], le16(x)[1]) == x,
        le16(x).len() == 2,
{
}

/// Joining two bytes and splitting the value again gives the same two bytes.
pub proof fn word_round_trips(lo: u8, hi: u8)
    ensures
        le16(word(lo, hi)) == seq![lo, hi],
{
}

/// Splitting a 32-bit value into bytes and joining them again changes nothing.
pub proof fn le32_round_trips(x: u32)
    ensures
        u32_at(le32(x), 0) == x,
        le32(x).len() == 4,
{
}

/// Reversing twice changes nothing.
pub proof fn reversed_twice(s: Seq<u8>)
    ensures
        reversed(reversed(s)) == s,
{
    assert(reversed(reversed(s)) =~= s);
}

/// Where the brackets stand does not matter.
pub proof fn concat_associates(a: Seq<u8>, b: Seq<u8>, c: Seq<u8>)
    ensures
        (a + b) + c == a + (b + c),
{
    assert((a + b) + c =~= a + (b + c));
}

/// Join two bytes.
pub fn join16(lo: u8, hi: u8) -> (x: u16)
    ensures
        x == word(lo, hi),
{
    lo as u16 + 256 * (hi as u16)
}

/// Join four bytes.
pub fn join32(a: u8, b: u8, c: u8, d: u8) -> (x: u32)
    ensures
        x == u32_at(seq![a, b, c, d], 0),
{
    a as u32 + 0x100 * (b as u32) + 0x1_0000 * (c as u32) + 0x100_0000 * (d as u32)
}

/// The low byte of a length.
pub fn len8(n: usize) -> (x: u8)
    ensures
        x == low8(n as nat),
{
    (n % 256) as u8
}

/// The low sixteen bits of a length.
pub fn len16(n: usize) -> (x: u16)
    ensures
        x == low16(n as nat),
{
    (n % 0x1_0000) as u16
}

/// Append `x` to `out`, least significant byte first.
pub fn push16(out: &mut Vec<u8>, x: u16)
    ensures
        final(out)@ == old(out)@ + le16(x),
{
    out.push((x % 256) as u8);
    out.push((x / 256) as u8);
    assert(out@ =~= old(out)@ + le16(x));
}

/// Append `x` to `out`, least significant byte first.
pub fn push32(out: &mut Vec<u8>, x: u32)
    ensures
        final(out)@ == old(out)@ + le32(x),
{
    out.push((x % 256) as u8);
    out.push(((x / 256) % 256) as u8);
    out.push(((x / 0x1_0000) % 256) as u8);
    out.push((x / 0x100_0000) as u8);
    assert(out@ =~= old(out)@ + le32(x));
}

/// Append `x` to `out`, least significant byte first.
pub fn push64(out: &mut Vec<u8>, x: u64)
    ensures
        final(out)@ == old(out)@ + le64(x),
{
    push32(out, (x % 0x1_0000_0000) as u32);
    push32(out, (x / 0x1_0000_0000) as u32);
    assert(out@ =~= old(out)@ + le64(x));
}

/// Append every byte of `more` to `out`.
pub fn push_all(out: &mut Vec<u8>, more: &[u8])
    ensures
        final(out)@ == old(out)@ + more@,
{
    out.extend_from_slice(more);
    assert(out@ =~= old(out)@ + more@);
}

/// The bytes of `s` from `from` up to `to`.
pub fn copy_range(s: &[u8], from: usize, to: usize) -> (v: Vec<u8>)
    requires
        from <= to <= s@.len(),
    ensures
        v@ == s@.subrange(from as int, to as int),
{
    vstd::slice::slice_to_vec(vstd::slice::slice_subrange(s, from, to))
}

/// Whether two byte strings are the same.
pub fn same(a: &[u8], b: &[u8]) -> (r: bool)
    ensures
        r == (a@ == b@),
{
    if a.len() != b.len() {
        return false;
    }
    let mut i: usize = 0;
    while i < a.len()
        invariant
            i <= a@.len(),
            a@.len() == b@.len(),
            forall|j: int| 0 <= j < i ==> a@[j] == b@[j],
        decreases a@.len() - i,
    {
        if a[i] != b[i] {
            assert(a@[i as int] != b@[i as int]);
            return false;
        }
        i += 1;
    }
    assert(a@ =~= b@);
    true
}

/// The six bytes at `off` of `s`.
pub fn six_at(s: &[u8], off: usize) -> (a: [u8; 6])
    requires
        off + 6 <= s@.len(),
    ensures
        a@ == s@.subrange(off as int, off + 6),
{
    let a: [u8; 6] = [s[off], s[off + 1], s[off + 2], s[off + 3], s[off + 4], s[off + 5]];
    assert(a@ =~= s@.subrange(off as int, off + 6));
    a
}

/// The six bytes of `a` back to front.
pub fn reverse6(a: [u8; 6]) -> (r: [u8; 6])
    ensures
        r@ == reversed(a@),
{
    let r: [u8; 6] = [a[5], a[4], a[3], a[2], a[1], a[0]];
    assert(r@ =~= reversed(a@));
    r
}

/// Least significant first: the first byte counts ones, each further one 256 times as much
/// as the one before.
pub proof fn the_low_byte_comes_first(x: u16, y: u32, z: u64)
    ensures
        le16(x)[0] + 256 * le16(x)[1] == x,
        le32(y).len() == 4,
        le32(y)[0] + 256 * (le32(y)[1] + 256 * (le32(y)[2] + 256 * le32(y)[3])) == y,
        le64(z).len() == 8,
        le64(z)[0] + 256 * (le64(z)[1] + 256 * (le64(z)[2] + 256 * (le64(z)[3] + 256 * (le64(z)[4]
            + 256 * (le64(z)[5] + 256 * (le64(z)[6] + 256 * le64(z)[7])))))) == z,
{
    le32_parts(y);
    le32_parts((z % 0x1_0000_0000) as u32);
    le32_parts((z / 0x1_0000_0000) as u32);
    let lo = le32((z % 0x1_0000_0000) as u32);
    let hi = le32((z / 0x1_0000_0000) as u32);
    assert(le64(z) == lo + hi);
    assert(forall|i: int| 0 <= i < 4 ==> le64(z)[i] == lo[i]);
    assert(forall|i: int| 4 <= i < 8 ==> le64(z)[i] == hi[i - 4]);
}

/// What four bytes are worth.
proof fn le32_parts(y: u32)
    ensures
        le32(y).len() == 4,
        le32(y)[0] + 256 * (le32(y)[1] + 256 * (le32(y)[2] + 256 * le32(y)[3])) == y,
{
}

/// Reading takes the bytes where they stand, the first for the ones.
pub proof fn reading_takes_the_low_byte_first(s: Seq<u8>, i: int)
    ensures
        u16_at(s, i) == s[i] + 256 * s[i + 1],
        u32_at(s, i) == s[i] + 256 * (s[i + 1] + 256 * (s[i + 2] + 256 * s[i + 3])),
{
}

/// A length is told modulo what its field can hold, so one that fits is told as it is.
pub proof fn a_length_that_fits_is_told(n: nat)
    ensures
        n < 0x100 ==> low8(n) == n,
        n < 0x1_0000 ==> low16(n) == n,
        low8(n + 0x100) == low8(n),
        low16(n + 0x1_0000) == low16(n),
{
}

/// Back to front: what stands `i` from the front stands `i` from the end.
pub proof fn reversing_counts_from_the_end(s: Seq<u8>, i: int)
    requires
        0 <= i < s.len(),
    ensures
        reversed(s).len() == s.len(),
        reversed(s)[s.len() - 1 - i] == s[i],
{
}

} // verus!
