//! Numbers inside input reports, whose packing is not known in advance: at any offset,
//! of any width, in either order; and what they do over a recording.
use vstd::arithmetic::power2;
use vstd::prelude::*;
use crate::bytes;
use crate::recording::Side;

verus! {

/// A recording: one report after the other.
pub open spec fn frame_views(frames: Seq<Vec<u8>>) -> Seq<Seq<u8>> {
    frames.map_values(|f: Vec<u8>| f@)
}

/// The number that `raw` stands for where its top bit, of the value `half`, is a sign.
pub open spec fn signed(raw: int, half: int) -> int {
    if raw >= half {
        raw - 2 * half
    } else {
        raw
    }
}

/// The 16-bit field at `off`, where the report reaches that far.
pub open spec fn field_of(frame: Seq<u8>, off: int) -> Option<int> {
    if off + 1 < frame.len() {
        Some(signed(bytes::u16_at(frame, off) as int, 0x8000))
    } else {
        None
    }
}

/// Read a 16-bit field, or `None` where it does not fit.
pub fn field(frame: &[u8], off: usize) -> (r: Option<i16>)
    requires
        off < usize::MAX,
    ensures
        match r {
            Some(v) => field_of(frame@, off as int) == Some(v as int),
            None => field_of(frame@, off as int) is None,
        },
{
    if off + 1 < frame.len() {
        let raw: i32 = frame[off] as i32 + 256 * (frame[off + 1] as i32);
        let v: i32 = if raw >= 0x8000 {
            raw - 0x1_0000
        } else {
            raw
        };
        Some(v as i16)
    } else {
        None
    }
}

/// The smallest of the values that are there.
pub open spec fn least(values: Seq<Option<int>>) -> Option<int>
    decreases values.len(),
{
    if values.len() == 0 {
        None
    } else {
        let rest = least(values.drop_last());
        match (rest, values.last()) {
            (Some(a), Some(b)) => Some(if b < a {
                b
            } else {
                a
            }),
            (Some(a), None) => Some(a),
            (None, b) => b,
        }
    }
}

/// The largest of the values that are there.
pub open spec fn greatest(values: Seq<Option<int>>) -> Option<int>
    decreases values.len(),
{
    if values.len() == 0 {
        None
    } else {
        let rest = greatest(values.drop_last());
        match (rest, values.last()) {
            (Some(a), Some(b)) => Some(if b > a {
                b
            } else {
                a
            }),
            (Some(a), None) => Some(a),
            (None, b) => b,
        }
    }
}

/// How far the values that are there reach, or nothing where there is none.
pub open spec fn spread(values: Seq<Option<int>>) -> int {
    match (least(values), greatest(values)) {
        (Some(lo), Some(hi)) => hi - lo,
        _ => 0,
    }
}

/// The smallest and the largest exist together, are among the values, and bound all of
/// them.
pub proof fn extremes_bound_everything(values: Seq<Option<int>>)
    ensures
        least(values) is Some <==> greatest(values) is Some,
        least(values) is Some ==> values.contains(least(values)) && values.contains(
            greatest(values),
        ) && least(values)->0 <= greatest(values)->0,
        forall|i: int|
            0 <= i < values.len() && (#[trigger] values[i]) is Some ==> least(values) is Some
                && least(values)->0 <= values[i]->0 <= greatest(values)->0,
    decreases values.len(),
{
    if values.len() > 0 {
        let rest = values.drop_last();
        extremes_bound_everything(rest);
        let n = values.len() - 1;
        assert(values[n] == values.last());
        if least(rest) is Some {
            let i = choose|i: int| 0 <= i < rest.len() && rest[i] == least(rest);
            let j = choose|j: int| 0 <= j < rest.len() && rest[j] == greatest(rest);
            assert(values[i] == least(rest));
            assert(values[j] == greatest(rest));
        }
        assert forall|i: int|
            0 <= i < values.len() && (#[trigger] values[i]) is Some implies least(values) is Some
            && least(values)->0 <= values[i]->0 <= greatest(values)->0 by {
            if i < n {
                assert(rest[i] == values[i]);
            }
        }
    }
}

/// A 16-bit field over a recording.
pub open spec fn field_series(frames: Seq<Seq<u8>>, off: int) -> Seq<Option<int>> {
    frames.map_values(|f: Seq<u8>| field_of(f, off))
}

/// How far a 16-bit field reaches over a recording.
pub fn range_of(frames: &[Vec<u8>], off: usize) -> (r: i32)
    requires
        off < usize::MAX,
    ensures
        r == spread(field_series(frame_views(frames@), off as int)),
        0 <= r <= 0xFFFF,
{
    let ghost all = field_series(frame_views(frames@), off as int);
    let mut lo: Option<i32> = None;
    let mut hi: Option<i32> = None;
    let mut i: usize = 0;
    assert(all.take(0) =~= seq![]);
    while i < frames.len()
        invariant
            i <= frames@.len(),
            off < usize::MAX,
            all == field_series(frame_views(frames@), off as int),
            match lo {
                Some(v) => least(all.take(i as int)) == Some(v as int) && -0x8000 <= v <= 0x7FFF,
                None => least(all.take(i as int)) is None,
            },
            match hi {
                Some(v) => greatest(all.take(i as int)) == Some(v as int) && -0x8000 <= v
                    <= 0x7FFF,
                None => greatest(all.take(i as int)) is None,
            },
        decreases frames@.len() - i,
    {
        assert(all.take(i + 1).drop_last() =~= all.take(i as int));
        assert(all[i as int] == field_of(frames@[i as int]@, off as int));
        if let Some(v) = field(frames[i].as_slice(), off) {
            let v: i32 = v as i32;
            lo = match lo {
                Some(w) => Some(if v < w {
                    v
                } else {
                    w
                }),
                None => Some(v),
            };
            hi = match hi {
                Some(w) => Some(if v > w {
                    v
                } else {
                    w
                }),
                None => Some(v),
            };
        }
        i += 1;
    }
    assert(all.take(i as int) =~= all);
    proof {
        extremes_bound_everything(all);
    }
    match (lo, hi) {
        (Some(a), Some(b)) => b - a,
        _ => 0,
    }
}

/// The sum of the values that are there.
pub open spec fn total(values: Seq<Option<int>>) -> int
    decreases values.len(),
{
    if values.len() == 0 {
        0
    } else {
        total(values.drop_last()) + (match values.last() {
            Some(v) => v,
            None => 0,
        })
    }
}

/// How many of the values are there.
pub open spec fn present(values: Seq<Option<int>>) -> nat
    decreases values.len(),
{
    if values.len() == 0 {
        0
    } else {
        present(values.drop_last()) + (if values.last() is Some {
            1nat
        } else {
            0
        })
    }
}

/// `a` divided by `n`, rounded towards zero.
pub open spec fn divided(a: int, n: int) -> int {
    if a >= 0 {
        a / n
    } else {
        -((-a) / n)
    }
}

/// The mean of the values that are there, rounded towards zero.
pub open spec fn mean(values: Seq<Option<int>>) -> int {
    if present(values) == 0 {
        0
    } else {
        divided(total(values), present(values) as int)
    }
}

/// A quotient is no larger than what bounds every term of the sum.
proof fn quotient_bounded(a: int, n: int, bound: int)
    requires
        n > 0,
        0 <= a <= n * bound,
    ensures
        0 <= a / n <= bound,
{
    assert(0 <= a / n <= bound) by (nonlinear_arith)
        requires
            n > 0,
            0 <= a <= n * bound,
    ;
}

/// The mean of a 16-bit field over a recording.
pub fn mean_of(frames: &[Vec<u8>], off: usize) -> (r: i32)
    requires
        off < usize::MAX,
        frames@.len() <= 0xFFFF_FFFF_FFFF,
    ensures
        r == mean(field_series(frame_views(frames@), off as int)),
{
    let ghost all = field_series(frame_views(frames@), off as int);
    let mut sum: i64 = 0;
    let mut n: i64 = 0;
    let mut i: usize = 0;
    assert(all.take(0) =~= seq![]);
    while i < frames.len()
        invariant
            i <= frames@.len() <= 0xFFFF_FFFF_FFFF,
            off < usize::MAX,
            all == field_series(frame_views(frames@), off as int),
            sum == total(all.take(i as int)),
            n == present(all.take(i as int)),
            0 <= n <= i,
            -0x8000 * n <= sum <= 0x8000 * n,
        decreases frames@.len() - i,
    {
        assert(all.take(i + 1).drop_last() =~= all.take(i as int));
        assert(all[i as int] == field_of(frames@[i as int]@, off as int));
        if let Some(v) = field(frames[i].as_slice(), off) {
            sum = sum + v as i64;
            n = n + 1;
        }
        i += 1;
    }
    assert(all.take(i as int) =~= all);
    if n == 0 {
        return 0;
    }
    if sum >= 0 {
        proof {
            quotient_bounded(sum as int, n as int, 0x8000);
        }
        let q: u64 = sum as u64 / n as u64;
        q as i32
    } else {
        proof {
            quotient_bounded(-sum, n as int, 0x8000);
        }
        let q: u64 = (-sum) as u64 / n as u64;
        -(q as i32)
    }
}

/// Encodings that a sensor field might use.
#[derive(Debug, Clone, Copy, PartialEq, Eq, Structural)]
pub enum Codec {
    I16Le,
    I16Be,
    I24Le,
    I24Be,
}

impl Codec {
    /// How many bytes a value takes.
    pub open spec fn size(self) -> nat {
        match self {
            Codec::I16Le => 2,
            Codec::I16Be => 2,
            Codec::I24Le => 3,
            Codec::I24Be => 3,
        }
    }

    /// The value at `off`, where the report reaches that far.
    pub open spec fn value(self, frame: Seq<u8>, off: int) -> Option<int> {
        if off + self.size() > frame.len() {
            None
        } else {
            Some(
                match self {
                    Codec::I16Le => signed(frame[off] + 256 * frame[off + 1], 0x8000),
                    Codec::I16Be => signed(frame[off + 1] + 256 * frame[off], 0x8000),
                    Codec::I24Le => signed(
                        frame[off] + 256 * frame[off + 1] + 0x1_0000 * frame[off + 2],
                        0x80_0000,
                    ),
                    Codec::I24Be => signed(
                        frame[off + 2] + 256 * frame[off + 1] + 0x1_0000 * frame[off],
                        0x80_0000,
                    ),
                },
            )
        }
    }

    /// How many bytes a value takes.
    pub fn width(self) -> (w: usize)
        ensures
            w == self.size(),
    {
        match self {
            Codec::I16Le => 2,
            Codec::I16Be => 2,
            Codec::I24Le => 3,
            Codec::I24Be => 3,
        }
    }

    /// What a codec is called.
    pub open spec fn words(self) -> Seq<char> {
        match self {
            Codec::I16Le => "i16le"@,
            Codec::I16Be => "i16be"@,
            Codec::I24Le => "i24le"@,
            Codec::I24Be => "i24be"@,
        }
    }

    /// What the encoding is called.
    pub fn name(self) -> (s: &'static str)
        ensures
            s@ == self.words(),
    {
        match self {
            Codec::I16Le => "i16le",
            Codec::I16Be => "i16be",
            Codec::I24Le => "i24le",
            Codec::I24Be => "i24be",
        }
    }

    /// Read a signed value, or `None` where it does not fit.
    pub fn read(self, frame: &[u8], off: usize) -> (r: Option<i64>)
        requires
            off + self.size() <= usize::MAX,
        ensures
            match r {
                Some(v) => self.value(frame@, off as int) == Some(v as int) && -0x80_0000 <= v
                    < 0x80_0000,
                None => self.value(frame@, off as int) is None,
            },
    {
        if off + self.width() > frame.len() {
            return None;
        }
        let raw: i64 = match self {
            Codec::I16Le => frame[off] as i64 + 256 * (frame[off + 1] as i64),
            Codec::I16Be => frame[off + 1] as i64 + 256 * (frame[off] as i64),
            Codec::I24Le => frame[off] as i64 + 256 * (frame[off + 1] as i64) + 0x1_0000 * (
            frame[off + 2] as i64),
            Codec::I24Be => frame[off + 2] as i64 + 256 * (frame[off + 1] as i64) + 0x1_0000 * (
            frame[off] as i64),
        };
        let half: i64 = match self {
            Codec::I16Le => 0x8000,
            Codec::I16Be => 0x8000,
            Codec::I24Le => 0x80_0000,
            Codec::I24Be => 0x80_0000,
        };
        if raw >= half {
            Some(raw - 2 * half)
        } else {
            Some(raw)
        }
    }
}

/// A field over a recording.
pub open spec fn series(c: Codec, frames: Seq<Seq<u8>>, off: int) -> Seq<Option<int>> {
    frames.map_values(|f: Seq<u8>| c.value(f, off))
}

/// The smallest and the largest value of a field over a recording.
pub fn extremes(c: Codec, frames: &[Vec<u8>], off: usize) -> (r: Option<(i64, i64)>)
    requires
        off + c.size() <= usize::MAX,
    ensures
        match r {
            Some((lo, hi)) => {
                &&& least(series(c, frame_views(frames@), off as int)) == Some(lo as int)
                &&& greatest(series(c, frame_views(frames@), off as int)) == Some(hi as int)
                &&& -0x80_0000 <= lo <= hi < 0x80_0000
            },
            None => least(series(c, frame_views(frames@), off as int)) is None,
        },
{
    let ghost all = series(c, frame_views(frames@), off as int);
    let mut r: Option<(i64, i64)> = None;
    let mut i: usize = 0;
    assert(all.take(0) =~= seq![]);
    while i < frames.len()
        invariant
            i <= frames@.len(),
            off + c.size() <= usize::MAX,
            all == series(c, frame_views(frames@), off as int),
            match r {
                Some((lo, hi)) => {
                    &&& least(all.take(i as int)) == Some(lo as int)
                    &&& greatest(all.take(i as int)) == Some(hi as int)
                    &&& -0x80_0000 <= lo <= hi < 0x80_0000
                },
                None => least(all.take(i as int)) is None && greatest(all.take(i as int)) is None,
            },
        decreases frames@.len() - i,
    {
        assert(all.take(i + 1).drop_last() =~= all.take(i as int));
        assert(all[i as int] == c.value(frames@[i as int]@, off as int));
        if let Some(v) = c.read(frames[i].as_slice(), off) {
            r = match r {
                Some((lo, hi)) => Some(
                    (
                        if v < lo {
                            v
                        } else {
                            lo
                        },
                        if v > hi {
                            v
                        } else {
                            hi
                        },
                    ),
                ),
                None => Some((v, v)),
            };
        }
        i += 1;
    }
    assert(all.take(i as int) =~= all);
    r
}

/// How far a field reaches over a recording.
pub fn span_of(c: Codec, frames: &[Vec<u8>], off: usize) -> (r: i64)
    requires
        off + c.size() <= usize::MAX,
    ensures
        r == spread(series(c, frame_views(frames@), off as int)),
        0 <= r < 0x100_0000,
{
    proof {
        extremes_bound_everything(series(c, frame_views(frames@), off as int));
    }
    match extremes(c, frames, off) {
        Some((lo, hi)) => hi - lo,
        None => 0,
    }
}

/// Bit `b` of a report, counting each byte from its low end or from its high end.
pub open spec fn bit_of(frame: Seq<u8>, b: int, from_high: bool) -> int {
    let k = b % 8;
    ((frame[b / 8] / power2::pow2(
        (if from_high {
            7 - k
        } else {
            k
        }) as nat,
    ) as u8) % 2) as int
}

/// The number in `width` bits from `off`, low bit first.
pub open spec fn bits_low_first(frame: Seq<u8>, off: int, width: nat) -> int
    decreases width,
{
    if width == 0 {
        0
    } else {
        bits_low_first(frame, off, (width - 1) as nat) + bit_of(frame, off + width - 1, false)
            * power2::pow2((width - 1) as nat)
    }
}

/// The number in `width` bits from `off`, high bit first.
pub open spec fn bits_high_first(frame: Seq<u8>, off: int, width: nat) -> int
    decreases width,
{
    if width == 0 {
        0
    } else {
        2 * bits_high_first(frame, off, (width - 1) as nat) + bit_of(frame, off + width - 1, true)
    }
}

/// Two to the power of `k`.
pub fn power(k: usize) -> (p: u64)
    requires
        k < 64,
    ensures
        p == power2::pow2(k as nat),
        p >= 1,
{
    let mut p: u64 = 1;
    let mut i: usize = 0;
    proof {
        power2::lemma2_to64();
        power2::lemma2_to64_rest();
    }
    while i < k
        invariant
            i <= k < 64,
            p == power2::pow2(i as nat),
            p >= 1,
            power2::pow2(64) == 0x1_0000_0000_0000_0000,
        decreases k - i,
    {
        i += 1;
        proof {
            power2::lemma_pow2_unfold(i as nat);
            power2::lemma_pow2_strictly_increases(i as nat, 64);
        }
        p = p * 2;
    }
    p
}

/// Read one bit of a report.
fn bit(frame: &[u8], b: usize, from_high: bool) -> (r: u64)
    requires
        b / 8 < frame@.len(),
    ensures
        r == bit_of(frame@, b as int, from_high),
        r <= 1,
{
    let k: usize = b % 8;
    let shift: usize = if from_high {
        7 - k
    } else {
        k
    };
    proof {
        power2::lemma2_to64();
    }
    let p: u64 = power(shift);
    assert(p <= 128) by {
        if shift < 7 {
            power2::lemma_pow2_strictly_increases(shift as nat, 7);
        }
    }
    let q: u8 = frame[b / 8] / p as u8;
    (q % 2) as u64
}

/// The signed number in `width` bits from `off`, low bit first, where the report reaches
/// that far.
pub open spec fn packed_value(frame: Seq<u8>, off: int, width: nat) -> Option<int> {
    if (off + width + 7) / 8 <= frame.len() {
        Some(
            signed(
                bits_low_first(frame, off, width),
                power2::pow2((width - 1) as nat) as int,
            ),
        )
    } else {
        None
    }
}

/// The number in `width` bits from `off`, as a signed one, low bit first; `None` where
/// the report does not reach that far.
pub fn bit_field(frame: &[u8], bit_off: usize, width: usize) -> (r: Option<i64>)
    requires
        1 <= width <= 62,
        bit_off + width + 7 <= usize::MAX,
    ensures
        match r {
            Some(v) => {
                &&& packed_value(frame@, bit_off as int, width as nat) == Some(v as int)
                &&& -power2::pow2((width - 1) as nat) <= v < power2::pow2((width - 1) as nat)
            },
            None => packed_value(frame@, bit_off as int, width as nat) is None,
        },
{
    if (bit_off + width + 7) / 8 > frame.len() {
        return None;
    }
    let mut v: u64 = 0;
    let mut scale: u64 = 1;
    let mut i: usize = 0;
    proof {
        power2::lemma2_to64();
        power2::lemma2_to64_rest();
        power2::lemma_pow2_strictly_increases(width as nat, 63);
    }
    while i < width
        invariant
            i <= width <= 62,
            bit_off + width + 7 <= usize::MAX,
            (bit_off + width + 7) / 8 <= frame@.len(),
            v == bits_low_first(frame@, bit_off as int, i as nat),
            scale == power2::pow2(i as nat),
            v < scale,
            power2::pow2(width as nat) < 0x8000_0000_0000_0000,
        decreases width - i,
    {
        let b: u64 = bit(frame, bit_off + i, false);
        proof {
            power2::lemma_pow2_unfold((i + 1) as nat);
            if i + 1 < width {
                power2::lemma_pow2_strictly_increases((i + 1) as nat, width as nat);
            }
            assert(b * scale == 0 || b * scale == scale) by (nonlinear_arith)
                requires
                    b == 0 || b == 1,
            ;
        }
        let ghost before = v;
        if b == 1 {
            v = v + scale;
        }
        proof {
            assert(bits_low_first(frame@, bit_off as int, (i + 1) as nat) == before + b * power2::pow2(
                i as nat,
            ));
            assert(v == before + b * scale) by (nonlinear_arith)
                requires
                    b == 0 || b == 1,
                    v == if b == 1 {
                        before + scale
                    } else {
                        before as int
                    },
            ;
        }
        scale = scale * 2;
        i += 1;
    }
    let half: u64 = power(width - 1);
    proof {
        power2::lemma_pow2_unfold(width as nat);
    }
    if v >= half {
        Some(v as i64 - 2 * (half as i64))
    } else {
        Some(v as i64)
    }
}

/// A packed field over a recording, counted from byte `from` of each report.
pub open spec fn packed_series(frames: Seq<Seq<u8>>, from: int, off: int, width: nat) -> Seq<
    Option<int>,
> {
    frames.map_values(|f: Seq<u8>| packed_value(f.skip(from), off, width))
}

/// The smallest and the largest value of a packed field over a recording.
pub fn packed_extremes(frames: &[Vec<u8>], from: usize, off: usize, width: usize) -> (r: Option<
    (i64, i64),
>)
    requires
        1 <= width <= 56,
        off + width + 7 <= usize::MAX,
        forall|i: int| 0 <= i < frames@.len() ==> from <= (#[trigger] frames@[i])@.len(),
    ensures
        ({
            let all = packed_series(frame_views(frames@), from as int, off as int, width as nat);
            match r {
                Some((lo, hi)) => {
                    &&& least(all) == Some(lo as int)
                    &&& greatest(all) == Some(hi as int)
                    &&& -power2::pow2((width - 1) as nat) <= lo <= hi < power2::pow2(
                        (width - 1) as nat,
                    )
                },
                None => least(all) is None && greatest(all) is None,
            }
        }),
{
    let ghost all = packed_series(frame_views(frames@), from as int, off as int, width as nat);
    let ghost half = power2::pow2((width - 1) as nat);
    let mut r: Option<(i64, i64)> = None;
    let mut i: usize = 0;
    assert(all.take(0) =~= seq![]);
    while i < frames.len()
        invariant
            i <= frames@.len(),
            1 <= width <= 56,
            off + width + 7 <= usize::MAX,
            half == power2::pow2((width - 1) as nat),
            forall|j: int| 0 <= j < frames@.len() ==> from <= (#[trigger] frames@[j])@.len(),
            all == packed_series(frame_views(frames@), from as int, off as int, width as nat),
            match r {
                Some((lo, hi)) => {
                    &&& least(all.take(i as int)) == Some(lo as int)
                    &&& greatest(all.take(i as int)) == Some(hi as int)
                    &&& -half <= lo <= hi < half
                },
                None => least(all.take(i as int)) is None && greatest(all.take(i as int)) is None,
            },
        decreases frames@.len() - i,
    {
        assert(all.take(i + 1).drop_last() =~= all.take(i as int));
        let f = frames[i].as_slice();
        let tail = vstd::slice::slice_subrange(f, from, f.len());
        assert(tail@ =~= frames@[i as int]@.skip(from as int));
        assert(all[i as int] == packed_value(tail@, off as int, width as nat));
        if let Some(v) = bit_field(tail, off, width) {
            r = match r {
                Some((lo, hi)) => Some(
                    (
                        if v < lo {
                            v
                        } else {
                            lo
                        },
                        if v > hi {
                            v
                        } else {
                            hi
                        },
                    ),
                ),
                None => Some((v, v)),
            };
        }
        i += 1;
    }
    assert(all.take(i as int) =~= all);
    r
}

/// The signed number in `width` bits from `off`, high bit first, where the report reaches
/// that far.
pub open spec fn packed_value_msb(frame: Seq<u8>, off: int, width: nat) -> Option<int> {
    if (off + width + 7) / 8 <= frame.len() {
        Some(
            signed(
                bits_high_first(frame, off, width),
                power2::pow2((width - 1) as nat) as int,
            ),
        )
    } else {
        None
    }
}

/// The same, high bit first.
pub fn bit_field_msb(frame: &[u8], bit_off: usize, width: usize) -> (r: Option<i64>)
    requires
        1 <= width <= 62,
        bit_off + width + 7 <= usize::MAX,
    ensures
        match r {
            Some(v) => packed_value_msb(frame@, bit_off as int, width as nat) == Some(v as int),
            None => packed_value_msb(frame@, bit_off as int, width as nat) is None,
        },
{
    if (bit_off + width + 7) / 8 > frame.len() {
        return None;
    }
    let mut v: u64 = 0;
    let mut i: usize = 0;
    proof {
        power2::lemma2_to64();
        power2::lemma2_to64_rest();
        power2::lemma_pow2_strictly_increases(width as nat, 63);
    }
    while i < width
        invariant
            i <= width <= 62,
            bit_off + width + 7 <= usize::MAX,
            (bit_off + width + 7) / 8 <= frame@.len(),
            v == bits_high_first(frame@, bit_off as int, i as nat),
            v < power2::pow2(i as nat),
            power2::pow2(width as nat) < 0x8000_0000_0000_0000,
        decreases width - i,
    {
        let b: u64 = bit(frame, bit_off + i, true);
        proof {
            power2::lemma_pow2_unfold((i + 1) as nat);
            if i + 1 < width {
                power2::lemma_pow2_strictly_increases((i + 1) as nat, width as nat);
            }
        }
        v = 2 * v + b;
        i += 1;
    }
    let half: u64 = power(width - 1);
    proof {
        power2::lemma_pow2_unfold(width as nat);
    }
    if v >= half {
        Some(v as i64 - 2 * (half as i64))
    } else {
        Some(v as i64)
    }
}

/// The number that bytes stand for, least significant first.
pub open spec fn number_low_first(s: Seq<u8>) -> int
    decreases s.len(),
{
    if s.len() == 0 {
        0
    } else {
        s[0] + 256 * number_low_first(s.skip(1))
    }
}

/// The number that bytes stand for, most significant first.
pub open spec fn number_high_first(s: Seq<u8>) -> int
    decreases s.len(),
{
    if s.len() == 0 {
        0
    } else {
        256 * number_high_first(s.drop_last()) + s.last()
    }
}

/// How many bytes `width` bits take.
pub open spec fn bytes_for(width: int) -> int {
    (width + 7) / 8
}

/// The lowest `width` bits of the number at `off`, where the report reaches that far.
pub open spec fn masked_value(frame: Seq<u8>, off: int, width: nat, be: bool) -> Option<int> {
    let end = off + bytes_for(width as int);
    if end <= frame.len() {
        Some(
            (if be {
                number_high_first(frame.subrange(off, end))
            } else {
                number_low_first(frame.subrange(off, end))
            }) % (power2::pow2(width) as int),
        )
    } else {
        None
    }
}

/// The lowest `width` bits of the number at `off`, in either byte order; `None` where the
/// report does not reach that far. Unsigned on purpose: for unwrapping only the value
/// modulo the width matters.
pub fn read_masked(frame: &[u8], off: usize, width: usize, be: bool) -> (r: Option<u64>)
    requires
        width < 64,
        off + 8 <= usize::MAX,
    ensures
        match r {
            Some(v) => masked_value(frame@, off as int, width as nat, be) == Some(v as int),
            None => masked_value(frame@, off as int, width as nat, be) is None,
        },
{
    let n: usize = (width + 7) / 8;
    if off + n > frame.len() {
        return None;
    }
    let ghost s = frame@.subrange(off as int, off + n);
    proof {
        power2::lemma2_to64();
        power2::lemma2_to64_rest();
    }
    let mut v: u64 = 0;
    if be {
        let mut i: usize = 0;
        assert(s.take(0) =~= seq![]);
        while i < n
            invariant
                i <= n <= 8,
                off + 8 <= usize::MAX,
                off + n <= frame@.len(),
                s == frame@.subrange(off as int, off + n),
                v == number_high_first(s.take(i as int)),
                v < power2::pow2(8 * i as nat),
                power2::pow2(64) == 0x1_0000_0000_0000_0000,
            decreases n - i,
        {
            assert(s.take(i + 1).drop_last() =~= s.take(i as int));
            assert(s.take(i + 1).last() == frame@[off + i]);
            proof {
                eight_more_bits(i as nat);
            }
            v = 256 * v + frame[off + i] as u64;
            i += 1;
        }
        assert(s.take(n as int) =~= s);
    } else {
        let mut i: usize = n;
        assert(s.skip(n as int) =~= seq![]);
        while i > 0
            invariant
                i <= n <= 8,
                off + 8 <= usize::MAX,
                off + n <= frame@.len(),
                s == frame@.subrange(off as int, off + n),
                v == number_low_first(s.skip(i as int)),
                v < power2::pow2(8 * (n - i) as nat),
                power2::pow2(64) == 0x1_0000_0000_0000_0000,
            decreases i,
        {
            proof {
                eight_more_bits((n - i) as nat);
            }
            i -= 1;
            assert(s.skip(i as int).skip(1) =~= s.skip(i + 1));
            assert(s.skip(i as int)[0] == frame@[off + i]);
            v = frame[off + i] as u64 + 256 * v;
        }
        assert(s.skip(0) =~= s);
    }
    let m: u64 = power(width);
    Some(v % m)
}

/// One more byte needs eight more bits, and up to eight bytes fit a 64-bit number.
proof fn eight_more_bits(i: nat)
    ensures
        power2::pow2(8 * (i + 1)) == 256 * power2::pow2(8 * i),
        i < 8 ==> power2::pow2(8 * (i + 1)) <= power2::pow2(64),
{
    power2::lemma_pow2_adds(8, 8 * i);
    power2::lemma2_to64();
    assert(8 + 8 * i == 8 * (i + 1));
    if i < 7 {
        power2::lemma_pow2_strictly_increases(8 * (i + 1), 64);
    }
}

/// The difference between two values that wrap at `m`, by the shorter way round.
pub open spec fn step_mod(from: int, to: int, m: int) -> int {
    let d = to - from;
    if 2 * d > m {
        d - m
    } else if 2 * d < -m {
        d + m
    } else {
        d
    }
}

/// A series that wraps at `m`, made continuous: it starts at zero, and every step is
/// taken the shorter way round.
pub open spec fn unwrapped(v: Seq<u64>, m: int) -> Seq<int>
    decreases v.len(),
{
    if v.len() == 0 {
        seq![]
    } else if v.len() == 1 {
        seq![0]
    } else {
        let rest = unwrapped(v.drop_last(), m);
        rest.push(rest.last() + step_mod(v[v.len() - 2] as int, v.last() as int, m))
    }
}

/// A continuous series is as long as the one it was made of.
proof fn unwrapped_len(v: Seq<u64>, m: int)
    ensures
        unwrapped(v, m).len() == v.len(),
    decreases v.len(),
{
    if v.len() > 1 {
        unwrapped_len(v.drop_last(), m);
    }
}

/// The numbers of `all`, as numbers without a bound.
pub open spec fn numbers(all: Seq<i128>) -> Seq<int> {
    all.map_values(|x: i128| x as int)
}

/// Make a series continuous that wraps at two to the power of `width`.
pub fn unwrap_mod(v: &[u64], width: usize) -> (out: Vec<i128>)
    requires
        1 <= width < 64,
        v@.len() <= 0xFFFF_FFFF_FFFF,
    ensures
        numbers(out@) == unwrapped(v@, power2::pow2(width as nat) as int),
{
    let m: i128 = power(width) as i128;
    let ghost gm = m as int;
    let mut out: Vec<i128> = Vec::new();
    let mut acc: i128 = 0;
    let mut i: usize = 0;
    assert(v@.take(0) =~= seq![]);
    assert(numbers(out@) =~= unwrapped(v@.take(0), gm));
    while i < v.len()
        invariant
            i <= v@.len() <= 0xFFFF_FFFF_FFFF,
            1 <= m <= u64::MAX,
            gm == m,
            numbers(out@) == unwrapped(v@.take(i as int), gm),
            out@.len() == i,
            i == 0 ==> acc == 0,
            i > 0 ==> acc == out@.last(),
            -0x2_0000_0000_0000_0000 * i <= acc <= 0x2_0000_0000_0000_0000 * i,
        decreases v@.len() - i,
    {
        let ghost before = numbers(out@);
        assert(v@.take(i + 1).drop_last() =~= v@.take(i as int));
        if i > 0 {
            let d: i128 = v[i] as i128 - v[i - 1] as i128;
            let step: i128 = if 2 * d > m {
                d - m
            } else if 2 * d < -m {
                d + m
            } else {
                d
            };
            assert(step == step_mod(v@[i - 1] as int, v@[i as int] as int, gm));
            acc = acc + step;
            assert(before.last() == out@.last());
        }
        out.push(acc);
        assert(numbers(out@) =~= before.push(acc as int));
        i += 1;
        assert(numbers(out@) =~= unwrapped(v@.take(i as int), gm));
    }
    assert(v@.take(i as int) =~= v@);
    out
}

/// Unwrapping only ever adds whole turns: every value is off its start by what the
/// series says, but for a multiple of the turn.
pub proof fn unwrapping_adds_whole_turns(v: Seq<u64>, m: int, i: int)
    requires
        m > 0,
        0 <= i < v.len(),
    ensures
        unwrapped(v, m).len() == v.len(),
        exists|k: int| unwrapped(v, m)[i] == v[i] - v[0] + #[trigger] (k * m),
    decreases v.len(),
{
    unwrapped_len(v, m);
    let rest = v.drop_last();
    if v.len() == 1 {
        assert(0 * m == 0) by (nonlinear_arith);
        assert(unwrapped(v, m)[i] == v[i] - v[0] + 0 * m);
    } else if i < v.len() - 1 {
        unwrapping_adds_whole_turns(rest, m, i);
        let k = choose|k: int| unwrapped(rest, m)[i] == rest[i] - rest[0] + #[trigger] (k * m);
        assert(unwrapped(v, m)[i] == v[i] - v[0] + k * m);
    } else {
        unwrapping_adds_whole_turns(rest, m, i - 1);
        unwrapped_len(rest, m);
        let k = choose|k: int|
            unwrapped(rest, m)[i - 1] == rest[i - 1] - rest[0] + #[trigger] (k * m);
        let d = v[i] - v[i - 1];
        let t = if 2 * d > m {
            -1int
        } else if 2 * d < -m {
            1int
        } else {
            0int
        };
        assert(step_mod(v[i - 1] as int, v[i] as int, m) == d + t * m) by (nonlinear_arith)
            requires
                t == if 2 * d > m {
                    -1int
                } else if 2 * d < -m {
                    1int
                } else {
                    0int
                },
                d == v[i] - v[i - 1],
        ;
        assert((k + t) * m == k * m + t * m) by (nonlinear_arith);
        assert(unwrapped(v, m)[i] == v[i] - v[0] + (k + t) * m);
    }
}

/// Where the accelerometer stands in a report of a half.
pub open spec fn accel_base_of(side: Side) -> int {
    match side {
        Side::Right => 34,
        Side::Left => 33,
    }
}

/// Where the accelerometer stands in a report of a half.
fn accel_base(side: Side) -> (b: usize)
    ensures
        b == accel_base_of(side),
{
    match side {
        Side::Right => 34,
        Side::Left => 33,
    }
}

/// Four bytes of the motion that a report tells, read in each way that they may be meant.
#[derive(Debug, Clone, Copy, PartialEq, Eq)]
pub struct MotionGroup {
    pub bytes: [u8; 4],
    /// The last three as a number.
    pub unsigned: u32,
    /// The last three as a number with a sign.
    pub signed: i32,
    /// All four as a number.
    pub whole: u32,
}

/// A [`MotionGroup`] with its bytes as a sequence.
#[verifier::ext_equal]
pub struct MotionGroupView {
    pub bytes: Seq<u8>,
    pub unsigned: int,
    pub signed: int,
    pub whole: int,
}

impl View for MotionGroup {
    type V = MotionGroupView;

    open spec fn view(&self) -> MotionGroupView {
        MotionGroupView {
            bytes: self.bytes@,
            unsigned: self.unsigned as int,
            signed: self.signed as int,
            whole: self.whole as int,
        }
    }
}

/// The groups of `all`, each by its view.
pub open spec fn group_views(all: Seq<MotionGroup>) -> Seq<MotionGroupView> {
    all.map_values(|g: MotionGroup| g@)
}

/// Four bytes as a group, the lowest part of each number first.
pub open spec fn group_of(b: Seq<u8>) -> MotionGroupView {
    let high = b[1] + 256 * b[2] + 0x1_0000 * b[3];
    MotionGroupView {
        bytes: b,
        unsigned: high,
        signed: signed(high, 0x80_0000),
        whole: b[0] + 256 * high,
    }
}

/// The first `n` groups of a report of a half, as far as it reaches. They stand before the
/// accelerometer.
pub open spec fn first_groups(side: Side, frame: Seq<u8>, n: nat) -> Seq<MotionGroupView>
    decreases n,
{
    if n == 0 {
        seq![]
    } else {
        let at = accel_base_of(side) - 14 + 4 * (n - 1);
        let most = first_groups(side, frame, (n - 1) as nat);
        if at + 4 <= frame.len() {
            most.push(group_of(frame.subrange(at, at + 4)))
        } else {
            most
        }
    }
}

/// How many groups a report has.
pub const MOTION_GROUPS: usize = 3;

/// The groups of a report of a half.
pub open spec fn groups_of(side: Side, frame: Seq<u8>) -> Seq<MotionGroupView> {
    first_groups(side, frame, MOTION_GROUPS as nat)
}

/// Read the groups of a report of a half.
pub fn motion_groups(side: Side, frame: &[u8]) -> (v: Vec<MotionGroup>)
    ensures
        group_views(v@) == groups_of(side, frame@),
{
    let base: usize = accel_base(side) - 14;
    let mut v: Vec<MotionGroup> = Vec::new();
    let mut n: usize = 0;
    assert(group_views(v@) =~= seq![]);
    while n < MOTION_GROUPS
        invariant
            n <= MOTION_GROUPS,
            base == accel_base_of(side) - 14,
            group_views(v@) == first_groups(side, frame@, n as nat),
        decreases MOTION_GROUPS - n,
    {
        let at: usize = base + 4 * n;
        if at + 4 <= frame.len() {
            let b: [u8; 4] = [frame[at], frame[at + 1], frame[at + 2], frame[at + 3]];
            let high: u32 = b[1] as u32 + 256 * (b[2] as u32) + 0x1_0000 * (b[3] as u32);
            let g = MotionGroup {
                bytes: b,
                unsigned: high,
                signed: if high >= 0x80_0000 {
                    high as i32 - 0x100_0000
                } else {
                    high as i32
                },
                whole: b[0] as u32 + 256 * high,
            };
            assert(b@ =~= frame@.subrange(at as int, at + 4));
            let ghost before = group_views(v@);
            v.push(g);
            assert(group_views(v@) =~= before.push(g@));
        }
        n += 1;
    }
    v
}

/// One axis of the accelerometer in a report of a half.
pub open spec fn accel_of(side: Side, frame: Seq<u8>, axis: int) -> int {
    match field_of(frame, accel_base_of(side) + 4 * axis) {
        Some(v) => v,
        None => 0,
    }
}

/// Read the accelerometer of a report of a half, nothing where the report does not reach
/// that far.
pub fn accel_fields(side: Side, frame: &[u8]) -> (a: [i16; 3])
    ensures
        forall|i: int|
            #![trigger a@[i]]
            0 <= i < 3 ==> a@[i] == accel_of(side, frame@, i),
{
    let base: usize = accel_base(side);
    let x: i16 = match field(frame, base) {
        Some(v) => v,
        None => 0,
    };
    let y: i16 = match field(frame, base + 4) {
        Some(v) => v,
        None => 0,
    };
    let z: i16 = match field(frame, base + 8) {
        Some(v) => v,
        None => 0,
    };
    [x, y, z]
}

/// A sign changes a number by a whole turn at most, and leaves it between half a turn below
/// zero and half a turn above.
pub proof fn a_signed_number_is_the_same_modulo_a_turn(raw: int, half: int)
    requires
        0 <= raw < 2 * half,
    ensures
        -half <= signed(raw, half) < half,
        signed(raw, half) == raw || signed(raw, half) == raw - 2 * half,
{
}

/// The bytes of a number of `n` bytes below zero or not, least significant first.
pub open spec fn low_first(v: int, n: nat) -> Seq<u8>
    decreases n,
{
    if n == 0 {
        seq![]
    } else {
        seq![(v % 256) as u8] + low_first(v / 256, (n - 1) as nat)
    }
}

/// A number that is written into a report, at any place and in any of the encodings, is read
/// back from there, below zero or not.
pub proof fn a_written_number_is_read_back(before: Seq<u8>, small: int, large: int, more: Seq<u8>)
    requires
        -0x8000 <= small < 0x8000,
        -0x80_0000 <= large < 0x80_0000,
    ensures
        ({
            let off = before.len() as int;
            let s = low_first(small, 2);
            let l = low_first(large, 3);
            &&& Codec::I16Le.value(before + s + more, off) == Some(small)
            &&& Codec::I16Be.value(before + bytes::reversed(s) + more, off) == Some(small)
            &&& Codec::I24Le.value(before + l + more, off) == Some(large)
            &&& Codec::I24Be.value(before + bytes::reversed(l) + more, off) == Some(large)
            &&& field_of(before + s + more, off) == Some(small)
        }),
{
    reveal_with_fuel(low_first, 4);
    let off = before.len() as int;
    let s = low_first(small, 2);
    let l = low_first(large, 3);
    assert(s =~= seq![(small % 256) as u8, (small / 256 % 256) as u8]);
    assert(l =~= seq![
        (large % 256) as u8,
        (large / 256 % 256) as u8,
        (large / 256 / 256 % 256) as u8,
    ]);
    let a = before + s + more;
    assert(a[off] == s[0] && a[off + 1] == s[1]);
    let b = before + bytes::reversed(s) + more;
    assert(b[off] == s[1] && b[off + 1] == s[0]);
    let c = before + l + more;
    assert(c[off] == l[0] && c[off + 1] == l[1] && c[off + 2] == l[2]);
    let d = before + bytes::reversed(l) + more;
    assert(d[off] == l[2] && d[off + 1] == l[1] && d[off + 2] == l[0]);
    assert(s[0] + 256 * s[1] == if small < 0 {
        small + 0x1_0000
    } else {
        small
    });
    assert(l[0] + 256 * l[1] + 0x1_0000 * l[2] == if large < 0 {
        large + 0x100_0000
    } else {
        large
    });
}

/// A number is read only where the report reaches as far as its last byte.
pub proof fn a_number_that_does_not_fit_is_not_read(frame: Seq<u8>, off: int)
    ensures
        Codec::I16Le.value(frame, off) is Some <==> off + 2 <= frame.len(),
        Codec::I16Be.value(frame, off) is Some <==> off + 2 <= frame.len(),
        Codec::I24Le.value(frame, off) is Some <==> off + 3 <= frame.len(),
        Codec::I24Be.value(frame, off) is Some <==> off + 3 <= frame.len(),
        field_of(frame, off) is Some <==> off + 2 <= frame.len(),
{
}

/// How far values reach is the most that any two of them differ, and no two differ by more;
/// of one alone, or of none, it is nothing.
pub proof fn the_spread_is_the_greatest_difference(values: Seq<Option<int>>)
    ensures
        forall|i: int, j: int|
            0 <= i < values.len() && 0 <= j < values.len() && (#[trigger] values[i]) is Some && (
            #[trigger] values[j]) is Some ==> values[i]->0 - values[j]->0 <= spread(values),
        present(values) > 0 ==> exists|i: int, j: int|
            0 <= i < values.len() && 0 <= j < values.len() && (#[trigger] values[i]) is Some && (
            #[trigger] values[j]) is Some && values[i]->0 - values[j]->0 == spread(values),
        present(values) == 0 ==> spread(values) == 0,
        spread(values) >= 0,
{
    extremes_bound_everything(values);
    present_means_some(values);
    if least(values) is Some {
        let i = choose|i: int| 0 <= i < values.len() && values[i] == greatest(values);
        let j = choose|j: int| 0 <= j < values.len() && values[j] == least(values);
        assert(values[i]->0 - values[j]->0 == spread(values));
    }
}

/// Something is there exactly where something is counted.
proof fn present_means_some(values: Seq<Option<int>>)
    ensures
        present(values) <= values.len(),
        present(values) > 0 <==> least(values) is Some,
        present(values) == values.len() <==> forall|i: int|
            0 <= i < values.len() ==> (#[trigger] values[i]) is Some,
    decreases values.len(),
{
    if values.len() > 0 {
        let most = values.drop_last();
        let n = values.len() - 1;
        present_means_some(most);
        assert(forall|i: int| 0 <= i < n ==> most[i] == #[trigger] values[i]);
        assert(values[n] == values.last());
        if present(values) == values.len() {
            assert forall|i: int| 0 <= i < values.len() implies (#[trigger] values[i]) is Some by {
                if i < n {
                    assert(most[i] is Some);
                }
            }
        }
        if forall|i: int| 0 <= i < values.len() ==> (#[trigger] values[i]) is Some {
            assert forall|i: int| 0 <= i < n implies (#[trigger] most[i]) is Some by {
                assert(values[i] is Some);
            }
        }
    }
}

/// The sum and the count of values taken together are those of the parts, and a value counts
/// once, for what it is.
pub proof fn totals_add_up(a: Seq<Option<int>>, b: Seq<Option<int>>, v: int)
    ensures
        total(a + b) == total(a) + total(b),
        present(a + b) == present(a) + present(b),
        total(seq![Some(v)]) == v && present(seq![Some(v)]) == 1,
        total(seq![None]) == 0 && present(seq![None::<int>]) == 0,
        total(seq![]) == 0 && present(seq![]) == 0,
    decreases b.len(),
{
    reveal_with_fuel(total, 2);
    reveal_with_fuel(present, 2);
    if b.len() == 0 {
        assert(a + b =~= a);
    } else {
        totals_add_up(a, b.drop_last(), v);
        assert((a + b).drop_last() =~= a + b.drop_last());
        assert((a + b).last() == b.last());
    }
}

/// The mean is the quotient of the sum and the count, rounded towards zero: multiplied again
/// it lacks less than the count, and never goes past the sum.
pub proof fn the_mean_is_rounded_towards_zero(values: Seq<Option<int>>)
    requires
        present(values) > 0,
    ensures
        ({
            let n = present(values) as int;
            let m = mean(values);
            &&& total(values) >= 0 ==> 0 <= m && n * m <= total(values) < n * m + n
            &&& total(values) <= 0 ==> m <= 0 && n * m - n < total(values) <= n * m
        }),
{
    let n = present(values) as int;
    let t = total(values);
    let a = if t >= 0 {
        t
    } else {
        -t
    };
    vstd::arithmetic::div_mod::lemma_fundamental_div_mod(a, n);
    vstd::arithmetic::div_mod::lemma_mod_bound(a, n);
    vstd::arithmetic::div_mod::lemma_div_pos_is_pos(a, n);
    let q = a / n;
    assert(n * (-q) == -(n * q)) by (nonlinear_arith);
    if t == 0 {
        assert(q == 0) by (nonlinear_arith)
            requires
                0 == n * q + a % n,
                0 <= a % n,
                n > 0,
                q >= 0,
        ;
    }
}

/// Bits taken together are those of the parts: with the low bit first, later ones are worth
/// more, and with the high bit first, earlier ones are. One bit is worth itself.
pub proof fn bits_add_up(frame: Seq<u8>, off: int, a: nat, b: nat)
    ensures
        bits_low_first(frame, off, a + b) == bits_low_first(frame, off, a) + power2::pow2(a)
            * bits_low_first(frame, off + a, b),
        bits_high_first(frame, off, a + b) == power2::pow2(b) * bits_high_first(frame, off, a)
            + bits_high_first(frame, off + a, b),
        bits_low_first(frame, off, 1) == bit_of(frame, off, false),
        bits_high_first(frame, off, 1) == bit_of(frame, off, true),
        bits_low_first(frame, off, 0) == 0,
        bits_high_first(frame, off, 0) == 0,
    decreases b,
{
    reveal_with_fuel(bits_low_first, 2);
    reveal_with_fuel(bits_high_first, 2);
    power2::lemma2_to64();
    let one = power2::pow2(0) as int;
    let bit_one = bit_of(frame, off, false);
    assert(bit_one * one == bit_one) by (nonlinear_arith)
        requires
            one == 1,
    ;
    assert(bits_low_first(frame, off, 1) == bits_low_first(frame, off, 0) + bit_of(
        frame,
        off + 1 - 1,
        false,
    ) * power2::pow2(0));
    if b > 0 {
        let c = (b - 1) as nat;
        bits_add_up(frame, off, a, c);
        assert(a + b - 1 == a + c);
        let bit_low = bit_of(frame, off + a + c, false);
        let low = bits_low_first(frame, off + a, c);
        let high = bits_high_first(frame, off, a);
        let pa = power2::pow2(a) as int;
        let pc = power2::pow2(c) as int;
        power2::lemma_pow2_adds(a, c);
        power2::lemma_pow2_unfold(b);
        assert(bit_low * (pa * pc) + pa * low == pa * (low + bit_low * pc)) by (nonlinear_arith);
        assert(2 * (pc * high) == (2 * pc) * high) by (nonlinear_arith);
        assert(bits_low_first(frame, off, a + b) == bits_low_first(frame, off, a + c) + bit_low
            * power2::pow2(a + c));
        let later = bits_high_first(frame, off + a, c);
        let bit_high = bit_of(frame, off + a + c, true);
        assert(bits_high_first(frame, off, a + b) == 2 * bits_high_first(frame, off, a + c)
            + bit_high);
        assert(bits_high_first(frame, off + a, b) == 2 * later + bit_high);
        assert(bits_high_first(frame, off, a + c) == pc * high + later);
        assert(power2::pow2(b) as int == 2 * pc);
        assert(power2::pow2(b) * high == 2 * (pc * high)) by (nonlinear_arith)
            requires
                power2::pow2(b) as int == 2 * pc,
        ;
    } else {
        let high = bits_high_first(frame, off, a);
        assert(one * high == high) by (nonlinear_arith)
            requires
                one == 1,
        ;
        assert(bits_high_first(frame, off + a, 0) == 0);
        assert(a + b == a);
        assert(power2::pow2(a) * 0 == 0) by (nonlinear_arith);
        assert(power2::pow2(0) == 1);
    }
}

/// Eight bits from the start of a byte are that byte, low bit first.
#[verifier::spinoff_prover]
#[verifier::rlimit(40)]
proof fn eight_low_bits(frame: Seq<u8>, i: int)
    requires
        0 <= i,
    ensures
        bits_low_first(frame, 8 * i, 8) == frame[i],
{
    power2::lemma2_to64();
    bits_of_a_byte(frame[i]);
    bit_in_byte(frame, i, 0);
    bit_in_byte(frame, i, 1);
    bit_in_byte(frame, i, 2);
    bit_in_byte(frame, i, 3);
    bit_in_byte(frame, i, 4);
    bit_in_byte(frame, i, 5);
    bit_in_byte(frame, i, 6);
    bit_in_byte(frame, i, 7);
    assert(bit_of(frame, 8 * i + 0, false) == frame[i] / 1u8 % 2);
    assert(bit_of(frame, 8 * i + 0, false) == frame[i] % 2);
    assert(bit_of(frame, 8 * i + 1, false) == frame[i] / 2 % 2);
    assert(bit_of(frame, 8 * i + 2, false) == frame[i] / 4 % 2);
    assert(bit_of(frame, 8 * i + 3, false) == frame[i] / 8 % 2);
    assert(bit_of(frame, 8 * i + 4, false) == frame[i] / 16 % 2);
    assert(bit_of(frame, 8 * i + 5, false) == frame[i] / 32 % 2);
    assert(bit_of(frame, 8 * i + 6, false) == frame[i] / 64 % 2);
    assert(bit_of(frame, 8 * i + 7, false) == frame[i] / 128 % 2);
    assert(bits_low_first(frame, 8 * i, 0) == 0);
    assert(bits_low_first(frame, 8 * i, 1) == bits_low_first(frame, 8 * i, 0) + bit_of(
        frame,
        8 * i + 0,
        false,
    ) * 1);
    assert(bits_low_first(frame, 8 * i, 2) == bits_low_first(frame, 8 * i, 1) + bit_of(
        frame,
        8 * i + 1,
        false,
    ) * 2);
    assert(bits_low_first(frame, 8 * i, 3) == bits_low_first(frame, 8 * i, 2) + bit_of(
        frame,
        8 * i + 2,
        false,
    ) * 4);
    assert(bits_low_first(frame, 8 * i, 4) == bits_low_first(frame, 8 * i, 3) + bit_of(
        frame,
        8 * i + 3,
        false,
    ) * 8);
    assert(bits_low_first(frame, 8 * i, 5) == bits_low_first(frame, 8 * i, 4) + bit_of(
        frame,
        8 * i + 4,
        false,
    ) * 16);
    assert(bits_low_first(frame, 8 * i, 6) == bits_low_first(frame, 8 * i, 5) + bit_of(
        frame,
        8 * i + 5,
        false,
    ) * 32);
    assert(bits_low_first(frame, 8 * i, 7) == bits_low_first(frame, 8 * i, 6) + bit_of(
        frame,
        8 * i + 6,
        false,
    ) * 64);
    assert(bits_low_first(frame, 8 * i, 8) == bits_low_first(frame, 8 * i, 7) + bit_of(
        frame,
        8 * i + 7,
        false,
    ) * 128);
}

/// Eight bits from the start of a byte are that byte, high bit first.
#[verifier::spinoff_prover]
#[verifier::rlimit(40)]
proof fn eight_high_bits(frame: Seq<u8>, i: int)
    requires
        0 <= i,
    ensures
        bits_high_first(frame, 8 * i, 8) == frame[i],
{
    power2::lemma2_to64();
    bits_of_a_byte(frame[i]);
    bit_in_byte(frame, i, 0);
    bit_in_byte(frame, i, 1);
    bit_in_byte(frame, i, 2);
    bit_in_byte(frame, i, 3);
    bit_in_byte(frame, i, 4);
    bit_in_byte(frame, i, 5);
    bit_in_byte(frame, i, 6);
    bit_in_byte(frame, i, 7);
    assert(bit_of(frame, 8 * i + 0, true) == frame[i] / 128 % 2);
    assert(bit_of(frame, 8 * i + 1, true) == frame[i] / 64 % 2);
    assert(bit_of(frame, 8 * i + 2, true) == frame[i] / 32 % 2);
    assert(bit_of(frame, 8 * i + 3, true) == frame[i] / 16 % 2);
    assert(bit_of(frame, 8 * i + 4, true) == frame[i] / 8 % 2);
    assert(bit_of(frame, 8 * i + 5, true) == frame[i] / 4 % 2);
    assert(bit_of(frame, 8 * i + 6, true) == frame[i] / 2 % 2);
    assert(bit_of(frame, 8 * i + 7, true) == frame[i] / 1u8 % 2);
    assert(bit_of(frame, 8 * i + 7, true) == frame[i] % 2);
    assert(bits_high_first(frame, 8 * i, 0) == 0);
    assert(bits_high_first(frame, 8 * i, 1) == 2 * bits_high_first(frame, 8 * i, 0)
        + bit_of(frame, 8 * i + 0, true));
    assert(bits_high_first(frame, 8 * i, 2) == 2 * bits_high_first(frame, 8 * i, 1)
        + bit_of(frame, 8 * i + 1, true));
    assert(bits_high_first(frame, 8 * i, 3) == 2 * bits_high_first(frame, 8 * i, 2)
        + bit_of(frame, 8 * i + 2, true));
    assert(bits_high_first(frame, 8 * i, 4) == 2 * bits_high_first(frame, 8 * i, 3)
        + bit_of(frame, 8 * i + 3, true));
    assert(bits_high_first(frame, 8 * i, 5) == 2 * bits_high_first(frame, 8 * i, 4)
        + bit_of(frame, 8 * i + 4, true));
    assert(bits_high_first(frame, 8 * i, 6) == 2 * bits_high_first(frame, 8 * i, 5)
        + bit_of(frame, 8 * i + 5, true));
    assert(bits_high_first(frame, 8 * i, 7) == 2 * bits_high_first(frame, 8 * i, 6)
        + bit_of(frame, 8 * i + 6, true));
    assert(bits_high_first(frame, 8 * i, 8) == 2 * bits_high_first(frame, 8 * i, 7)
        + bit_of(frame, 8 * i + 7, true));
}

/// Eight bits from the start of a byte are that byte, in either order.
pub proof fn eight_bits_are_a_byte(frame: Seq<u8>, i: int)
    requires
        0 <= i,
    ensures
        bits_low_first(frame, 8 * i, 8) == frame[i],
        bits_high_first(frame, 8 * i, 8) == frame[i],
        forall|k: int|
            0 <= k < 8 ==> bit_of(frame, 8 * i + k, true) == #[trigger] bit_of(
                frame,
                8 * i + 7 - k,
                false,
            ),
{
    eight_low_bits(frame, i);
    eight_high_bits(frame, i);
    assert forall|k: int| 0 <= k < 8 implies bit_of(frame, 8 * i + k, true) == #[trigger] bit_of(
        frame,
        8 * i + 7 - k,
        false,
    ) by {
        bit_in_byte(frame, i, k);
        bit_in_byte(frame, i, 7 - k);
    }
}

/// Where a bit stands in its byte.
proof fn bit_in_byte(frame: Seq<u8>, i: int, k: int)
    requires
        0 <= i,
        0 <= k < 8,
    ensures
        bit_of(frame, 8 * i + k, false) == ((frame[i] / power2::pow2(k as nat) as u8) % 2) as int,
        bit_of(frame, 8 * i + k, true) == ((frame[i] / power2::pow2((7 - k) as nat) as u8) % 2) as int,
{
    assert((8 * i + k) / 8 == i);
    assert((8 * i + k) % 8 == k);
}

/// A byte is the sum of its bits.
proof fn bits_of_a_byte(b: u8)
    ensures
        b % 2 + 2 * (b / 2 % 2) + 4 * (b / 4 % 2) + 8 * (b / 8 % 2) + 16 * (b / 16 % 2) + 32 * (b
            / 32 % 2) + 64 * (b / 64 % 2) + 128 * (b / 128 % 2) == b,
        b / 128 < 2,
{
    assert(b % 2 + 2 * (b / 2 % 2) + 4 * (b / 4 % 2) + 8 * (b / 8 % 2) + 16 * (b / 16 % 2) + 32 * (
    b / 32 % 2) + 64 * (b / 64 % 2) + 128 * (b / 128 % 2) == b) by (bit_vector);
    assert(b / 128 < 2) by (bit_vector);
}

/// A packed field reads what its bits say, below zero where its top bit is set, and is not
/// read where the report ends before it.
pub proof fn a_packed_field_reads_its_bits(frame: Seq<u8>, off: int, width: nat)
    requires
        width >= 1,
        0 <= off,
    ensures
        packed_value(frame, off, width) is Some <==> off + width <= 8 * frame.len(),
        packed_value(frame, off, width) matches Some(v) ==> v == bits_low_first(
            frame,
            off,
            (width - 1) as nat,
        ) - power2::pow2((width - 1) as nat) * bit_of(frame, off + width - 1, false),
{
    let w = (width - 1) as nat;
    let p = power2::pow2(w) as int;
    low_bits_bounded(frame, off, w);
    let b = bit_of(frame, off + w, false);
    assert(b == 0 || b == 1);
    assert(bits_low_first(frame, off, width) == bits_low_first(frame, off, w) + b * p);
    assert(b * p == if b == 0 {
        0
    } else {
        p
    }) by (nonlinear_arith)
        requires
            b == 0 || b == 1,
    ;
    assert(p * b == b * p) by (nonlinear_arith);
}

/// Bits stand for no more than as many can.
proof fn low_bits_bounded(frame: Seq<u8>, off: int, width: nat)
    ensures
        0 <= bits_low_first(frame, off, width) < power2::pow2(width),
    decreases width,
{
    power2::lemma2_to64();
    if width > 0 {
        let w = (width - 1) as nat;
        low_bits_bounded(frame, off, w);
        power2::lemma_pow2_unfold(width);
        let p = power2::pow2(w) as int;
        let b = bit_of(frame, off + w, false);
        assert(0 <= b * p <= p) by (nonlinear_arith)
            requires
                0 <= b <= 1,
                p >= 0,
        ;
    }
}

/// Bytes taken together: least significant first, later ones are worth more, and most
/// significant first, earlier ones are; back to front the one is the other.
pub proof fn numbers_add_up(a: Seq<u8>, b: u8)
    ensures
        number_low_first(seq![b] + a) == b + 256 * number_low_first(a),
        number_high_first(a + seq![b]) == 256 * number_high_first(a) + b,
        number_low_first(seq![]) == 0 && number_high_first(seq![]) == 0,
        number_high_first(a) == number_low_first(bytes::reversed(a)),
    decreases a.len(),
{
    let l = seq![b] + a;
    assert(l.skip(1) =~= a);
    let h = a + seq![b];
    assert(h.drop_last() =~= a);
    if a.len() > 0 {
        numbers_add_up(a.drop_last(), b);
        let r = bytes::reversed(a);
        assert(r[0] == a.last());
        assert(r.skip(1) =~= bytes::reversed(a.drop_last()));
    } else {
        assert(bytes::reversed(a) =~= a);
    }
}

/// As many bytes as bits need hold them, and one fewer would not.
pub proof fn bits_need_so_many_bytes(width: int)
    requires
        width >= 0,
    ensures
        width <= 8 * bytes_for(width) < width + 8,
{
}

/// A step between values that wrap is what the values say, but for whole turns, and never
/// more than half a turn either way.
pub proof fn a_step_takes_the_shorter_way(from: int, to: int, m: int)
    requires
        m > 0,
        0 <= from < m,
        0 <= to < m,
    ensures
        -m <= 2 * step_mod(from, to, m) <= m,
        step_mod(from, to, m) == to - from || step_mod(from, to, m) == to - from + m || step_mod(
            from,
            to,
            m,
        ) == to - from - m,
        2 * (to - from) <= m && 2 * (from - to) <= m ==> step_mod(from, to, m) == to - from,
{
}

/// A series made continuous starts at zero and never jumps: from one value to the next it
/// goes at most half a turn.
pub proof fn an_unwrapped_series_never_jumps(v: Seq<u64>, m: int)
    requires
        m > 0,
        forall|i: int| 0 <= i < v.len() ==> #[trigger] v[i] < m,
    ensures
        unwrapped(v, m).len() == v.len(),
        v.len() > 0 ==> unwrapped(v, m)[0] == 0,
        forall|i: int|
            0 <= i < v.len() - 1 ==> -m <= 2 * (#[trigger] unwrapped(v, m)[i + 1] - unwrapped(
                v,
                m,
            )[i]) <= m,
    decreases v.len(),
{
    unwrapped_len(v, m);
    if v.len() > 1 {
        let most = v.drop_last();
        let n = v.len() as int;
        assert forall|i: int| 0 <= i < most.len() implies #[trigger] most[i] < m by {
            assert(v[i] < m);
        }
        an_unwrapped_series_never_jumps(most, m);
        unwrapped_len(most, m);
        let rest = unwrapped(most, m);
        let all = unwrapped(v, m);
        a_step_takes_the_shorter_way(v[n - 2] as int, v[n - 1] as int, m);
        assert(v.last() == v[n - 1]);
        assert(forall|i: int| 0 <= i < n - 1 ==> all[i] == rest[i]);
        assert forall|i: int| 0 <= i < n - 1 implies -m <= 2 * (#[trigger] all[i + 1] - all[i])
            <= m by {
            if i < n - 2 {
                assert(rest[i + 1] - rest[i] == all[i + 1] - all[i]);
            }
        }
    }
}

/// The three groups of motion stand one behind the other, twelve bytes before two that are
/// not theirs and the accelerometer; in a report of the left half one byte earlier.
pub proof fn motion_groups_stand_before_the_accelerometer(frame: Seq<u8>, k: int)
    requires
        frame.len() >= 32,
        0 <= k < 3,
    ensures
        groups_of(Side::Right, frame).len() == 3,
        groups_of(Side::Left, frame).len() == 3,
        groups_of(Side::Right, frame)[k].bytes == frame.subrange(20 + 4 * k, 24 + 4 * k),
        groups_of(Side::Left, frame)[k].bytes == frame.subrange(19 + 4 * k, 23 + 4 * k),
        accel_base_of(Side::Right) == 34,
        accel_base_of(Side::Left) == 33,
{
    reveal_with_fuel(first_groups, 4);
}

/// A group is read in three ways: the upper three bytes as a number, the same below zero where
/// its top bit is set, and all four as a number.
pub proof fn a_group_is_read_in_three_ways(b: Seq<u8>)
    requires
        b.len() == 4,
    ensures
        group_of(b).bytes == b,
        group_of(b).unsigned == number_low_first(b.skip(1)),
        group_of(b).whole == number_low_first(b),
        group_of(b).signed == if b[3] >= 0x80 {
            group_of(b).unsigned - 0x100_0000
        } else {
            group_of(b).unsigned
        },
{
    reveal_with_fuel(number_low_first, 5);
    let t = b.skip(1);
    assert(t[0] == b[1] && t.skip(1)[0] == b[2] && t.skip(1).skip(1)[0] == b[3]);
    assert(t.skip(1).skip(1).skip(1).len() == 0);
}

/// The axes of the accelerometer stand four bytes apart, from byte 34 of a report of the right
/// half and from byte 33 of one of the left; an axis that did not arrive is nothing.
pub proof fn the_axes_stand_four_apart(before: Seq<u8>, v: int, more: Seq<u8>, axis: int)
    requires
        0 <= axis < 3,
        -0x8000 <= v < 0x8000,
    ensures
        before.len() == 34 + 4 * axis ==> accel_of(
            Side::Right,
            before + low_first(v, 2) + more,
            axis,
        ) == v,
        before.len() == 33 + 4 * axis ==> accel_of(
            Side::Left,
            before + low_first(v, 2) + more,
            axis,
        ) == v,
        before.len() <= 34 + 4 * axis ==> accel_of(Side::Right, before, axis) == 0,
        before.len() <= 33 + 4 * axis ==> accel_of(Side::Left, before, axis) == 0,
{
    a_written_number_is_read_back(before, v, 0, more);
}

/// A masked number is below what its bits can hold, differs from the whole number by multiples
/// of that alone, is the whole number where that is small enough, and is the same in either
/// order for bytes that stand back to front.
pub proof fn a_masked_number_is_the_low_bits(frame: Seq<u8>, back: Seq<u8>, width: nat, be: bool)
    requires
        frame.len() == bytes_for(width as int),
        back == bytes::reversed(frame),
    ensures
        ({
            let m = power2::pow2(width) as int;
            let whole = number_low_first(frame);
            let v = masked_value(frame, 0, width, false);
            &&& v is Some
            &&& 0 <= v->0 < m
            &&& (whole - v->0) % m == 0
            &&& 0 <= whole < m ==> v->0 == whole
            &&& masked_value(back, 0, width, true) == v
            &&& frame.len() > 0 ==> masked_value(frame.drop_last(), 0, width, be) is None
        }),
{
    let m = power2::pow2(width) as int;
    power2::lemma_pow2_pos(width);
    let whole = number_low_first(frame);
    assert(frame.subrange(0, frame.len() as int) =~= frame);
    assert(back.subrange(0, back.len() as int) =~= back);
    numbers_add_up(back, 0);
    assert(bytes::reversed(back) =~= frame);
    vstd::arithmetic::div_mod::lemma_mod_bound(whole, m);
    vstd::arithmetic::div_mod::lemma_fundamental_div_mod(whole, m);
    let q = whole / m;
    assert(whole - whole % m == q * m) by (nonlinear_arith)
        requires
            whole == m * q + whole % m,
    ;
    vstd::arithmetic::div_mod::lemma_mod_multiples_basic(q, m);
    if 0 <= whole < m {
        vstd::arithmetic::div_mod::lemma_small_mod(whole as nat, m as nat);
    }
}

/// Eight, sixteen or twenty-four bits that start at a byte are what the codec for as many bytes
/// reads there: with the high bit first, most significant byte first.
pub proof fn whole_bytes_are_read_like_a_codec(frame: Seq<u8>, i: int)
    requires
        0 <= i,
        i + 3 <= frame.len(),
    ensures
        bits_low_first(frame, 8 * i, 16) == frame[i] + 256 * frame[i + 1],
        bits_high_first(frame, 8 * i, 16) == 256 * frame[i] + frame[i + 1],
        packed_value(frame, 8 * i, 16) == Codec::I16Le.value(frame, i),
        packed_value_msb(frame, 8 * i, 16) == Codec::I16Be.value(frame, i),
        packed_value(frame, 8 * i, 24) == Codec::I24Le.value(frame, i),
        packed_value_msb(frame, 8 * i, 24) == Codec::I24Be.value(frame, i),
{
    power2::lemma2_to64();
    eight_bits_are_a_byte(frame, i);
    eight_bits_are_a_byte(frame, i + 1);
    eight_bits_are_a_byte(frame, i + 2);
    bits_add_up(frame, 8 * i, 8, 8);
    bits_add_up(frame, 8 * i, 16, 8);
    assert(8 * i + 8 == 8 * (i + 1));
    assert(8 * i + 16 == 8 * (i + 2));
}

/// A packed field with the high bit first is not read where the report ends before it.
pub proof fn a_field_past_the_end_is_not_read(frame: Seq<u8>, off: int, width: nat)
    requires
        0 <= off,
        width >= 1,
    ensures
        packed_value_msb(frame, off, width) is Some <==> off + width <= 8 * frame.len(),
{
}

/// A codec is called by how many bits it takes and by which end comes first.
pub proof fn a_codec_is_called_by_what_it_reads(c: Codec)
    ensures
        c.words().len() == 5 && c.words()[0] == 'i',
        c.size() == 2 <==> c.words().subrange(1, 3) == seq!['1', '6'],
        c.size() == 3 <==> c.words().subrange(1, 3) == seq!['2', '4'],
        c == Codec::I16Le || c == Codec::I24Le <==> c.words()[3] == 'l',
        c.words()[3] == 'l' || c.words()[3] == 'b',
        c.words()[4] == 'e',
{
    reveal_strlit("i16le");
    reveal_strlit("i16be");
    reveal_strlit("i24le");
    reveal_strlit("i24be");
    let bits = c.words().subrange(1, 3);
    assert(bits[0] == c.words()[1] && bits[1] == c.words()[2]);
    if c.size() == 2 {
        assert(bits =~= seq!['1', '6']);
        assert(seq!['2', '4'][0] == '2');
    } else {
        assert(bits =~= seq!['2', '4']);
        assert(seq!['1', '6'][0] == '1');
    }
}

} // verus!
