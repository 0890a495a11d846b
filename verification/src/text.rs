//! Numbers and byte strings as text.
use vstd::prelude::*;
use vstd::string::*;

verus! {

/// `String::push` appends one character and leaves what was there as it was.
pub assume_specification[ String::push ](s: &mut String, ch: char)
    ensures
        final(s)@ == old(s)@.push(ch),
;

/// The decimal digits of `n`, most significant first, without leading zeros.
pub open spec fn decimal(n: nat) -> Seq<char>
    decreases n,
{
    if n < 10 {
        seq![('0' as u32 + n) as char]
    } else {
        decimal(n / 10).push(('0' as u32 + n % 10) as char)
    }
}

/// The lower-case hexadecimal digit of `d`.
pub open spec fn hex_digit(d: int) -> char {
    if d < 10 {
        (0x30 + d) as char
    } else {
        (0x57 + d) as char
    }
}

/// The two hexadecimal digits of a byte.
pub open spec fn hex2(b: u8) -> Seq<char> {
    seq![hex_digit(b as int / 16), hex_digit(b as int % 16)]
}

/// The four hexadecimal digits of a 16-bit value.
pub open spec fn hex4(x: u16) -> Seq<char> {
    hex2((x / 256) as u8) + hex2((x % 256) as u8)
}

/// The hexadecimal digit of `d`.
pub fn digit_of(d: u8) -> (c: char)
    requires
        d < 16,
    ensures
        c == hex_digit(d as int),
{
    if d < 10 {
        (0x30 + d) as char
    } else {
        (0x57 + d) as char
    }
}

/// Append the two hexadecimal digits of `b`.
pub fn push_hex2(out: &mut String, b: u8)
    ensures
        final(out)@ == old(out)@ + hex2(b),
{
    out.push(digit_of(b / 16));
    out.push(digit_of(b % 16));
    assert(out@ =~= old(out)@ + hex2(b));
}

/// Append the four hexadecimal digits of `x`.
pub fn push_hex4(out: &mut String, x: u16)
    ensures
        final(out)@ == old(out)@ + hex4(x),
{
    push_hex2(out, (x / 256) as u8);
    push_hex2(out, (x % 256) as u8);
    assert(out@ =~= old(out)@ + hex4(x));
}

/// Append the characters of `more`.
pub fn push_text(out: &mut String, more: &str)
    ensures
        final(out)@ == old(out)@ + more@,
{
    out.append(more);
}

/// Append the decimal digits of `n`.
pub fn push_decimal(out: &mut String, n: usize)
    ensures
        final(out)@ == old(out)@ + decimal(n as nat),
    decreases n,
{
    if n < 10 {
        out.push((0x30 + n as u8) as char);
        assert(out@ =~= old(out)@ + decimal(n as nat));
    } else {
        push_decimal(out, n / 10);
        out.push((0x30 + (n % 10) as u8) as char);
        assert(out@ =~= old(out)@ + decimal(n as nat));
    }
}

/// A sentence that ends in a byte.
pub fn with_byte(words: &str, b: u8) -> (s: String)
    ensures
        s@ == words@ + hex2(b),
{
    let mut s = String::new();
    push_text(&mut s, words);
    push_hex2(&mut s, b);
    assert(s@ =~= words@ + hex2(b));
    s
}

/// A sentence that ends in a 16-bit number.
pub fn with_word(words: &str, x: u16) -> (s: String)
    ensures
        s@ == words@ + hex4(x),
{
    let mut s = String::new();
    push_text(&mut s, words);
    push_hex4(&mut s, x);
    assert(s@ =~= words@ + hex4(x));
    s
}

/// The characters with the White_Space property.
pub open spec fn is_white(c: char) -> bool {
    let u = c as u32;
    ||| 0x09 <= u <= 0x0D
    ||| u == 0x20
    ||| u == 0x85
    ||| u == 0xA0
    ||| u == 0x1680
    ||| 0x2000 <= u <= 0x200A
    ||| u == 0x2028
    ||| u == 0x2029
    ||| u == 0x202F
    ||| u == 0x205F
    ||| u == 0x3000
}

/// Whether `c` separates words.
pub fn white(c: char) -> (r: bool)
    ensures
        r == is_white(c),
{
    let u: u32 = c as u32;
    (0x09 <= u && u <= 0x0D) || u == 0x20 || u == 0x85 || u == 0xA0 || u == 0x1680 || (0x2000 <= u
        && u <= 0x200A) || u == 0x2028 || u == 0x2029 || u == 0x202F || u == 0x205F || u == 0x3000
}

/// `s` without the white space that it starts with.
pub open spec fn trim_start(s: Seq<char>) -> Seq<char>
    decreases s.len(),
{
    if s.len() > 0 && is_white(s[0]) {
        trim_start(s.skip(1))
    } else {
        s
    }
}

/// `s` without the white space that it ends with.
pub open spec fn trim_end(s: Seq<char>) -> Seq<char>
    decreases s.len(),
{
    if s.len() > 0 && is_white(s.last()) {
        trim_end(s.drop_last())
    } else {
        s
    }
}

/// `s` without the white space around it.
pub open spec fn trimmed(s: Seq<char>) -> Seq<char> {
    trim_end(trim_start(s))
}

/// Where the white space at the start of `s` ends, what is left begins.
pub proof fn trim_start_is(s: Seq<char>, a: int)
    requires
        0 <= a <= s.len(),
        forall|j: int| 0 <= j < a ==> is_white(#[trigger] s[j]),
        a < s.len() ==> !is_white(s[a]),
    ensures
        trim_start(s) == s.skip(a),
    decreases s.len(),
{
    if a > 0 {
        assert(is_white(s[0]));
        let rest = s.skip(1);
        assert forall|j: int| 0 <= j < a - 1 implies is_white(#[trigger] rest[j]) by {
            assert(rest[j] == s[j + 1]);
        }
        trim_start_is(rest, a - 1);
        assert(rest.skip(a - 1) =~= s.skip(a));
    } else {
        assert(s.skip(0) =~= s);
    }
}

/// Where the white space at the end of `s` begins, what is left ends.
pub proof fn trim_end_is(s: Seq<char>, b: int)
    requires
        0 <= b <= s.len(),
        forall|j: int| b <= j < s.len() ==> is_white(#[trigger] s[j]),
        b > 0 ==> !is_white(s[b - 1]),
    ensures
        trim_end(s) == s.take(b),
    decreases s.len(),
{
    if b < s.len() {
        assert(is_white(s[s.len() - 1]));
        let rest = s.drop_last();
        trim_end_is(rest, b);
        assert(rest.take(b) =~= s.take(b));
    } else {
        assert(s.take(b) =~= s);
    }
}

/// What is left of a text once it is trimmed lies between the white space at both ends.
pub proof fn trimmed_is(s: Seq<char>, a: int, b: int)
    requires
        0 <= a < b <= s.len(),
        forall|j: int| 0 <= j < a ==> is_white(#[trigger] s[j]),
        forall|j: int| b <= j < s.len() ==> is_white(#[trigger] s[j]),
        !is_white(s[a]),
        !is_white(s[b - 1]),
    ensures
        trimmed(s) == s.subrange(a, b),
{
    trim_start_is(s, a);
    let rest = s.skip(a);
    assert forall|j: int| b - a <= j < rest.len() implies is_white(#[trigger] rest[j]) by {
        assert(rest[j] == s[j + a]);
    }
    trim_end_is(rest, b - a);
    assert(rest.take(b - a) =~= s.subrange(a, b));
}

/// How far the white space at the start of a text reaches.
proof fn start_of(s: Seq<char>) -> (a: int)
    ensures
        0 <= a <= s.len(),
        forall|j: int| 0 <= j < a ==> is_white(#[trigger] s[j]),
        a < s.len() ==> !is_white(s[a]),
{
    let p = |c: char| !is_white(c);
    index_where_is_first(s, p);
    let a = index_where(s, p) as int;
    assert forall|j: int| 0 <= j < a implies is_white(#[trigger] s[j]) by {
        assert(!p(s[j]));
    }
    a
}

/// Where the white space at the end of a text begins.
proof fn end_of(s: Seq<char>) -> (b: int)
    ensures
        0 <= b <= s.len(),
        forall|j: int| b <= j < s.len() ==> is_white(#[trigger] s[j]),
        b > 0 ==> !is_white(s[b - 1]),
    decreases s.len(),
{
    if s.len() > 0 && is_white(s.last()) {
        let rest = s.drop_last();
        let b = end_of(rest);
        assert forall|j: int| b <= j < s.len() implies is_white(#[trigger] s[j]) by {
            if j < rest.len() {
                assert(rest[j] == s[j]);
            }
        }
        b
    } else {
        s.len() as int
    }
}

/// What trimming leaves of a text: the part from `a` to `b`, which begins and ends with
/// something other than white space, and nothing but white space lies outside it.
pub proof fn trimmed_bounds(s: Seq<char>) -> (r: (int, int))
    ensures
        0 <= r.0 <= r.1 <= s.len(),
        trimmed(s) == s.subrange(r.0, r.1),
        forall|j: int| 0 <= j < r.0 ==> is_white(#[trigger] s[j]),
        forall|j: int| r.1 <= j < s.len() ==> is_white(#[trigger] s[j]),
        r.0 < r.1 ==> !is_white(s[r.0]) && !is_white(s[r.1 - 1]),
{
    let a = start_of(s);
    let b = end_of(s);
    if a < b {
        trimmed_is(s, a, b);
        (a, b)
    } else {
        if a < s.len() {
            assert(is_white(s[a]));
        }
        trim_start_is(s, a);
        assert(s.skip(a) =~= seq![]);
        assert(trimmed(s) =~= s.subrange(a, a));
        (a, a)
    }
}

/// Of a text with anything in it but white space, trimming leaves something.
pub proof fn trimming_keeps(s: Seq<char>, i: int)
    requires
        0 <= i < s.len(),
        !is_white(s[i]),
    ensures
        trimmed(s).len() > 0,
{
    let r = trimmed_bounds(s);
    if r.0 == r.1 {
        assert(is_white(s[i]));
    }
}

/// Remove the white space around `s`.
pub fn trim(s: &[char]) -> (r: &[char])
    ensures
        r@ == trimmed(s@),
{
    let mut i: usize = 0;
    assert(s@.skip(0) =~= s@);
    while i < s.len() && white(s[i])
        invariant
            i <= s@.len(),
            trim_start(s@) == trim_start(s@.skip(i as int)),
        decreases s@.len() - i,
    {
        assert(s@.skip(i as int).skip(1) =~= s@.skip(i + 1));
        i += 1;
    }
    let ghost body = s@.skip(i as int);
    assert(trim_start(s@) == body);
    let mut j: usize = s.len();
    assert(body.take(j - i) =~= body);
    while i < j && white(s[j - 1])
        invariant
            i <= j <= s@.len(),
            body == s@.skip(i as int),
            trim_end(body) == trim_end(body.take(j - i)),
        decreases j,
    {
        assert(body.take(j - i).drop_last() =~= body.take(j - i - 1));
        j -= 1;
    }
    assert(trim_end(body) == body.take(j - i));
    assert(body.take(j - i) =~= s@.subrange(i as int, j as int));
    vstd::slice::slice_subrange(s, i, j)
}

/// The index of the first character of `s` for which `p` holds, or its length where
/// there is none.
pub open spec fn index_where(s: Seq<char>, p: spec_fn(char) -> bool) -> nat
    decreases s.len(),
{
    if s.len() == 0 || p(s[0]) {
        0
    } else {
        1 + index_where(s.skip(1), p)
    }
}

/// What being the first such index means.
pub proof fn index_where_is_first(s: Seq<char>, p: spec_fn(char) -> bool)
    ensures
        index_where(s, p) <= s.len(),
        index_where(s, p) < s.len() ==> p(s[index_where(s, p) as int]),
        forall|j: int| 0 <= j < index_where(s, p) ==> !p(#[trigger] s[j]),
    decreases s.len(),
{
    if s.len() > 0 && !p(s[0]) {
        index_where_is_first(s.skip(1), p);
        assert forall|j: int| 0 <= j < index_where(s, p) implies !p(#[trigger] s[j]) by {
            if j > 0 {
                assert(s[j] == s.skip(1)[j - 1]);
            }
        }
    }
}

/// An index before which nothing holds and at which it does, or the length, is the
/// first one.
pub proof fn index_where_unique(s: Seq<char>, p: spec_fn(char) -> bool, k: int)
    requires
        0 <= k <= s.len(),
        k < s.len() ==> p(s[k]),
        forall|j: int| 0 <= j < k ==> !p(#[trigger] s[j]),
    ensures
        index_where(s, p) == k,
{
    index_where_is_first(s, p);
    let m = index_where(s, p) as int;
    if m < k {
        assert(!p(s[m]));
    } else if k < m {
        assert(!p(s[k]));
    }
}

/// The index of the first white space of `s`.
pub open spec fn white_index(s: Seq<char>) -> nat {
    index_where(s, |c: char| is_white(c))
}

/// Being the character `x`.
pub open spec fn is_char(x: char) -> spec_fn(char) -> bool {
    |c: char| c == x
}

/// The index of the first `x` in `s`.
pub open spec fn char_index(s: Seq<char>, x: char) -> nat {
    index_where(s, is_char(x))
}

/// Find the first white space of `s`.
pub fn find_white(s: &[char]) -> (i: usize)
    ensures
        i == white_index(s@),
        i <= s@.len(),
{
    let mut i: usize = 0;
    while i < s.len() && !white(s[i])
        invariant
            i <= s@.len(),
            forall|j: int| 0 <= j < i ==> !is_white(#[trigger] s@[j]),
        decreases s@.len() - i,
    {
        i += 1;
    }
    proof {
        index_where_unique(s@, |c: char| is_white(c), i as int);
    }
    i
}

/// Find the first `x` of `s`.
pub fn find_char(s: &[char], x: char) -> (i: usize)
    ensures
        i == char_index(s@, x),
        i <= s@.len(),
{
    let mut i: usize = 0;
    while i < s.len() && s[i] != x
        invariant
            i <= s@.len(),
            forall|j: int| 0 <= j < i ==> #[trigger] s@[j] != x,
        decreases s@.len() - i,
    {
        i += 1;
    }
    proof {
        index_where_unique(s@, is_char(x), i as int);
    }
    i
}

/// The characters of a text.
pub fn chars_of(s: &str) -> (v: Vec<char>)
    ensures
        v@ == s@,
{
    let mut v: Vec<char> = Vec::new();
    for c in it: s.chars()
        invariant
            it.seq() == s@,
            v@ == s@.take(it.index() as int),
    {
        v.push(c);
        assert(v@ =~= s@.take(it.index() + 1));
    }
    assert(v@ =~= s@);
    v
}

/// The text of some characters.
pub fn string_of(s: &[char]) -> (out: String)
    ensures
        out@ == s@,
{
    let mut out = String::new();
    let mut i: usize = 0;
    while i < s.len()
        invariant
            i <= s@.len(),
            out@ == s@.take(i as int),
        decreases s@.len() - i,
    {
        out.push(s[i]);
        i += 1;
        assert(out@ =~= s@.take(i as int));
    }
    assert(out@ =~= s@);
    out
}

/// The value of `c` as a hexadecimal digit of either case.
pub open spec fn hex_value(c: char) -> Option<nat> {
    let u = c as u32;
    if 0x30 <= u <= 0x39 {
        Some((u - 0x30) as nat)
    } else if 0x41 <= u <= 0x46 {
        Some((u - 0x37) as nat)
    } else if 0x61 <= u <= 0x66 {
        Some((u - 0x57) as nat)
    } else {
        None
    }
}

/// The value of `c` as a hexadecimal digit.
pub fn value_of(c: char) -> (r: Option<u8>)
    ensures
        match r {
            Some(v) => hex_value(c) == Some(v as nat) && v < 16,
            None => hex_value(c) is None,
        },
{
    let u: u32 = c as u32;
    if 0x30 <= u && u <= 0x39 {
        Some((u - 0x30) as u8)
    } else if 0x41 <= u && u <= 0x46 {
        Some((u - 0x37) as u8)
    } else if 0x61 <= u && u <= 0x66 {
        Some((u - 0x57) as u8)
    } else {
        None
    }
}

/// The value of the hexadecimal digits `s`, or nothing where one is no digit.
pub open spec fn hex_number(s: Seq<char>) -> Option<nat>
    decreases s.len(),
{
    if s.len() == 0 {
        Some(0)
    } else {
        match (hex_number(s.drop_last()), hex_value(s.last())) {
            (Some(a), Some(d)) => Some(16 * a + d),
            _ => None,
        }
    }
}

/// The byte that `s` spells in hexadecimal: a plus sign where there is one, then at
/// least one digit.
pub open spec fn hex_byte(s: Seq<char>) -> Option<u8> {
    let digits = if s.len() > 0 && s[0] == '+' {
        s.skip(1)
    } else {
        s
    };
    match hex_number(digits) {
        Some(v) if digits.len() > 0 && v <= 255 => Some(v as u8),
        _ => None,
    }
}

/// More digits do not make a number smaller.
proof fn hex_number_grows(s: Seq<char>, k: int)
    requires
        0 <= k <= s.len(),
        hex_number(s) is Some,
    ensures
        hex_number(s.take(k)) is Some,
        hex_number(s.take(k))->0 <= hex_number(s)->0,
    decreases s.len() - k,
{
    if k < s.len() {
        hex_number_grows(s, k + 1);
        assert(s.take(k + 1).drop_last() =~= s.take(k));
    } else {
        assert(s.take(k) =~= s);
    }
}

/// Read a byte in hexadecimal.
pub fn parse_hex_byte(s: &[char]) -> (r: Option<u8>)
    ensures
        r == hex_byte(s@),
{
    let start: usize = if s.len() > 0 && s[0] == '+' {
        1
    } else {
        0
    };
    let ghost digits = s@.skip(start as int);
    assert(start == 0 ==> digits =~= s@);
    if s.len() == start {
        return None;
    }
    let mut v: u32 = 0;
    let mut i: usize = start;
    assert(digits.take(0) =~= seq![]);
    while i < s.len()
        invariant
            start <= i <= s@.len(),
            start <= 1,
            digits == s@.skip(start as int),
            digits == if s@.len() > 0 && s@[0] == '+' {
                s@.skip(1)
            } else {
                s@
            },
            digits.len() > 0,
            v <= 255,
            hex_number(digits.take(i - start)) == Some(v as nat),
        decreases s@.len() - i,
    {
        let ghost next = digits.take(i - start + 1);
        assert(next.drop_last() =~= digits.take(i - start));
        assert(next.last() == s@[i as int]);
        proof {
            if hex_number(digits) is Some {
                hex_number_grows(digits, i - start + 1);
            }
        }
        match value_of(s[i]) {
            Some(d) => {
                v = 16 * v + d as u32;
                if v > 255 {
                    return None;
                }
            },
            None => {
                return None;
            },
        }
        i += 1;
    }
    assert(digits.take(i - start) =~= digits);
    Some(v as u8)
}

/// `c`, in lower case where it is an ASCII letter.
pub open spec fn lower(c: char) -> char {
    if 0x41 <= c as u32 <= 0x5A {
        (c as u32 + 0x20) as char
    } else {
        c
    }
}

/// `s` with its ASCII letters in lower case.
pub open spec fn lowered(s: Seq<char>) -> Seq<char> {
    s.map_values(|c: char| lower(c))
}

/// Put the ASCII letters of `s` in lower case.
pub fn to_lower(s: &[char]) -> (v: Vec<char>)
    ensures
        v@ == lowered(s@),
{
    let mut v: Vec<char> = Vec::new();
    let mut i: usize = 0;
    while i < s.len()
        invariant
            i <= s@.len(),
            v@ == lowered(s@.take(i as int)),
        decreases s@.len() - i,
    {
        let c: char = s[i];
        let u: u32 = c as u32;
        let l: char = if 0x41 <= u && u <= 0x5A {
            (u as u8 + 0x20) as char
        } else {
            c
        };
        v.push(l);
        i += 1;
        assert(v@ =~= lowered(s@.take(i as int)));
    }
    assert(s@.take(i as int) =~= s@);
    v
}

/// The hexadecimal digits of `s`, two for each byte.
pub open spec fn hex_of(s: Seq<u8>) -> Seq<char>
    decreases s.len(),
{
    if s.len() == 0 {
        seq![]
    } else {
        hex_of(s.drop_last()) + hex2(s.last())
    }
}

/// Append the hexadecimal digits of `bytes`.
pub fn push_hex(out: &mut String, bytes: &[u8])
    ensures
        final(out)@ == old(out)@ + hex_of(bytes@),
{
    let mut i: usize = 0;
    assert(bytes@.take(0) =~= seq![]);
    assert(out@ =~= old(out)@ + hex_of(bytes@.take(0)));
    while i < bytes.len()
        invariant
            i <= bytes@.len(),
            out@ == old(out)@ + hex_of(bytes@.take(i as int)),
        decreases bytes@.len() - i,
    {
        push_hex2(out, bytes[i]);
        i += 1;
        assert(bytes@.take(i as int).drop_last() =~= bytes@.take(i - 1));
        assert(out@ =~= old(out)@ + hex_of(bytes@.take(i as int)));
    }
    assert(bytes@.take(i as int) =~= bytes@);
}

/// A hexadecimal digit is read back as the value that it was written for, and is
/// neither white space nor a sign nor a separator.
pub proof fn hex_digit_reads_back(d: int)
    requires
        0 <= d < 16,
    ensures
        hex_value(hex_digit(d)) == Some(d as nat),
        !is_white(hex_digit(d)),
        hex_digit(d) != '+',
        hex_digit(d) != ':',
        hex_digit(d) != '@',
        lower(hex_digit(d)) == hex_digit(d),
{
}

/// A byte survives its two digits.
pub proof fn hex2_reads_back(b: u8)
    ensures
        hex_byte(hex2(b)) == Some(b),
        hex2(b).len() == 2,
        forall|i: int| 0 <= i < 2 ==> !is_white(#[trigger] hex2(b)[i]) && hex2(b)[i] != ':',
{
    let s = hex2(b);
    let hi = b as int / 16;
    let lo = b as int % 16;
    hex_digit_reads_back(hi);
    hex_digit_reads_back(lo);
    assert(s.drop_last() =~= seq![hex_digit(hi)]);
    assert(s.drop_last().drop_last() =~= seq![]);
    assert(hex_number(s.drop_last().drop_last()) == Some(0nat));
    assert(hex_number(s.drop_last()) == Some(hi as nat));
    assert(hex_number(s) == Some(b as nat));
}

/// The digits of byte `i` stand at twice that index.
pub proof fn hex_of_by_index(s: Seq<u8>)
    ensures
        hex_of(s).len() == 2 * s.len(),
        forall|i: int|
            0 <= i < s.len() ==> #[trigger] hex_of(s).subrange(2 * i, 2 * i + 2) == hex2(s[i]),
        forall|j: int| 0 <= j < hex_of(s).len() ==> !is_white(#[trigger] hex_of(s)[j]),
    decreases s.len(),
{
    if s.len() > 0 {
        let p = s.drop_last();
        let h = hex_of(s);
        hex_of_by_index(p);
        hex2_reads_back(s.last());
        assert forall|i: int| 0 <= i < s.len() implies #[trigger] h.subrange(2 * i, 2 * i + 2)
            == hex2(s[i]) by {
            if i < p.len() {
                assert(h.subrange(2 * i, 2 * i + 2) =~= hex_of(p).subrange(2 * i, 2 * i + 2));
            } else {
                assert(h.subrange(2 * i, 2 * i + 2) =~= hex2(s.last()));
            }
        }
        assert forall|j: int| 0 <= j < h.len() implies !is_white(#[trigger] h[j]) by {
            if j < hex_of(p).len() {
                assert(h[j] == hex_of(p)[j]);
            } else {
                assert(h[j] == hex2(s.last())[j - hex_of(p).len()]);
            }
        }
    }
}

/// Whether `part` stands somewhere in `s`.
pub open spec fn holds_text(s: Seq<char>, part: Seq<char>) -> bool {
    exists|i: int| 0 <= i <= s.len() - part.len() && #[trigger] s.subrange(i, i + part.len())
        == part
}

/// Whether `part` stands at `at` of `s`.
fn stands_at(s: &[char], part: &[char], at: usize) -> (r: bool)
    requires
        at + part@.len() <= s@.len(),
    ensures
        r == (s@.subrange(at as int, at + part@.len()) == part@),
{
    let n: usize = s.len();
    let mut k: usize = 0;
    while k < part.len()
        invariant
            k <= part@.len(),
            n == s@.len(),
            at + part@.len() <= s@.len(),
            forall|j: int| 0 <= j < k ==> s@[at + j] == part@[j],
        decreases part@.len() - k,
    {
        if s[at + k] != part[k] {
            assert(s@.subrange(at as int, at + part@.len())[k as int] != part@[k as int]);
            return false;
        }
        k += 1;
    }
    assert(s@.subrange(at as int, at + part@.len()) =~= part@);
    true
}

/// Look for a text inside another.
pub fn contains(s: &str, part: &str) -> (r: bool)
    ensures
        r == holds_text(s@, part@),
{
    let a = chars_of(s);
    let b = chars_of(part);
    if b.len() > a.len() {
        return false;
    }
    let last: usize = a.len() - b.len();
    let mut i: usize = 0;
    while i < last
        invariant
            a@ == s@,
            b@ == part@,
            last == a@.len() - b@.len(),
            i <= last,
            forall|j: int| 0 <= j < i ==> #[trigger] s@.subrange(j, j + part@.len()) != part@,
        decreases last - i,
    {
        if stands_at(a.as_slice(), b.as_slice(), i) {
            assert(s@.subrange(i as int, i + part@.len()) == part@);
            return true;
        }
        i += 1;
    }
    assert(last == s@.len() - part@.len());
    let r: bool = stands_at(a.as_slice(), b.as_slice(), last);
    if r {
        assert(s@.subrange(last as int, last + part@.len()) == part@);
    }
    r
}

/// The value of a decimal digit.
pub open spec fn digit_value(c: char) -> Option<nat> {
    if '0' <= c && c <= '9' {
        Some((c as u32 - '0' as u32) as nat)
    } else {
        None
    }
}

/// The number that decimal digits stand for; nothing where anything else is among them.
pub open spec fn digits_number(s: Seq<char>) -> Option<nat>
    decreases s.len(),
{
    if s.len() == 0 {
        Some(0)
    } else {
        match (digits_number(s.drop_last()), digit_value(s.last())) {
            (Some(n), Some(d)) => Some(10 * n + d),
            _ => None,
        }
    }
}

/// The 32-bit number that a text stands for: decimal digits, at least one, behind a plus
/// sign or not.
pub open spec fn number_of(s: Seq<char>) -> Option<u32> {
    let body = if s.len() > 0 && s[0] == '+' {
        s.skip(1)
    } else {
        s
    };
    if body.len() == 0 {
        None
    } else {
        match digits_number(body) {
            Some(n) => if n <= u32::MAX {
                Some(n as u32)
            } else {
                None
            },
            None => None,
        }
    }
}

/// More digits never make a number smaller, nor a wrong one right.
proof fn digits_number_grows(s: Seq<char>, k: int)
    requires
        0 <= k <= s.len(),
    ensures
        digits_number(s.take(k)) is None ==> digits_number(s) is None,
        digits_number(s) matches Some(n) ==> digits_number(s.take(k))->0 <= n,
    decreases s.len(),
{
    if k == s.len() {
        assert(s.take(k) =~= s);
    } else {
        digits_number_grows(s.drop_last(), k);
        assert(s.drop_last().take(k) =~= s.take(k));
    }
}

/// Read a 32-bit number.
pub fn parse_u32(s: &str) -> (r: Option<u32>)
    ensures
        r == number_of(s@),
{
    let chars = chars_of(s);
    let from: usize = if chars.len() > 0 && chars[0] == '+' {
        1
    } else {
        0
    };
    if chars.len() == from {
        return None;
    }
    let ghost body = chars@.skip(from as int);
    assert(from == 0 ==> body =~= chars@);
    let mut n: u32 = 0;
    let mut i: usize = from;
    assert(body.take(0) =~= seq![]);
    while i < chars.len()
        invariant
            from <= i <= chars@.len(),
            from < chars@.len(),
            body == chars@.skip(from as int),
            chars@ == s@,
            from == if s@.len() > 0 && s@[0] == '+' {
                1int
            } else {
                0
            },
            from == 0 ==> body == s@,
            digits_number(body.take(i - from)) == Some(n as nat),
        decreases chars@.len() - i,
    {
        let c: char = chars[i];
        assert(body.take(i + 1 - from).drop_last() =~= body.take(i - from));
        assert(body.take(i + 1 - from).last() == c);
        proof {
            digits_number_grows(body, i + 1 - from);
        }
        if !('0' <= c && c <= '9') {
            return None;
        }
        let d: u32 = c as u32 - '0' as u32;
        if n > (u32::MAX - d) / 10 {
            assert(10 * n + d > u32::MAX);
            return None;
        }
        n = 10 * n + d;
        i += 1;
    }
    assert(body.take(i - from) =~= body);
    Some(n)
}

/// Four digits are read back as the number that they were written for, most significant
/// first.
pub proof fn four_digits_read_back(x: u16)
    ensures
        hex4(x).len() == 4,
        hex_number(hex4(x)) == Some(x as nat),
        hex_number(hex2((x % 256) as u8)) == Some((x % 256) as nat),
{
    let s = hex4(x);
    let a = (x / 256) as u8;
    let b = (x % 256) as u8;
    let d0 = a as int / 16;
    let d1 = a as int % 16;
    let d2 = b as int / 16;
    let d3 = b as int % 16;
    hex_digit_reads_back(d0);
    hex_digit_reads_back(d1);
    hex_digit_reads_back(d2);
    hex_digit_reads_back(d3);
    reveal_with_fuel(hex_number, 5);
    assert(s =~= seq![hex_digit(d0), hex_digit(d1), hex_digit(d2), hex_digit(d3)]);
    assert(s.drop_last() =~= seq![hex_digit(d0), hex_digit(d1), hex_digit(d2)]);
    assert(s.drop_last().drop_last() =~= seq![hex_digit(d0), hex_digit(d1)]);
    assert(s.drop_last().drop_last().drop_last() =~= seq![hex_digit(d0)]);
    assert(hex_number(seq![hex_digit(d0)].drop_last()) == Some(0nat));
    assert(hex_number(seq![hex_digit(d0)]) == Some(d0 as nat));
    assert(hex_number(seq![hex_digit(d0), hex_digit(d1)]) == Some((16 * d0 + d1) as nat));
    let t = hex2(b);
    assert(t.drop_last() =~= seq![hex_digit(d2)]);
    assert(hex_number(seq![hex_digit(d2)].drop_last()) == Some(0nat));
    assert(hex_number(seq![hex_digit(d2)]) == Some(d2 as nat));
}

/// A number that is written in decimal is read back, and is written without needless zeros.
pub proof fn a_decimal_number_is_read_back(n: nat)
    ensures
        digits_number(decimal(n)) == Some(n),
        decimal(n).len() > 0,
        n > 0 ==> decimal(n)[0] != '0',
        n <= u32::MAX ==> number_of(decimal(n)) == Some(n as u32),
        n <= u32::MAX ==> number_of(seq!['+'] + decimal(n)) == Some(n as u32),
        n > u32::MAX ==> number_of(decimal(n)) is None,
{
    decimal_digits(n);
    let d = decimal(n);
    assert((seq!['+'] + d).skip(1) =~= d);
}

/// The digits of a number.
proof fn decimal_digits(n: nat)
    ensures
        digits_number(decimal(n)) == Some(n),
        decimal(n).len() > 0,
        n > 0 ==> decimal(n)[0] != '0',
        decimal(n)[0] != '+',
    decreases n,
{
    if n < 10 {
        let d = decimal(n);
        assert(d.drop_last() =~= seq![]);
        assert(digits_number(d.drop_last()) == Some(0nat));
        assert(digit_value(d.last()) == Some(n));
    } else {
        decimal_digits(n / 10);
        let d = decimal(n);
        assert(d.drop_last() =~= decimal(n / 10));
        assert(digit_value(d.last()) == Some(n % 10));
        assert(d[0] == decimal(n / 10)[0]);
    }
}

/// A number is read only where there is a digit, and nothing but digits behind a sign.
pub proof fn only_digits_are_a_number(s: Seq<char>, i: int)
    ensures
        number_of(seq![]) is None,
        number_of(seq!['+']) is None,
        1 <= i < s.len() && !('0' <= s[i] && s[i] <= '9') ==> number_of(s) is None,
{
    assert(seq!['+'].skip(1) =~= Seq::<char>::empty());
    if 1 <= i < s.len() && !('0' <= s[i] && s[i] <= '9') {
        let body = if s[0] == '+' {
            s.skip(1)
        } else {
            s
        };
        let k = if s[0] == '+' {
            i - 1
        } else {
            i
        };
        assert(body[k] == s[i]);
        no_number_with(body, k);
    }
}

/// What is no digit makes no number.
proof fn no_number_with(s: Seq<char>, k: int)
    requires
        0 <= k < s.len(),
        digit_value(s[k]) is None,
    ensures
        digits_number(s) is None,
    decreases s.len(),
{
    if k < s.len() - 1 {
        assert(s.drop_last()[k] == s[k]);
        no_number_with(s.drop_last(), k);
    }
}

/// A letter is put in lower case by 32 places, and nothing else is moved; what is in lower case
/// already stays.
pub proof fn lower_case_moves_letters_only(c: char)
    ensures
        'A' <= c && c <= 'Z' ==> lower(c) as u32 == c as u32 + 32,
        !('A' <= c && c <= 'Z') ==> lower(c) == c,
        lower(lower(c)) == lower(c),
        hex_value(lower(c)) == hex_value(c),
{
}

/// The digits have their values in either case, and nothing else has one.
pub proof fn hexadecimal_digits_have_their_values(c: char)
    ensures
        '0' <= c && c <= '9' ==> hex_value(c) == Some((c as u32 - '0' as u32) as nat),
        'a' <= c && c <= 'f' ==> hex_value(c) == Some((c as u32 - 'a' as u32 + 10) as nat),
        'A' <= c && c <= 'F' ==> hex_value(c) == Some((c as u32 - 'A' as u32 + 10) as nat),
        hex_value(c) is Some ==> ('0' <= c && c <= '9') || ('a' <= c && c <= 'f') || ('A' <= c && c
            <= 'F'),
{
}

/// A byte is read from digits that spell no more than 255, behind a plus sign or not.
pub proof fn a_byte_is_read_from_its_digits(s: Seq<char>, b: u8)
    requires
        s.len() > 0,
        s[0] != '+',
    ensures
        hex_byte(s) == Some(b) <==> hex_number(s) == Some(b as nat),
        hex_byte(seq!['+'] + s) == hex_byte(s),
        hex_byte(seq![]) is None,
        hex_byte(seq!['+']) is None,
        hex_number(s) matches Some(n) && n > 255 ==> hex_byte(s) is None,
{
    assert((seq!['+'] + s).skip(1) =~= s);
    assert(seq!['+'].skip(1) =~= Seq::<char>::empty());
}

/// A text stands in another exactly where that is something, the text, and something.
pub proof fn a_text_is_held_between_two(before: Seq<char>, part: Seq<char>, after: Seq<char>, s: Seq<char>)
    ensures
        holds_text(before + part + after, part),
        s.len() < part.len() ==> !holds_text(s, part),
        s.len() == part.len() ==> (holds_text(s, part) <==> s == part),
        holds_text(s, part) ==> exists|a: Seq<char>, b: Seq<char>| s == #[trigger] (a + part + b),
{
    let all = before + part + after;
    let i = before.len() as int;
    assert(all.subrange(i, i + part.len()) =~= part);
    if s.len() == part.len() {
        let zero: int = 0;
        assert(s.subrange(zero, zero + part.len()) =~= s);
    }
    if holds_text(s, part) {
        let k = choose|k: int|
            0 <= k <= s.len() - part.len() && #[trigger] s.subrange(k, k + part.len()) == part;
        assert(s =~= s.take(k) + part + s.skip(k + part.len()));
    }
}

/// White space is what separates words: the space, the tabulator and the ends of lines among
/// it, and no letter, digit or sign that is written in hexadecimal text.
pub proof fn words_are_not_white(c: char)
    ensures
        is_white(' ') && is_white('\t') && is_white('\n') && is_white('\r'),
        '!' <= c && c <= '~' ==> !is_white(c),
{
}

} // verus!
