//! Strings as sequences of characters and as UTF-8 bytes.

use vstd::arithmetic::power::pow;
use vstd::prelude::*;
use vstd::utf8::{decode_utf8, encode_scalar, encode_utf8, valid_utf8};

verus! {

/// `bytes` as text, with every malformed sequence replaced, where they are not valid UTF-8.
pub uninterp spec fn utf8_repaired(bytes: Seq<u8>) -> Seq<char>;

/// `bytes` as text: decoded where they are valid UTF-8, repaired where they are not.
pub open spec fn lossy_text(bytes: Seq<u8>) -> Seq<char> {
    if valid_utf8(bytes) {
        decode_utf8(bytes)
    } else {
        utf8_repaired(bytes)
    }
}

/// `String::from_utf8_lossy`: valid UTF-8 is decoded as it stands; of other bytes the text is a
/// function of the bytes alone.
#[verifier::external_body]
pub(crate) fn text_from_bytes(bytes: &[u8]) -> (r: String)
    ensures
        r@ == (if valid_utf8(bytes@) {
            decode_utf8(bytes@)
        } else {
            utf8_repaired(bytes@)
        }),
{
    String::from_utf8_lossy(bytes).into_owned()
}

/// `String::push`: appends one character.
pub assume_specification[ String::push ](s: &mut String, c: char)
    ensures
        final(s)@ == old(s)@.push(c),
;

/// The encoding of a text is read back as that text.
pub proof fn lemma_lossy_round_trip(chars: Seq<char>)
    ensures
        lossy_text(encode_utf8(chars)) == chars,
{
    vstd::utf8::encode_utf8_valid_utf8(chars);
    vstd::utf8::encode_utf8_decode_utf8(chars);
}

/// Encoding a text without NUL characters gives no zero byte.
pub proof fn lemma_no_zero_bytes(chars: Seq<char>)
    requires
        forall|i: int| 0 <= i < chars.len() ==> chars[i] != '\0',
    ensures
        forall|i: int| 0 <= i < encode_utf8(chars).len() ==> encode_utf8(chars)[i] != 0,
    decreases chars.len(),
{
    if chars.len() > 0 {
        let c = chars[0] as u32;
        vstd::utf8::char_is_scalar(chars[0]);
        vstd::utf8::char_u32_cast(chars[0], c);
        assert(chars[0] != '\0');
        assert(c != 0);
        let rest = chars.drop_first();
        assert forall|i: int| 0 <= i < rest.len() implies rest[i] != '\0' by {
            assert(rest[i] == chars[i + 1]);
        }
        lemma_no_zero_bytes(rest);
        assert(c <= 0x7F && c != 0 ==> (c & 0x7F) as u8 != 0) by (bit_vector);
        assert(0xC0 | ((c >> 6) & 0x1F) as u8 != 0) by (bit_vector);
        assert(0xE0 | ((c >> 12) & 0x0F) as u8 != 0) by (bit_vector);
        assert(0xF0 | ((c >> 18) & 0x7) as u8 != 0) by (bit_vector);
        assert(0x80 | (c & 0x3F) as u8 != 0) by (bit_vector);
        assert(0x80 | ((c >> 6) & 0x3F) as u8 != 0) by (bit_vector);
        assert(0x80 | ((c >> 12) & 0x3F) as u8 != 0) by (bit_vector);
        let head = encode_scalar(c);
        assert forall|i: int| 0 <= i < head.len() implies head[i] != 0 by {}
        assert forall|i: int| 0 <= i < encode_utf8(chars).len() implies encode_utf8(chars)[i]
            != 0 by {
            if i >= head.len() {
                assert(encode_utf8(chars)[i] == encode_utf8(rest)[i - head.len()]);
            }
        }
    }
}

/// The characters of `s`, in order.
pub fn chars_of(s: &str) -> (r: Vec<char>)
    ensures
        r@ == s@,
{
    let mut out: Vec<char> = Vec::new();
    for c in it: s.chars()
        invariant
            out@.len() == it.index(),
            forall|i: int| 0 <= i < out@.len() ==> out@[i] == it.seq()[i],
            it.seq() == s@,
    {
        out.push(c);
    }
    assert(out@ =~= s@);
    out
}

/// Whether two texts are equal.
pub fn text_equal(a: &str, b: &str) -> (r: bool)
    ensures
        r == (a@ == b@),
{
    let same: bool = crate::util::bytes_equal(a.as_bytes(), b.as_bytes());
    proof {
        vstd::utf8::encode_utf8_decode_utf8(a@);
        vstd::utf8::encode_utf8_decode_utf8(b@);
    }
    same
}

/// Whether a text is ASCII.
pub open spec fn all_ascii(chars: Seq<char>) -> bool {
    forall|i: int| 0 <= i < chars.len() ==> (#[trigger] chars[i]) as int <= 0x7F
}

/// A letter from `A` to `Z` in lower case; any other character as it is.
pub open spec fn small_letter(c: char) -> char {
    if 'A' as int <= c as int <= 'Z' as int {
        (c as int + 0x20) as char
    } else {
        c
    }
}

/// A text that is not ASCII in lower case.
pub uninterp spec fn unicode_lower(chars: Seq<char>) -> Seq<char>;

/// `chars` in lower case.
pub open spec fn lowercase(chars: Seq<char>) -> Seq<char> {
    if all_ascii(chars) {
        Seq::new(chars.len(), |i: int| small_letter(chars[i]))
    } else {
        unicode_lower(chars)
    }
}

/// `str::to_lowercase`: in an ASCII text the letters from `A` to `Z` become those from `a` to `z`
/// and the rest stays. Of any other text the result is a function of the text alone, whatever the
/// machine's locale.
#[verifier::external_body]
pub(crate) fn to_lowercase(s: &str) -> (r: String)
    ensures
        all_ascii(s@) ==> r@ == Seq::new(s@.len(), |i: int| small_letter(s@[i])),
        !all_ascii(s@) ==> r@ == unicode_lower(s@),
{
    s.to_lowercase()
}

/// `a` followed by `b`.
pub fn text_join(a: &str, b: &str) -> (r: String)
    ensures
        r@ == a@ + b@,
{
    let mut r: String = String::from_str(a);
    r.append(b);
    r
}

/// Whether `s` starts with `prefix`.
pub fn text_starts_with(s: &str, prefix: &str) -> (r: bool)
    ensures
        r == prefix@.is_prefix_of(s@),
{
    let whole: Vec<char> = chars_of(s);
    let part: Vec<char> = chars_of(prefix);
    if part.len() > whole.len() {
        return false;
    }
    let mut i: usize = 0;
    while i < part.len()
        invariant
            i <= part@.len() <= whole@.len(),
            whole@ == s@,
            part@ == prefix@,
            forall|j: int| 0 <= j < i ==> part@[j] == whole@[j],
        decreases part@.len() - i,
    {
        if part[i] != whole[i] {
            assert(whole@.subrange(0, part@.len() as int)[i as int] == whole@[i as int]);
            return false;
        }
        i += 1;
    }
    assert(part@ =~= whole@.subrange(0, part@.len() as int));
    true
}

/// Whether `s` ends with `suffix`.
pub fn text_ends_with(s: &str, suffix: &str) -> (r: bool)
    ensures
        r == suffix@.is_suffix_of(s@),
{
    let whole: Vec<char> = chars_of(s);
    let part: Vec<char> = chars_of(suffix);
    if part.len() > whole.len() {
        return false;
    }
    let skip: usize = whole.len() - part.len();
    let ghost tail = whole@.subrange(skip as int, whole@.len() as int);
    let mut i: usize = 0;
    while i < part.len()
        invariant
            i <= part@.len(),
            whole@ == s@,
            part@ == suffix@,
            skip + part@.len() == whole@.len(),
            whole@.len() <= usize::MAX,
            tail == whole@.subrange(skip as int, whole@.len() as int),
            forall|j: int| 0 <= j < i ==> part@[j] == tail[j],
        decreases part@.len() - i,
    {
        if part[i] != whole[skip + i] {
            assert(tail[i as int] == whole@[skip + i]);
            return false;
        }
        i += 1;
    }
    assert(part@ =~= tail);
    true
}

/// The decimal digit of `d`.
pub open spec fn digit_of(d: int) -> char {
    (48 + d) as u8 as char
}

/// The lower-case hexadecimal digit of `d`.
pub open spec fn hex_digit_of(d: int) -> char {
    (if d < 10 {
        48 + d
    } else {
        87 + d
    }) as u8 as char
}

/// The upper-case hexadecimal digit of `d`.
pub open spec fn upper_hex_digit_of(d: int) -> char {
    (if d < 10 {
        48 + d
    } else {
        55 + d
    }) as u8 as char
}

/// `n` in decimal.
pub open spec fn decimal_of(n: nat) -> Seq<char>
    decreases n,
{
    if n < 10 {
        seq![digit_of(n as int)]
    } else {
        decimal_of(n / 10).push(digit_of((n % 10) as int))
    }
}

/// `n` in upper-case hexadecimal, without leading zeros.
pub open spec fn upper_hex_of(n: nat) -> Seq<char>
    decreases n,
{
    if n < 16 {
        seq![upper_hex_digit_of(n as int)]
    } else {
        upper_hex_of(n / 16).push(upper_hex_digit_of((n % 16) as int))
    }
}

/// The low `width` hexadecimal digits of `n`, in lower case.
pub open spec fn hex_of(n: nat, width: nat) -> Seq<char>
    decreases width,
{
    if width == 0 {
        Seq::empty()
    } else {
        hex_of(n / 16, (width - 1) as nat).push(hex_digit_of((n % 16) as int))
    }
}

/// The low `width` hexadecimal digits of `n`, in upper case.
pub open spec fn upper_hex_fixed(n: nat, width: nat) -> Seq<char>
    decreases width,
{
    if width == 0 {
        Seq::empty()
    } else {
        upper_hex_fixed(n / 16, (width - 1) as nat).push(upper_hex_digit_of((n % 16) as int))
    }
}

/// `chars` with zeros in front up to `width` characters.
pub open spec fn zero_padded(chars: Seq<char>, width: int) -> Seq<char> {
    Seq::new(
        if chars.len() < width {
            (width - chars.len()) as nat
        } else {
            0
        },
        |i: int| '0',
    ) + chars
}

/// Append `n` in decimal.
pub fn push_decimal(out: &mut String, n: u64)
    ensures
        final(out)@ == old(out)@ + decimal_of(n as nat),
    decreases n,
{
    if n >= 10 {
        push_decimal(out, n / 10);
    }
    out.push((48u8 + (n % 10) as u8) as char);
    assert(out@ =~= old(out)@ + decimal_of(n as nat));
}

/// Append `n` in upper-case hexadecimal.
pub fn push_upper_hex(out: &mut String, n: u64)
    ensures
        final(out)@ == old(out)@ + upper_hex_of(n as nat),
    decreases n,
{
    if n >= 16 {
        push_upper_hex(out, n / 16);
    }
    let d: u8 = (n % 16) as u8;
    out.push((if d < 10 {
        48u8 + d
    } else {
        55u8 + d
    }) as char);
    assert(out@ =~= old(out)@ + upper_hex_of(n as nat));
}

/// `n` in lower-case hexadecimal.
pub open spec fn lower_hex_of(n: nat) -> Seq<char>
    decreases n,
{
    if n < 16 {
        seq![hex_digit_of(n as int)]
    } else {
        lower_hex_of(n / 16) + seq![hex_digit_of(n as int % 16)]
    }
}

/// Append `n` in lower-case hexadecimal.
pub fn push_lower_hex(out: &mut String, n: u64)
    ensures
        final(out)@ == old(out)@ + lower_hex_of(n as nat),
    decreases n,
{
    if n >= 16 {
        push_lower_hex(out, n / 16);
    }
    let d: u8 = (n % 16) as u8;
    out.push((if d < 10 {
        48u8 + d
    } else {
        87u8 + d
    }) as char);
    assert(out@ =~= old(out)@ + lower_hex_of(n as nat));
}

/// Append the low `width` hexadecimal digits of `n`, in lower case.
pub fn push_hex(out: &mut String, n: u64, width: u32)
    ensures
        final(out)@ == old(out)@ + hex_of(n as nat, width as nat),
    decreases width,
{
    if width > 0 {
        push_hex(out, n / 16, width - 1);
        let d: u8 = (n % 16) as u8;
        out.push((if d < 10 {
            48u8 + d
        } else {
            87u8 + d
        }) as char);
    }
    assert(out@ =~= old(out)@ + hex_of(n as nat, width as nat));
}

/// Append the low `width` hexadecimal digits of `n`, in upper case.
pub fn push_upper_hex_fixed(out: &mut String, n: u64, width: u32)
    ensures
        final(out)@ == old(out)@ + upper_hex_fixed(n as nat, width as nat),
    decreases width,
{
    if width > 0 {
        push_upper_hex_fixed(out, n / 16, width - 1);
        let d: u8 = (n % 16) as u8;
        out.push((if d < 10 {
            48u8 + d
        } else {
            55u8 + d
        }) as char);
    }
    assert(out@ =~= old(out)@ + upper_hex_fixed(n as nat, width as nat));
}

/// `n` in decimal.
pub fn decimal(n: u64) -> (r: String)
    ensures
        r@ == decimal_of(n as nat),
{
    let mut r: String = String::new();
    push_decimal(&mut r, n);
    assert(r@ =~= decimal_of(n as nat));
    r
}

/// Append `n` in decimal, with zeros in front up to `width` digits.
pub fn push_decimal_padded(out: &mut String, n: u64, width: usize)
    ensures
        final(out)@ == old(out)@ + zero_padded(decimal_of(n as nat), width as int),
{
    let digits: Vec<char> = chars_of(decimal(n).as_str());
    let mut gap: usize = if digits.len() < width {
        width - digits.len()
    } else {
        0
    };
    let ghost zeros = Seq::new(gap as nat, |i: int| '0');
    let ghost total = gap;
    while gap > 0
        invariant
            gap <= total,
            zeros == Seq::new(total as nat, |i: int| '0'),
            out@ == old(out)@ + zeros.subrange(0, total - gap),
        decreases gap,
    {
        out.push('0');
        gap -= 1;
        assert(out@ =~= old(out)@ + zeros.subrange(0, total - gap));
    }
    push_decimal(out, n);
    assert(out@ =~= old(out)@ + zero_padded(decimal_of(n as nat), width as int));
}

/// Whether a character is white space, as Unicode defines it.
pub open spec fn white(c: char) -> bool {
    let n = c as u32;
    9 <= n <= 13 || n == 0x20 || n == 0x85 || n == 0xA0 || n == 0x1680 || 0x2000 <= n <= 0x200A || n
        == 0x2028 || n == 0x2029 || n == 0x202F || n == 0x205F || n == 0x3000
}

/// Whether a character is white space.
pub fn is_white(c: char) -> (r: bool)
    ensures
        r == white(c),
{
    let n: u32 = c as u32;
    (9 <= n && n <= 13) || n == 0x20 || n == 0x85 || n == 0xA0 || n == 0x1680 || (0x2000 <= n && n
        <= 0x200A) || n == 0x2028 || n == 0x2029 || n == 0x202F || n == 0x205F || n == 0x3000
}

/// The first character from `i` on that is no white space; the length where all are.
pub open spec fn first_dark(chars: Seq<char>, i: int) -> int
    decreases chars.len() - i,
{
    if 0 <= i < chars.len() && white(chars[i]) {
        first_dark(chars, i + 1)
    } else {
        i
    }
}

/// One past the last character before `j` that is no white space; `from` where all are.
pub open spec fn last_dark(chars: Seq<char>, from: int, j: int) -> int
    decreases j - from,
{
    if from < j && white(chars[j - 1]) {
        last_dark(chars, from, j - 1)
    } else {
        j
    }
}

/// A text without the white space around it.
pub open spec fn trimmed(chars: Seq<char>) -> Seq<char> {
    let from = first_dark(chars, 0);
    chars.subrange(from, last_dark(chars, from, chars.len() as int))
}

/// `chars` from `start` up to `end`, without the white space around it.
pub fn trim_range(chars: &Vec<char>, start: usize, end: usize) -> (r: Vec<char>)
    requires
        start <= end <= chars@.len(),
    ensures
        r@ == trimmed(chars@.subrange(start as int, end as int)),
{
    let ghost part = chars@.subrange(start as int, end as int);
    let mut from: usize = start;
    while from < end && is_white(chars[from])
        invariant
            start <= from <= end <= chars@.len(),
            part == chars@.subrange(start as int, end as int),
            first_dark(part, 0) == first_dark(part, from - start),
        ensures
            start <= from <= end,
            first_dark(part, 0) == from - start,
        decreases end - from,
    {
        assert(part[from - start] == chars@[from as int]);
        from += 1;
    }
    let mut to: usize = end;
    while to > from && is_white(chars[to - 1])
        invariant
            start <= from <= to <= end <= chars@.len(),
            part == chars@.subrange(start as int, end as int),
            last_dark(part, from - start, end - start) == last_dark(
                part,
                from - start,
                to - start,
            ),
        ensures
            from <= to <= end,
            last_dark(part, from - start, end - start) == to - start,
        decreases to - from,
    {
        assert(part[to - start - 1] == chars@[to - 1]);
        to -= 1;
    }
    let mut out: Vec<char> = Vec::new();
    let mut i: usize = from;
    while i < to
        invariant
            from <= i <= to <= chars@.len(),
            out@ == chars@.subrange(from as int, i as int),
        decreases to - i,
    {
        out.push(chars[i]);
        i += 1;
        assert(out@ =~= chars@.subrange(from as int, i as int));
    }
    assert(out@ =~= trimmed(part));
    out
}

/// The text of a list of characters.
pub fn text_of(chars: &Vec<char>) -> (r: String)
    ensures
        r@ == chars@,
{
    let mut out: String = String::new();
    let mut i: usize = 0;
    assert(out@ =~= chars@.subrange(0, 0));
    while i < chars.len()
        invariant
            i <= chars@.len(),
            out@ == chars@.subrange(0, i as int),
        decreases chars@.len() - i,
    {
        out.push(chars[i]);
        i += 1;
        assert(out@ =~= chars@.subrange(0, i as int));
    }
    assert(out@ =~= chars@);
    out
}

/// The value of a hexadecimal digit.
pub open spec fn hex_value_of(n: u32) -> Option<u8> {
    if 0x30 <= n <= 0x39 {
        Some((n - 0x30) as u8)
    } else if 0x41 <= n <= 0x46 {
        Some((n - 0x37) as u8)
    } else if 0x61 <= n <= 0x66 {
        Some((n - 0x57) as u8)
    } else {
        None
    }
}

/// The value of a hexadecimal digit, given by its code.
pub fn hex_value(n: u32) -> (r: Option<u8>)
    ensures
        r == hex_value_of(n),
        r matches Some(v) ==> v < 16,
{
    if 0x30 <= n && n <= 0x39 {
        Some((n - 0x30) as u8)
    } else if 0x41 <= n && n <= 0x46 {
        Some((n - 0x37) as u8)
    } else if 0x61 <= n && n <= 0x66 {
        Some((n - 0x57) as u8)
    } else {
        None
    }
}

/// An ASCII letter in lower case; any other character as it is.
pub open spec fn ascii_lower(c: char) -> u32 {
    if 0x41 <= c as u32 <= 0x5A {
        (c as u32 + 0x20) as u32
    } else {
        c as u32
    }
}

/// Whether two texts are the same but for the case of ASCII letters.
pub open spec fn same_ignoring_case(a: Seq<char>, b: Seq<char>) -> bool {
    a.len() == b.len() && forall|i: int|
        0 <= i < a.len() ==> ascii_lower(#[trigger] a[i]) == ascii_lower(b[i])
}

/// Whether two texts are the same but for the case of ASCII letters.
pub fn equal_ignoring_case(a: &Vec<char>, b: &Vec<char>) -> (r: bool)
    ensures
        r == same_ignoring_case(a@, b@),
{
    if a.len() != b.len() {
        return false;
    }
    let mut i: usize = 0;
    while i < a.len()
        invariant
            i <= a@.len() == b@.len(),
            forall|j: int| 0 <= j < i ==> ascii_lower(#[trigger] a@[j]) == ascii_lower(b@[j]),
        decreases a@.len() - i,
    {
        let x: u32 = a[i] as u32;
        let y: u32 = b[i] as u32;
        let lx: u32 = if 0x41 <= x && x <= 0x5A {
            x + 0x20
        } else {
            x
        };
        let ly: u32 = if 0x41 <= y && y <= 0x5A {
            y + 0x20
        } else {
            y
        };
        if lx != ly {
            assert(ascii_lower(a@[i as int]) != ascii_lower(b@[i as int]));
            return false;
        }
        i += 1;
    }
    true
}

/// The number that digits spell in the given base: `0` to `9`, then the letters from `A` or `a`
/// on.
pub open spec fn number_of(digits: Seq<char>, base: int) -> int
    decreases digits.len(),
{
    if digits.len() == 0 {
        0
    } else {
        let c = digits.last() as int;
        number_of(digits.drop_last(), base) * base + if c >= 0x61 {
            c - 0x57
        } else if c >= 0x41 {
            c - 0x37
        } else {
            c - 0x30
        }
    }
}

/// A number in decimal is spelt by the digits from `0` to `9`, with no zero in front of others,
/// and reads as that number.
pub proof fn law_decimal_reads_back(n: nat)
    ensures
        number_of(decimal_of(n), 10) == n,
        decimal_of(n).len() > 0,
        forall|i: int|
            0 <= i < decimal_of(n).len() ==> 0x30 <= (#[trigger] decimal_of(n)[i]) as int <= 0x39,
        decimal_of(n)[0] == '0' ==> n == 0,
    decreases n,
{
    let all = decimal_of(n);
    if n < 10 {
        assert(all.drop_last() =~= Seq::<char>::empty());
        assert(number_of(all.drop_last(), 10) == 0);
        assert(all.last() as int == 48 + n);
    } else {
        law_decimal_reads_back(n / 10);
        assert(all.drop_last() =~= decimal_of(n / 10));
        assert(all.last() as int == 48 + n % 10);
        assert(all[0] == decimal_of(n / 10)[0]);
    }
}

/// A number in upper-case hexadecimal is spelt by the digits from `0` to `9` and from `A` to `F`,
/// with no zero in front of others, and reads as that number.
pub proof fn law_upper_hex_reads_back(n: nat)
    ensures
        number_of(upper_hex_of(n), 16) == n,
        upper_hex_of(n).len() > 0,
        forall|i: int|
            0 <= i < upper_hex_of(n).len() ==> {
                let c = (#[trigger] upper_hex_of(n)[i]) as int;
                0x30 <= c <= 0x39 || 0x41 <= c <= 0x46
            },
        upper_hex_of(n)[0] == '0' ==> n == 0,
    decreases n,
{
    let all = upper_hex_of(n);
    let d = n % 16;
    let c = all.last() as int;
    if n < 16 {
        assert(all.drop_last() =~= Seq::<char>::empty());
        assert(number_of(all.drop_last(), 16) == 0);
        assert(c == if n < 10 {
            48 + n
        } else {
            55 + n
        });
    } else {
        law_upper_hex_reads_back(n / 16);
        assert(all.drop_last() =~= upper_hex_of(n / 16));
        assert(c == if d < 10 {
            48 + d
        } else {
            55 + d
        });
        assert(all[0] == upper_hex_of(n / 16)[0]);
    }
}

/// A number in lower-case hexadecimal is spelt by the digits from `0` to `9` and from `a` to `f`,
/// with no zero in front of others, and reads as that number.
pub proof fn law_lower_hex_reads_back(n: nat)
    ensures
        number_of(lower_hex_of(n), 16) == n,
        lower_hex_of(n).len() > 0,
        forall|i: int|
            0 <= i < lower_hex_of(n).len() ==> {
                let c = (#[trigger] lower_hex_of(n)[i]) as int;
                0x30 <= c <= 0x39 || 0x61 <= c <= 0x66
            },
        lower_hex_of(n)[0] == '0' ==> n == 0,
    decreases n,
{
    let all = lower_hex_of(n);
    let d = n % 16;
    let c = all.last() as int;
    if n < 16 {
        assert(all.drop_last() =~= Seq::<char>::empty());
        assert(number_of(all.drop_last(), 16) == 0);
        assert(c == if n < 10 {
            48 + n
        } else {
            87 + n
        });
    } else {
        law_lower_hex_reads_back(n / 16);
        assert(all.drop_last() =~= lower_hex_of(n / 16));
        assert(c == if d < 10 {
            48 + d
        } else {
            87 + d
        });
        assert(all[0] == lower_hex_of(n / 16)[0]);
    }
}

/// A number in hexadecimal of a fixed width has that many digits and reads as that number, where
/// they are enough for it.
pub proof fn law_fixed_hex_reads_back(n: nat, width: nat)
    requires
        n < pow(16, width),
    ensures
        upper_hex_fixed(n, width).len() == width,
        hex_of(n, width).len() == width,
        number_of(upper_hex_fixed(n, width), 16) == n,
        number_of(hex_of(n, width), 16) == n,
        forall|i: int|
            0 <= i < width ==> {
                let c = (#[trigger] upper_hex_fixed(n, width)[i]) as int;
                0x30 <= c <= 0x39 || 0x41 <= c <= 0x46
            },
        forall|i: int|
            0 <= i < width ==> {
                let c = (#[trigger] hex_of(n, width)[i]) as int;
                0x30 <= c <= 0x39 || 0x61 <= c <= 0x66
            },
    decreases width,
{
    if width == 0 {
        reveal(pow);
    } else {
        let less = (width - 1) as nat;
        assert(n / 16 < pow(16, less)) by {
            reveal(pow);
            assert(pow(16, width) == 16 * pow(16, less));
        }
        law_fixed_hex_reads_back(n / 16, less);
        let upper = upper_hex_fixed(n, width);
        let lower = hex_of(n, width);
        assert(upper.drop_last() =~= upper_hex_fixed(n / 16, less));
        assert(lower.drop_last() =~= hex_of(n / 16, less));
        let d = n % 16;
        assert(upper.last() as int == if d < 10 {
            48 + d
        } else {
            55 + d
        });
        assert(lower.last() as int == if d < 10 {
            48 + d
        } else {
            87 + d
        });
        assert forall|i: int| 0 <= i < width implies {
            let c = (#[trigger] upper[i]) as int;
            0x30 <= c <= 0x39 || 0x41 <= c <= 0x46
        } by {
            if i < less {
                assert(upper[i] == upper_hex_fixed(n / 16, less)[i]);
            }
        }
        assert forall|i: int| 0 <= i < width implies {
            let c = (#[trigger] lower[i]) as int;
            0x30 <= c <= 0x39 || 0x61 <= c <= 0x66
        } by {
            if i < less {
                assert(lower[i] == hex_of(n / 16, less)[i]);
            }
        }
    }
}

/// Every 32-bit number fits eight hexadecimal digits, and every 64-bit number sixteen.
pub proof fn lemma_hex_widths()
    ensures
        pow(16, 8) == 0x1_0000_0000,
        pow(16, 16) == 0x1_0000_0000_0000_0000,
{
    reveal_with_fuel(pow, 9);
    assert(pow(16, 8) == 0x1_0000_0000);
    vstd::arithmetic::power::lemma_pow_adds(16, 8, 8);
    assert(0x1_0000_0000int * 0x1_0000_0000 == 0x1_0000_0000_0000_0000);
}

/// Padding puts zeros in front, as many as are missing, and keeps the text behind them.
pub proof fn law_padding_adds_zeros_in_front(chars: Seq<char>, width: int)
    ensures
        zero_padded(chars, width).len() == if chars.len() < width {
            width
        } else {
            chars.len() as int
        },
        chars.len() <= zero_padded(chars, width).len(),
        zero_padded(chars, width).subrange(
            zero_padded(chars, width).len() - chars.len(),
            zero_padded(chars, width).len() as int,
        ) == chars,
        forall|i: int|
            0 <= i < zero_padded(chars, width).len() - chars.len() ==> #[trigger] zero_padded(
                chars,
                width,
            )[i] == '0',
{
    let all = zero_padded(chars, width);
    assert(all.subrange(all.len() - chars.len(), all.len() as int) =~= chars);
}

/// White space is what Unicode says it is: tab to carriage return, space, and the others.
pub proof fn law_white_space(c: char)
    ensures
        white(c) <==> seq![
            0x09int,
            0x0A,
            0x0B,
            0x0C,
            0x0D,
            0x20,
            0x85,
            0xA0,
            0x1680,
            0x2028,
            0x2029,
            0x202F,
            0x205F,
            0x3000,
        ].contains(c as int) || 0x2000 <= c as int <= 0x200A,
{
    let list = seq![
        0x09int,
        0x0A,
        0x0B,
        0x0C,
        0x0D,
        0x20,
        0x85,
        0xA0,
        0x1680,
        0x2028,
        0x2029,
        0x202F,
        0x205F,
        0x3000,
    ];
    let n = c as int;
    assert(list[0] == 0x09 && list[1] == 0x0A && list[2] == 0x0B && list[3] == 0x0C && list[4]
        == 0x0D && list[5] == 0x20 && list[6] == 0x85 && list[7] == 0xA0 && list[8] == 0x1680
        && list[9] == 0x2028 && list[10] == 0x2029 && list[11] == 0x202F && list[12] == 0x205F
        && list[13] == 0x3000);
}

proof fn lemma_first_dark(chars: Seq<char>, i: int)
    requires
        0 <= i <= chars.len(),
    ensures
        i <= first_dark(chars, i) <= chars.len(),
        forall|k: int| i <= k < first_dark(chars, i) ==> white(#[trigger] chars[k]),
        first_dark(chars, i) < chars.len() ==> !white(chars[first_dark(chars, i)]),
    decreases chars.len() - i,
{
    if i < chars.len() && white(chars[i]) {
        lemma_first_dark(chars, i + 1);
    }
}

proof fn lemma_last_dark(chars: Seq<char>, from: int, j: int)
    requires
        0 <= from <= j <= chars.len(),
    ensures
        from <= last_dark(chars, from, j) <= j,
        forall|k: int| last_dark(chars, from, j) <= k < j ==> white(#[trigger] chars[k]),
        last_dark(chars, from, j) > from ==> !white(chars[last_dark(chars, from, j) - 1]),
    decreases j - from,
{
    if from < j && white(chars[j - 1]) {
        lemma_last_dark(chars, from, j - 1);
    }
}

/// Trimming takes white space away in front and behind, all of it and nothing else.
pub proof fn law_trimming_takes_the_white_space_around(chars: Seq<char>)
    ensures
        exists|i: int, j: int|
            0 <= i <= j <= chars.len() && trimmed(chars) == #[trigger] chars.subrange(i, j) && (
            forall|k: int| 0 <= k < i || j <= k < chars.len() ==> white(#[trigger] chars[k])),
        trimmed(chars).len() > 0 ==> !white(trimmed(chars)[0]) && !white(trimmed(chars).last()),
{
    let from = first_dark(chars, 0);
    let to = last_dark(chars, from, chars.len() as int);
    lemma_first_dark(chars, 0);
    lemma_last_dark(chars, from, chars.len() as int);
    assert(trimmed(chars) == chars.subrange(from, to));
    assert(forall|k: int| 0 <= k < from || to <= k < chars.len() ==> white(#[trigger] chars[k]));
}

/// A hexadecimal digit has the value of its place among the digits, in either case; nothing else
/// is one.
pub proof fn law_hex_digits_have_their_values(c: char)
    ensures
        hex_value_of(c as u32) is Some <==> ('0' <= c <= '9' || 'A' <= c <= 'F' || 'a' <= c <= 'f'),
        '0' <= c <= '9' ==> hex_value_of(c as u32)->0 == c as int - '0' as int,
        'A' <= c <= 'F' ==> hex_value_of(c as u32)->0 == 10 + (c as int - 'A' as int),
        'a' <= c <= 'f' ==> hex_value_of(c as u32)->0 == 10 + (c as int - 'a' as int),
{
}

/// Two texts are the same ignoring case exactly when they are of one length and differ at most
/// in ASCII letters, there by their case alone.
pub proof fn law_case_is_all_that_is_ignored(a: Seq<char>, b: Seq<char>)
    ensures
        same_ignoring_case(a, b) <==> a.len() == b.len() && (forall|i: int|
            0 <= i < a.len() ==> {
                ||| #[trigger] a[i] == b[i]
                ||| 'A' <= a[i] <= 'Z' && b[i] as int == a[i] as int + 0x20
                ||| 'A' <= b[i] <= 'Z' && a[i] as int == b[i] as int + 0x20
            }),
{
    assert forall|i: int| 0 <= i < a.len() && a.len() == b.len() implies (ascii_lower(
        #[trigger] a[i],
    ) == ascii_lower(b[i]) <==> {
        ||| a[i] == b[i]
        ||| 'A' <= a[i] <= 'Z' && b[i] as int == a[i] as int + 0x20
        ||| 'A' <= b[i] <= 'Z' && a[i] as int == b[i] as int + 0x20
    }) by {
        lemma_same_letter(a[i], b[i]);
    }
}

proof fn lemma_same_letter(x: char, y: char)
    ensures
        ascii_lower(x) == ascii_lower(y) <==> {
            ||| x == y
            ||| 'A' <= x <= 'Z' && y as int == x as int + 0x20
            ||| 'A' <= y <= 'Z' && x as int == y as int + 0x20
        },
{
}

/// Of an ASCII text the capital letters become small ones in lower case, each its own, and
/// nothing else changes.
pub proof fn law_lower_case_of_ascii(chars: Seq<char>, i: int)
    requires
        0 <= i < chars.len(),
        forall|k: int| 0 <= k < chars.len() ==> (#[trigger] chars[k]) as int <= 0x7F,
    ensures
        lowercase(chars).len() == chars.len(),
        lowercase(chars)[i] as int == if 'A' <= chars[i] <= 'Z' {
            chars[i] as int - 'A' as int + 'a' as int
        } else {
            chars[i] as int
        },
{
    assert(all_ascii(chars));
}

/// A text with white space around a part that neither begins nor ends with any is trimmed to that
/// part.
pub proof fn lemma_trimmed_is(chars: Seq<char>, i: int, j: int)
    requires
        0 <= i <= j <= chars.len(),
        forall|k: int| 0 <= k < i || j <= k < chars.len() ==> white(#[trigger] chars[k]),
        i < j ==> !white(chars[i]) && !white(chars[j - 1]),
    ensures
        trimmed(chars) == chars.subrange(i, j),
{
    let from = first_dark(chars, 0);
    let to = last_dark(chars, from, chars.len() as int);
    lemma_first_dark(chars, 0);
    lemma_last_dark(chars, from, chars.len() as int);
    if i < j {
        if from < i {
            assert(white(chars[from]));
        }
        if i < from {
            assert(white(chars[i]));
        }
        if to < j {
            assert(white(chars[j - 1]));
        }
        if j < to {
            assert(white(chars[to - 1]));
        }
    } else {
        if from < chars.len() {
            assert(white(chars[from]));
        }
        assert(chars.subrange(from, to) =~= chars.subrange(i, j));
    }
}

} // verus!
