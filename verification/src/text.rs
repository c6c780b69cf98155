//! Code points, their widths in UTF-8 and UTF-16, and the three ways of
//! addressing a position in a text: by byte, by code point, by UTF-16 unit.

use vstd::prelude::*;
use vstd::utf8::{char_is_scalar, encode_scalar, encode_utf8};

verus! {

/// Whether `c` has the Unicode property `White_Space`.
pub uninterp spec fn whitespace(c: char) -> bool;

/// Whether `c` belongs to one of the Unicode general categories for numbers.
pub uninterp spec fn numeric(c: char) -> bool;

/// Whether `c` is one of the six code points below 128 that have the
/// property `White_Space`: tab, line feed, vertical tab, form feed, carriage
/// return and space.
pub open spec fn ascii_whitespace(c: char) -> bool {
    c == ' ' || 9 <= (c as u32) <= 13
}

/// Whether `c` is one of the ten digits `0` to `9`, the only code points
/// below 128 in a general category for numbers.
pub open spec fn ascii_digit(c: char) -> bool {
    48 <= (c as u32) <= 57
}

/// `char::is_whitespace` is a function of the code point alone; its result is
/// named [`whitespace`]. Beyond that it is claimed only which code points
/// below 128 have the property: the six of [`ascii_whitespace`].
pub assume_specification[ char::is_whitespace ](c: char) -> (r: bool)
    ensures
        r == whitespace(c),
        (c as u32) < 128 ==> r == ascii_whitespace(c),
;

/// `char::is_numeric` is a function of the code point alone; its result is
/// named [`numeric`]. Beyond that it is claimed only which code points below
/// 128 are numbers: the ten of [`ascii_digit`].
pub assume_specification[ char::is_numeric ](c: char) -> (r: bool)
    ensures
        r == numeric(c),
        (c as u32) < 128 ==> r == ascii_digit(c),
;

/// Equality of string slices compares their bytes, and so, the encoding
/// being one to one, their code points.
pub assume_specification[ <str as PartialEq>::eq ](a: &str, b: &str) -> (same: bool)
    ensures
        same == (a@ == b@),
;

/// Number of bytes of `c` in UTF-8.
pub open spec fn utf8_width(c: char) -> nat {
    if (c as u32) < 0x80 {
        1
    } else if (c as u32) < 0x800 {
        2
    } else if (c as u32) < 0x10000 {
        3
    } else {
        4
    }
}

/// Number of 16-bit units of `c` in UTF-16.
pub open spec fn utf16_width(c: char) -> nat {
    if (c as u32) < 0x10000 {
        1
    } else {
        2
    }
}

/// Number of bytes of `s` in UTF-8.
pub open spec fn utf8_len(s: Seq<char>) -> nat
    decreases s.len(),
{
    if s.len() == 0 {
        0
    } else {
        utf8_len(s.drop_last()) + utf8_width(s.last())
    }
}

/// Number of 16-bit units of `s` in UTF-16.
pub open spec fn utf16_len(s: Seq<char>) -> nat
    decreases s.len(),
{
    if s.len() == 0 {
        0
    } else {
        utf16_len(s.drop_last()) + utf16_width(s.last())
    }
}

/// Byte offset at which the code point with index `i` begins (for `i == s.len()`,
/// the length of the text in bytes).
pub open spec fn byte_offset(s: Seq<char>, i: int) -> nat {
    utf8_len(s.take(i))
}

/// UTF-16 offset at which the code point with index `i` begins.
pub open spec fn utf16_offset(s: Seq<char>, i: int) -> nat {
    utf16_len(s.take(i))
}

/// Number of code points of `s` that begin before byte offset `b`.
pub open spec fn chars_before(s: Seq<char>, b: int) -> int
    decreases s.len(),
{
    if s.len() == 0 {
        0
    } else if utf8_len(s.drop_last()) < b {
        s.len() as int
    } else {
        chars_before(s.drop_last(), b)
    }
}

/// The bytes of two texts put together are the bytes of the one and of the other.
pub proof fn lemma_utf8_len_concat(a: Seq<char>, b: Seq<char>)
    ensures
        utf8_len(a + b) == utf8_len(a) + utf8_len(b),
    decreases b.len(),
{
    if b.len() == 0 {
        assert(a + b =~= a);
    } else {
        lemma_utf8_len_concat(a, b.drop_last());
        assert((a + b).drop_last() =~= a + b.drop_last());
    }
}

/// The UTF-16 units of two texts put together are those of the one and of the other.
pub proof fn lemma_utf16_len_concat(a: Seq<char>, b: Seq<char>)
    ensures
        utf16_len(a + b) == utf16_len(a) + utf16_len(b),
    decreases b.len(),
{
    if b.len() == 0 {
        assert(a + b =~= a);
    } else {
        lemma_utf16_len_concat(a, b.drop_last());
        assert((a + b).drop_last() =~= a + b.drop_last());
    }
}

/// The next code point begins behind the bytes, and the units, of this one.
pub proof fn lemma_byte_offset_step(s: Seq<char>, i: int)
    requires
        0 <= i < s.len(),
    ensures
        byte_offset(s, i + 1) == byte_offset(s, i) + utf8_width(s[i]),
        utf16_offset(s, i + 1) == utf16_offset(s, i) + utf16_width(s[i]),
{
    assert(s.take(i + 1).drop_last() =~= s.take(i));
}

/// Offsets grow with the index, by one at least for each code point, and
/// the offsets in bytes no less than those in UTF-16 units.
pub proof fn lemma_byte_offset_monotonic(s: Seq<char>, i: int, j: int)
    requires
        0 <= i <= j <= s.len(),
    ensures
        byte_offset(s, i) + (j - i) <= byte_offset(s, j),
        utf16_offset(s, i) + (j - i) <= utf16_offset(s, j),
        utf16_offset(s, j) - utf16_offset(s, i) <= byte_offset(s, j) - byte_offset(s, i),
    decreases j - i,
{
    if i < j {
        lemma_byte_offset_monotonic(s, i, j - 1);
        lemma_byte_offset_step(s, j - 1);
    }
}

/// The bytes of a piece of text lie between the offsets of its two ends.
pub proof fn lemma_subrange_len(s: Seq<char>, i: int, j: int)
    requires
        0 <= i <= j <= s.len(),
    ensures
        utf8_len(s.subrange(i, j)) == byte_offset(s, j) - byte_offset(s, i),
        utf16_len(s.subrange(i, j)) == utf16_offset(s, j) - utf16_offset(s, i),
{
    assert(s.take(j) =~= s.take(i) + s.subrange(i, j));
    lemma_utf8_len_concat(s.take(i), s.subrange(i, j));
    lemma_utf16_len_concat(s.take(i), s.subrange(i, j));
}

/// [`utf8_len`] is the length of the encoding that `str` stores.
pub proof fn lemma_utf8_len_is_encoded_len(s: Seq<char>)
    ensures
        encode_utf8(s).len() == utf8_len(s),
    decreases s.len(),
{
    if s.len() > 0 {
        let c = s[0];
        char_is_scalar(c);
        assert(encode_scalar(c as u32).len() == utf8_width(c));
        lemma_utf8_len_is_encoded_len(s.drop_first());
        assert(s =~= seq![c] + s.drop_first());
        lemma_utf8_len_concat(seq![c], s.drop_first());
        assert(seq![c].drop_last() =~= Seq::<char>::empty());
        assert(utf8_len(seq![c]) == utf8_width(c)) by {
            reveal_with_fuel(utf8_len, 2);
        }
    }
}

/// Number of bytes of `c` in UTF-8.
pub fn char_utf8_len(c: char) -> (n: usize)
    ensures
        n == utf8_width(c),
{
    let v: u32 = c as u32;
    if v < 0x80 {
        1
    } else if v < 0x800 {
        2
    } else if v < 0x10000 {
        3
    } else {
        4
    }
}

/// Number of 16-bit units of `c` in UTF-16.
pub fn char_utf16_len(c: char) -> (n: usize)
    ensures
        n == utf16_width(c),
{
    let v: u32 = c as u32;
    if v < 0x10000 {
        1
    } else {
        2
    }
}

/// The code points of `text`, in order.
pub fn chars_of(text: &str) -> (chars: Vec<char>)
    ensures
        chars@ == text@,
{
    let mut chars: Vec<char> = Vec::new();
    for c in it: text.chars()
        invariant
            chars@ == it.seq().take(it.index() as int),
            it.seq() == text@,
    {
        chars.push(c);
    }
    chars
}

/// Length of `text` in bytes.
pub fn byte_len(text: &str) -> (n: usize)
    ensures
        n == utf8_len(text@),
{
    proof {
        lemma_utf8_len_is_encoded_len(text@);
    }
    text.as_bytes().len()
}

/// A text laid out for lookup: its code points, and where each begins in the
/// UTF-8 and in the UTF-16 encoding. Both tables have one more entry than the
/// text has code points: the last holds the length of the encoding.
pub struct Offsets {
    pub chars: Vec<char>,
    pub bytes: Vec<usize>,
    pub units: Vec<usize>,
}

impl Offsets {
    /// Whether the tables are those of the code points held.
    pub open spec fn wf(&self) -> bool {
        &&& self.bytes@.len() == self.chars@.len() + 1
        &&& self.units@.len() == self.chars@.len() + 1
        &&& forall|i: int|
            0 <= i <= self.chars@.len() ==> self.bytes@[i] == #[trigger] byte_offset(self.chars@, i)
        &&& forall|i: int|
            0 <= i <= self.chars@.len() ==> self.units@[i] == #[trigger] utf16_offset(
                self.chars@,
                i,
            )
    }

    /// Lays out `text`.
    pub fn of(text: &str) -> (table: Offsets)
        ensures
            table.wf(),
            table.chars@ == text@,
    {
        let total: usize = byte_len(text);
        let chars: Vec<char> = chars_of(text);
        let mut bytes: Vec<usize> = Vec::new();
        let mut units: Vec<usize> = Vec::new();
        let mut byte: usize = 0;
        let mut unit: usize = 0;
        bytes.push(0);
        units.push(0);
        let mut i: usize = 0;
        assert(chars@.take(0) =~= Seq::<char>::empty());
        while i < chars.len()
            invariant
                0 <= i <= chars@.len(),
                total == utf8_len(chars@),
                byte == byte_offset(chars@, i as int),
                unit == utf16_offset(chars@, i as int),
                bytes@.len() == i + 1,
                units@.len() == i + 1,
                forall|k: int| 0 <= k <= i ==> bytes@[k] == #[trigger] byte_offset(chars@, k),
                forall|k: int| 0 <= k <= i ==> units@[k] == #[trigger] utf16_offset(chars@, k),
            decreases chars@.len() - i,
        {
            proof {
                lemma_byte_offset_step(chars@, i as int);
                lemma_byte_offset_monotonic(chars@, i as int + 1, chars@.len() as int);
                lemma_byte_offset_monotonic(chars@, 0, i as int + 1);
                assert(chars@.take(chars@.len() as int) =~= chars@);
            }
            byte = byte + char_utf8_len(chars[i]);
            unit = unit + char_utf16_len(chars[i]);
            bytes.push(byte);
            units.push(unit);
            i = i + 1;
        }
        Offsets { chars, bytes, units }
    }

    /// Number of code points that begin before byte offset `b`.
    pub fn chars_before(&self, b: usize) -> (k: usize)
        requires
            self.wf(),
        ensures
            k == chars_before(self.chars@, b as int),
            k <= self.chars@.len(),
    {
        let mut k: usize = 0;
        while k < self.chars.len() && self.bytes[k] < b
            invariant
                self.wf(),
                0 <= k <= self.chars@.len(),
                forall|i: int| 0 <= i < k ==> #[trigger] byte_offset(self.chars@, i) < b,
            decreases self.chars@.len() - k,
        {
            k = k + 1;
        }
        proof {
            lemma_chars_before_is(self.chars@, b as int, k as int);
        }
        k
    }
}

/// [`chars_before`] is the index at which the byte offsets reach `b`.
pub proof fn lemma_chars_before_is(s: Seq<char>, b: int, k: int)
    requires
        0 <= k <= s.len(),
        forall|i: int| 0 <= i < k ==> #[trigger] byte_offset(s, i) < b,
        k < s.len() ==> byte_offset(s, k) >= b,
    ensures
        chars_before(s, b) == k,
    decreases s.len(),
{
    if s.len() > 0 {
        let shorter = s.drop_last();
        let last = s.len() - 1;
        assert(s.take(last) =~= shorter);
        if utf8_len(shorter) < b {
            if k < s.len() {
                lemma_byte_offset_monotonic(s, k, last);
            }
        } else {
            assert(byte_offset(s, last) >= b);
            assert(k <= last);
            assert forall|i: int| 0 <= i <= last implies byte_offset(shorter, i) == byte_offset(
                s,
                i,
            ) by {
                assert(shorter.take(i) =~= s.take(i));
            }
            lemma_chars_before_is(shorter, b, k);
        }
    }
}

/// Whether byte offset `b` is a boundary of `s`: a code point of `s` begins
/// there, or `s` ends there.
pub open spec fn on_boundary(s: Seq<char>, b: int) -> bool {
    byte_offset(s, chars_before(s, b)) == b
}

/// [`chars_before`] is an index of `s`, or its length.
pub proof fn lemma_chars_before_bounds(s: Seq<char>, b: int)
    ensures
        0 <= chars_before(s, b) <= s.len(),
    decreases s.len(),
{
    if s.len() > 0 && utf8_len(s.drop_last()) >= b {
        lemma_chars_before_bounds(s.drop_last(), b);
    }
}

/// Before the offset at which a code point begins, exactly the earlier code
/// points begin: the offset is a boundary.
pub proof fn lemma_chars_before_offset(s: Seq<char>, i: int)
    requires
        0 <= i <= s.len(),
    ensures
        chars_before(s, byte_offset(s, i) as int) == i,
        on_boundary(s, byte_offset(s, i) as int),
{
    assert forall|k: int| 0 <= k < i implies #[trigger] byte_offset(s, k) < byte_offset(s, i) by {
        lemma_byte_offset_monotonic(s, k, i);
    }
    lemma_chars_before_is(s, byte_offset(s, i) as int, i);
}

/// A boundary of a piece of a text is a boundary of the text, once it is
/// counted from the start of the text.
pub proof fn lemma_boundary_of_piece(s: Seq<char>, from: int, to: int, b: int)
    requires
        0 <= from <= to <= s.len(),
        on_boundary(s.subrange(from, to), b),
    ensures
        on_boundary(s, byte_offset(s, from) + b),
{
    let piece = s.subrange(from, to);
    let i = chars_before(piece, b);
    lemma_chars_before_bounds(piece, b);
    assert(piece.take(i) =~= s.subrange(from, from + i));
    lemma_subrange_len(s, from, from + i);
    lemma_chars_before_offset(s, from + i);
}

} // verus!
