use vstd::prelude::*;

verus! {

use vstd::utf8::encode_utf8;
use vstd::utf8::encode_scalar;
use vstd::utf8::is_scalar;
use vstd::utf8::has_width_1_encoding;
use vstd::utf8::leading_byte_width_1;
use vstd::utf8::leading_byte_width_2;
use vstd::utf8::leading_byte_width_3;
use vstd::utf8::leading_byte_width_4;
use vstd::utf8::last_continuation_byte;
use vstd::utf8::second_last_continuation_byte;
use vstd::utf8::third_last_continuation_byte;
use vstd::utf8::char_is_scalar;
use vstd::utf8::char_u32_cast;

pub const SPACE: u8 = 32;
pub const BANG: u8 = 33;
pub const PLUS: u8 = 43;
pub const COLON: u8 = 58;
pub const AT: u8 = 64;
pub const CR: u8 = 13;
pub const LF: u8 = 10;
pub const DIGIT_ZERO: u8 = 48;
pub const DIGIT_NINE: u8 = 57;

/// The index of the first occurrence of `b` in `s` at or after `from`, or
/// `s.len()` when there is none.
pub open spec fn first_at(s: Seq<u8>, from: int, b: u8) -> int
    decreases s.len() - from,
{
    if from < 0 || from >= s.len() {
        s.len() as int
    } else if s[from] == b {
        from
    } else {
        first_at(s, from + 1, b)
    }
}

/// The index of the first byte other than a space in `s` at or after `from`,
/// or `s.len()` when spaces run to the end.
pub open spec fn first_non_space(s: Seq<u8>, from: int) -> int
    decreases s.len() - from,
{
    if from < 0 || from >= s.len() {
        s.len() as int
    } else if s[from] != SPACE {
        from
    } else {
        first_non_space(s, from + 1)
    }
}

/// The index of the first CR-LF byte pair in `s` at or after `from`, or
/// `s.len()` when there is none.
pub open spec fn first_crlf(s: Seq<u8>, from: int) -> int
    decreases s.len() - from,
{
    if from < 0 || from + 1 >= s.len() {
        s.len() as int
    } else if s[from] == CR && s[from + 1] == LF {
        from
    } else {
        first_crlf(s, from + 1)
    }
}

pub proof fn first_at_props(s: Seq<u8>, from: int, b: u8)
    requires
        0 <= from <= s.len(),
    ensures
        from <= first_at(s, from, b) <= s.len(),
        first_at(s, from, b) < s.len() ==> s[first_at(s, from, b)] == b,
        forall|k: int| from <= k < first_at(s, from, b) ==> s[k] != b,
    decreases s.len() - from,
{
    if from < s.len() && s[from] != b {
        first_at_props(s, from + 1, b);
    }
}

pub proof fn first_non_space_props(s: Seq<u8>, from: int)
    requires
        0 <= from <= s.len(),
    ensures
        from <= first_non_space(s, from) <= s.len(),
        first_non_space(s, from) < s.len() ==> s[first_non_space(s, from)] != SPACE,
        forall|k: int| from <= k < first_non_space(s, from) ==> s[k] == SPACE,
    decreases s.len() - from,
{
    if from < s.len() && s[from] == SPACE {
        first_non_space_props(s, from + 1);
    }
}

pub proof fn first_crlf_props(s: Seq<u8>, from: int)
    requires
        0 <= from <= s.len(),
    ensures
        from <= first_crlf(s, from) <= s.len(),
        first_crlf(s, from) + 1 < s.len() ==> s[first_crlf(s, from)] == CR && s[first_crlf(
            s,
            from,
        ) + 1] == LF,
        first_crlf(s, from) < s.len() ==> first_crlf(s, from) + 1 < s.len(),
        forall|k: int|
            from <= k < first_crlf(s, from) && k + 1 < s.len() ==> !(#[trigger] s[k] == CR && s[k
                + 1] == LF),
    decreases s.len() - from,
{
    if from + 1 < s.len() && !(s[from] == CR && s[from + 1] == LF) {
        first_crlf_props(s, from + 1);
    }
}

/// Pins the first occurrence of `b` down to a witness index.
pub proof fn first_at_is(s: Seq<u8>, from: int, b: u8, w: int)
    requires
        0 <= from <= w < s.len(),
        s[w] == b,
        forall|k: int| from <= k < w ==> s[k] != b,
    ensures
        first_at(s, from, b) == w,
{
    first_at_props(s, from, b);
}

/// With no occurrence of `b` at or after `from`, the search runs to the end.
pub proof fn first_at_none(s: Seq<u8>, from: int, b: u8)
    requires
        0 <= from <= s.len(),
        forall|k: int| from <= k < s.len() ==> s[k] != b,
    ensures
        first_at(s, from, b) == s.len(),
{
    first_at_props(s, from, b);
}

/// Pins the first non-space byte down to a witness index.
pub proof fn first_non_space_is(s: Seq<u8>, from: int, w: int)
    requires
        0 <= from <= w < s.len(),
        s[w] != SPACE,
        forall|k: int| from <= k < w ==> s[k] == SPACE,
    ensures
        first_non_space(s, from) == w,
{
    first_non_space_props(s, from);
}

/// Pins the first CR-LF pair down to a witness index, given that no CR at
/// all occurs before it.
pub proof fn first_crlf_is(s: Seq<u8>, w: int)
    requires
        0 <= w,
        w + 1 < s.len(),
        s[w] == CR,
        s[w + 1] == LF,
        forall|k: int| 0 <= k < w ==> s[k] != CR,
    ensures
        first_crlf(s, 0) == w,
{
    first_crlf_props(s, 0);
    let fc = first_crlf(s, 0);
    if fc < w {
        assert(s[fc] == CR);
    }
}

/// Holds when the byte `b` does not occur in `s`.
pub open spec fn byte_free(s: Seq<u8>, b: u8) -> bool {
    forall|i: int| 0 <= i < s.len() ==> s[i] != b
}

/// A message as the grammar recovers it from a candidate frame: raw byte
/// spans, before any decoding to text.
pub struct RawMessage {
    pub prefix: Option<RawPrefix>,
    pub command: Seq<u8>,
    pub params: Seq<Seq<u8>>,
    pub last: Option<Seq<u8>>,
}

/// The byte spans of a recovered origin prefix.
pub enum RawPrefix {
    Server(Seq<u8>),
    User(Seq<u8>, Seq<u8>, Seq<u8>),
}

/// Scans the optional prefix of the candidate content `c`. Returns the
/// recovered prefix, if any, together with the index where the command
/// starts.
///
/// A leading colon introduces a prefix. The user form takes the bytes up to
/// the first `!` as the nickname, up to the first `@` after that as the user,
/// and up to the first space after that as the server; it applies only when
/// all three parts are nonempty and a command follows the separating spaces.
/// Otherwise the server form takes the bytes up to the first space. When
/// neither form applies the message has no prefix and the command starts at
/// the first byte, colon included.
pub open spec fn scan_prefix(c: Seq<u8>) -> (Option<RawPrefix>, int) {
    if c.len() == 0 || c[0] != COLON {
        (None, 0)
    } else {
        let i = first_at(c, 1, BANG);
        let j = first_at(c, i + 1, AT);
        let k = first_at(c, j + 1, SPACE);
        let p = first_non_space(c, k);
        if i < c.len() && i > 1 && j < c.len() && j > i + 1 && k < c.len() && k > j + 1 && p
            < c.len() {
            (
                Some(
                    RawPrefix::User(c.subrange(1, i), c.subrange(i + 1, j), c.subrange(j + 1, k)),
                ),
                p,
            )
        } else {
            let q = first_at(c, 1, SPACE);
            let p2 = first_non_space(c, q);
            if q < c.len() && q > 1 && p2 < c.len() {
                (Some(RawPrefix::Server(c.subrange(1, q))), p2)
            } else {
                (None, 0)
            }
        }
    }
}

/// Collects middle-parameter tokens greedily from `pos`, having already taken
/// `count` of them. A token runs from the first non-space byte to the next
/// space. Collection stops at the fourteenth token, at a token that starts
/// with a colon, or when only spaces remain. Returns the tokens together with
/// the index just past the last one taken.
pub open spec fn scan_params(c: Seq<u8>, pos: int, count: int) -> (Seq<Seq<u8>>, int)
    decreases 14 - count,
{
    if count >= 14 {
        (seq![], pos)
    } else {
        let t = first_non_space(c, pos);
        if t >= c.len() || c[t] == COLON {
            (seq![], pos)
        } else {
            let e = first_at(c, t, SPACE);
            let (rest, fin) = scan_params(c, e, count + 1);
            (seq![c.subrange(t, e)] + rest, fin)
        }
    }
}

/// Scans the optional trailing parameter from `pos`, the index just past the
/// middle parameters. `None` means the grammar rejects the frame: the
/// trailing parameter may not contain CR or LF. `Some(None)` means there is
/// no trailing parameter; `Some(Some(l))` gives its bytes, after the
/// separating spaces and one optional marking colon.
pub open spec fn scan_trailing(c: Seq<u8>, pos: int) -> Option<Option<Seq<u8>>> {
    if pos >= c.len() {
        Some(None)
    } else {
        let sp_end = first_non_space(c, pos);
        if sp_end >= c.len() {
            Some(Some(seq![]))
        } else {
            let q = if c[sp_end] == COLON {
                sp_end + 1
            } else {
                sp_end
            };
            let l = c.subrange(q, c.len() as int);
            if byte_free(l, CR) && byte_free(l, LF) {
                Some(Some(l))
            } else {
                None
            }
        }
    }
}

/// Matches the candidate content `c` (the bytes before the terminating CRLF)
/// against the message grammar. `None` means the grammar rejects the frame.
pub open spec fn scan_message(c: Seq<u8>) -> Option<RawMessage> {
    let (pfx, pos) = scan_prefix(c);
    if pos >= c.len() || c[pos] == SPACE {
        None
    } else {
        let e = first_at(c, pos, SPACE);
        let cmd = c.subrange(pos, e);
        let (ps, pend) = scan_params(c, e, 0);
        match scan_trailing(c, pend) {
            None => None,
            Some(lastopt) => Some(RawMessage { prefix: pfx, command: cmd, params: ps, last: lastopt }),
        }
    }
}

/// The numeric value of a run of decimal digit bytes.
pub open spec fn digits_value(d: Seq<u8>) -> int
    decreases d.len(),
{
    if d.len() == 0 {
        0
    } else {
        digits_value(d.drop_last()) * 10 + (d.last() - DIGIT_ZERO)
    }
}

/// Holds when every byte of `d` is a decimal digit.
pub open spec fn all_digits(d: Seq<u8>) -> bool {
    forall|i: int| 0 <= i < d.len() ==> DIGIT_ZERO <= #[trigger] d[i] <= DIGIT_NINE
}

/// The numeric reply code a command token denotes, if any: after an optional
/// leading plus sign, one or more decimal digits whose value fits in sixteen
/// bits. Any other token is a general command.
pub open spec fn numeric_of(t: Seq<u8>) -> Option<u16> {
    let d = if t.len() > 0 && t[0] == PLUS {
        t.drop_first()
    } else {
        t
    };
    if d.len() > 0 && all_digits(d) && digits_value(d) <= 65535 {
        Some(digits_value(d) as u16)
    } else {
        None
    }
}

pub proof fn digits_value_nonneg(d: Seq<u8>)
    requires
        all_digits(d),
    ensures
        digits_value(d) >= 0,
    decreases d.len(),
{
    if d.len() > 0 {
        assert(all_digits(d.drop_last()));
        digits_value_nonneg(d.drop_last());
    }
}

pub proof fn digits_value_prefix_le(d: Seq<u8>, k: int)
    requires
        all_digits(d),
        0 <= k <= d.len(),
    ensures
        digits_value(d.take(k)) <= digits_value(d),
    decreases d.len() - k,
{
    if k < d.len() {
        digits_value_prefix_le(d, k + 1);
        assert(d.take(k + 1).drop_last() =~= d.take(k));
        assert(d.take(k + 1).last() == d[k]);
        assert(all_digits(d.take(k)));
        digits_value_nonneg(d.take(k));
        assert(digits_value(d.take(k + 1)) == digits_value(d.take(k)) * 10 + (d[k] - DIGIT_ZERO));
        assert(digits_value(d.take(k)) * 10 >= digits_value(d.take(k))) by (nonlinear_arith)
            requires
                digits_value(d.take(k)) >= 0,
        ;
    } else {
        assert(d.take(k) =~= d);
    }
}

/// Every byte of the UTF-8 encoding of a scalar at or above 0x80 has its
/// high bit set.
pub proof fn encode_scalar_high(c: u32)
    requires
        is_scalar(c),
        c >= 0x80,
    ensures
        forall|k: int|
            0 <= k < encode_scalar(c).len() ==> #[trigger] encode_scalar(c)[k] >= 0x80,
{
    assert(leading_byte_width_2(c) >= 0x80) by (bit_vector);
    assert(leading_byte_width_3(c) >= 0x80) by (bit_vector);
    assert(leading_byte_width_4(c) >= 0x80) by (bit_vector);
    assert(last_continuation_byte(c) >= 0x80) by (bit_vector);
    assert(second_last_continuation_byte(c) >= 0x80) by (bit_vector);
    assert(third_last_continuation_byte(c) >= 0x80) by (bit_vector);
}

/// The UTF-8 encoding of a scalar below 0x80 is that single byte.
pub proof fn encode_scalar_ascii(c: u32)
    requires
        c < 0x80,
    ensures
        encode_scalar(c) =~= seq![c as u8],
{
    assert(has_width_1_encoding(c));
    assert(leading_byte_width_1(c) == c as u8) by (bit_vector)
        requires
            c < 0x80,
    ;
}

/// A byte below 0x80 occurs in the UTF-8 encoding of `s` exactly where the
/// corresponding character occurs in `s`: multi-byte encodings consist of
/// bytes with the high bit set, so they can neither produce nor hide an
/// ASCII byte.
pub proof fn encode_ascii_occurrence(s: Seq<char>, b: u8)
    requires
        b < 0x80,
    ensures
        (exists|j: int| 0 <= j < encode_utf8(s).len() && encode_utf8(s)[j] == b) <==> (exists|
            i: int,
        | 0 <= i < s.len() && s[i] as u32 == b as u32),
    decreases s.len(),
{
    if s.len() == 0 {
    } else {
        let c = s[0] as u32;
        char_is_scalar(s[0]);
        encode_ascii_occurrence(s.drop_first(), b);
        assert(encode_utf8(s) == encode_scalar(c) + encode_utf8(s.drop_first()));
        if c < 0x80 {
            encode_scalar_ascii(c);
        } else {
            encode_scalar_high(c);
        }
        if exists|i: int| 0 <= i < s.len() && s[i] as u32 == b as u32 {
            let i = choose|i: int| 0 <= i < s.len() && s[i] as u32 == b as u32;
            if i == 0 {
                assert(encode_utf8(s)[0] == b);
            } else {
                assert(s.drop_first()[i - 1] as u32 == b as u32);
                let j = choose|j: int|
                    0 <= j < encode_utf8(s.drop_first()).len() && encode_utf8(s.drop_first())[j]
                        == b;
                assert(encode_utf8(s)[encode_scalar(c).len() + j] == b);
            }
        }
        if exists|j: int| 0 <= j < encode_utf8(s).len() && encode_utf8(s)[j] == b {
            let j = choose|j: int| 0 <= j < encode_utf8(s).len() && encode_utf8(s)[j] == b;
            if j < encode_scalar(c).len() {
                assert(c < 0x80);
                assert(s[0] as u32 == b as u32);
            } else {
                assert(encode_utf8(s.drop_first())[j - encode_scalar(c).len()] == b);
            }
        }
    }
}

/// Restates the occurrence lemma as byte freedom: a character sequence that
/// avoids an ASCII character encodes to bytes that avoid the matching byte.
pub proof fn encode_ascii_free(s: Seq<char>, b: u8)
    requires
        b < 0x80,
        forall|i: int| 0 <= i < s.len() ==> #[trigger] (s[i] as u32) != b as u32,
    ensures
        byte_free(encode_utf8(s), b),
{
    encode_ascii_occurrence(s, b);
    assert forall|j: int| 0 <= j < encode_utf8(s).len() implies encode_utf8(s)[j] != b by {
        if encode_utf8(s)[j] == b {
            let i = choose|i: int| 0 <= i < s.len() && s[i] as u32 == b as u32;
            assert(s[i] as u32 != b as u32);
        }
    }
}

/// The encoding of a nonempty character sequence is nonempty, and its first
/// byte is the first character when that character is ASCII, or a byte with
/// the high bit set otherwise.
pub proof fn encode_first_byte(s: Seq<char>)
    requires
        s.len() > 0,
    ensures
        encode_utf8(s).len() > 0,
        (s[0] as u32) < 0x80 ==> encode_utf8(s)[0] == (s[0] as u32) as u8,
        (s[0] as u32) >= 0x80 ==> encode_utf8(s)[0] >= 0x80,
{
    let c = s[0] as u32;
    char_is_scalar(s[0]);
    assert(encode_utf8(s) == encode_scalar(c) + encode_utf8(s.drop_first()));
    if c < 0x80 {
        encode_scalar_ascii(c);
    } else {
        encode_scalar_high(c);
        assert(encode_scalar(c).len() > 0);
        assert(encode_utf8(s)[0] == encode_scalar(c)[0]);
    }
}

/// The encoding of a character sequence is empty exactly when the sequence is.
pub proof fn encode_empty_iff(s: Seq<char>)
    ensures
        encode_utf8(s).len() == 0 <==> s.len() == 0,
{
    if s.len() > 0 {
        encode_first_byte(s);
    }
}

} // verus!
