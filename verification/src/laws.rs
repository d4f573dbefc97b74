use vstd::prelude::*;

verus! {

broadcast use vstd::seq::group_seq_axioms;

use vstd::utf8::encode_utf8;
use vstd::utf8::valid_utf8;
use vstd::utf8::encode_utf8_valid_utf8;
use vstd::utf8::encode_utf8_decode_utf8;
use vstd::utf8::char_u32_cast;
use crate::message::Command;
use crate::message::Error;
use crate::message::Message;
use crate::message::Prefix;
use crate::message::sp_free;
use crate::message::valid_message;
use crate::message::wire_len;
use crate::codec::lossy_decode;
use crate::codec::render_message;
use crate::codec::render_prefix;
use crate::codec::render_command;
use crate::codec::render_params;
use crate::codec::render_params_seq;
use crate::codec::render_last;
use crate::codec::render_digits;
use crate::codec::digit_byte;
use crate::codec::msg_matches_raw;
use crate::codec::parse_result_matches;
use crate::wire::SPACE;
use crate::wire::BANG;
use crate::wire::COLON;
use crate::wire::AT;
use crate::wire::CR;
use crate::wire::LF;
use crate::wire::DIGIT_ZERO;
use crate::wire::byte_free;
use crate::wire::first_at;
use crate::wire::first_crlf;
use crate::wire::first_crlf_props;
use crate::wire::first_at_is;
use crate::wire::first_at_none;
use crate::wire::first_non_space_is;
use crate::wire::first_crlf_is;
use crate::wire::encode_ascii_free;
use crate::wire::encode_first_byte;
use crate::wire::encode_empty_iff;
use crate::wire::scan_prefix;
use crate::wire::scan_params;
use crate::wire::scan_trailing;
use crate::wire::scan_message;
use crate::wire::RawMessage;
use crate::wire::RawPrefix;
use crate::wire::numeric_of;
use crate::wire::digits_value;
use crate::wire::all_digits;

/// Holds when the character `c` does not occur in `s`.
pub open spec fn char_free(s: Seq<char>, c: char) -> bool {
    forall|i: int| 0 <= i < s.len() ==> s[i] != c
}

/// A character sequence that avoids an ASCII character encodes to bytes
/// that avoid the matching byte.
pub proof fn char_free_byte_free(s: Seq<char>, c: char, b: u8)
    requires
        b < 0x80,
        c as u32 == b as u32,
        char_free(s, c),
    ensures
        byte_free(encode_utf8(s), b),
{
    assert forall|i: int| 0 <= i < s.len() implies #[trigger] (s[i] as u32) != b as u32 by {
        if s[i] as u32 == b as u32 {
            char_u32_cast(s[i], s[i] as u32);
            char_u32_cast(c, c as u32);
        }
    }
    encode_ascii_free(s, b);
}

/// A space-and-line-break-free field encodes to bytes free of the space,
/// CR, and LF bytes.
pub proof fn sp_free_bytes(s: Seq<char>)
    requires
        sp_free(s),
    ensures
        byte_free(encode_utf8(s), SPACE),
        byte_free(encode_utf8(s), CR),
        byte_free(encode_utf8(s), LF),
{
    char_free_byte_free(s, ' ', SPACE);
    char_free_byte_free(s, '\r', CR);
    char_free_byte_free(s, '\n', LF);
}

/// Freedom from a byte distributes over concatenation.
pub proof fn byte_free_concat(a: Seq<u8>, b: Seq<u8>, x: u8)
    requires
        byte_free(a, x),
        byte_free(b, x),
    ensures
        byte_free(a + b, x),
{
    assert forall|i: int| 0 <= i < (a + b).len() implies (a + b)[i] != x by {
        if i < a.len() {
            assert((a + b)[i] == a[i]);
        } else {
            assert((a + b)[i] == b[i - a.len()]);
        }
    }
}

/// Every byte of a numeric rendering is a decimal digit.
pub proof fn render_digits_bytes(n: u16)
    ensures
        forall|j: int|
            0 <= j < render_digits(n).len() ==> DIGIT_ZERO <= #[trigger] render_digits(n)[j]
                <= DIGIT_ZERO + 9,
{
    if n < 10 {
    } else if n < 100 {
        assert(n / 10 <= 9 && n % 10 <= 9) by (nonlinear_arith)
            requires
                10 <= n < 100,
        ;
    } else if n < 1000 {
        assert(n / 100 <= 9 && (n / 10) % 10 <= 9 && n % 10 <= 9) by (nonlinear_arith)
            requires
                100 <= n < 1000,
        ;
    } else if n < 10000 {
        assert(n / 1000 <= 9 && (n / 100) % 10 <= 9 && (n / 10) % 10 <= 9 && n % 10 <= 9)
            by (nonlinear_arith)
            requires
                1000 <= n < 10000,
        ;
    } else {
        assert(n / 10000 <= 9 && (n / 1000) % 10 <= 9 && (n / 100) % 10 <= 9 && (n / 10) % 10 <= 9
            && n % 10 <= 9) by (nonlinear_arith)
            requires
                10000 <= n <= 65535,
        ;
    }
}

/// The digit bytes of a numeric rendering avoid every grammar delimiter.
pub proof fn render_digits_free(n: u16)
    ensures
        byte_free(render_digits(n), SPACE),
        byte_free(render_digits(n), CR),
        byte_free(render_digits(n), LF),
        byte_free(render_digits(n), BANG),
        byte_free(render_digits(n), COLON),
        byte_free(render_digits(n), AT),
{
    render_digits_bytes(n);
}

/// The UTF-8 encoding of a field decodes back to exactly that field.
pub proof fn enc_decodes(s: Seq<char>)
    ensures
        valid_utf8(encode_utf8(s)),
        lossy_decode(encode_utf8(s)) == s,
{
    encode_utf8_valid_utf8(s);
    encode_utf8_decode_utf8(s);
}

/// The first byte of the encoding of a nonempty field differs from an
/// ASCII byte whenever the field's first character does.
pub proof fn enc_first_not(s: Seq<char>, c0: char, b: u8)
    requires
        s.len() > 0,
        b < 0x80,
        c0 as u32 == b as u32,
        s[0] != c0,
    ensures
        encode_utf8(s).len() > 0,
        encode_utf8(s)[0] != b,
{
    encode_first_byte(s);
    if (s[0] as u32) < 0x80 {
        if encode_utf8(s)[0] == b {
            char_u32_cast(s[0], s[0] as u32);
            char_u32_cast(c0, c0 as u32);
        }
    }
}

/// The parameter rendering, read from the front: one space, the first
/// parameter, then the rendering of the rest.
pub proof fn render_params_seq_front(ps: Seq<String>)
    requires
        ps.len() > 0,
    ensures
        render_params_seq(ps) =~= seq![SPACE] + encode_utf8(ps[0]@) + render_params_seq(
            ps.drop_first(),
        ),
    decreases ps.len(),
{
    if ps.len() == 1 {
        assert(ps.drop_last() =~= Seq::<String>::empty());
        assert(ps.drop_first() =~= Seq::<String>::empty());
        assert(ps.last() == ps[0]);
    } else {
        render_params_seq_front(ps.drop_last());
        assert(ps.drop_last().drop_first() =~= ps.drop_first().drop_last());
        assert(ps.drop_first().last() == ps.last());
        assert(ps.drop_last()[0] == ps[0]);
        assert(render_params_seq(ps.drop_first()) == render_params_seq(
            ps.drop_first().drop_last(),
        ) + seq![SPACE] + encode_utf8(ps.drop_first().last()@));
    }
}

/// The byte spans the grammar recovers for the middle parameters: the
/// encoding of each.
pub open spec fn enc_params(ps: Seq<String>) -> Seq<Seq<u8>> {
    Seq::new(ps.len(), |i: int| encode_utf8(ps[i]@))
}

pub proof fn digits_value3(a: u8, b: u8, c0: u8)
    ensures
        digits_value(seq![a, b, c0]) == ((a - DIGIT_ZERO) * 10 + (b - DIGIT_ZERO)) * 10 + (c0
            - DIGIT_ZERO),
{
    assert(seq![a, b, c0].drop_last() =~= seq![a, b]);
    assert(seq![a, b].drop_last() =~= seq![a]);
    assert(seq![a].drop_last() =~= Seq::<u8>::empty());
    assert(digits_value(Seq::<u8>::empty()) == 0);
    assert(digits_value(seq![a]) == a - DIGIT_ZERO);
    assert(digits_value(seq![a, b]) == (a - DIGIT_ZERO) * 10 + (b - DIGIT_ZERO));
}

pub proof fn digits_value4(a: u8, b: u8, c0: u8, d: u8)
    ensures
        digits_value(seq![a, b, c0, d]) == (((a - DIGIT_ZERO) * 10 + (b - DIGIT_ZERO)) * 10 + (c0
            - DIGIT_ZERO)) * 10 + (d - DIGIT_ZERO),
{
    assert(seq![a, b, c0, d].drop_last() =~= seq![a, b, c0]);
    digits_value3(a, b, c0);
}

pub proof fn digits_value5(a: u8, b: u8, c0: u8, d: u8, e: u8)
    ensures
        digits_value(seq![a, b, c0, d, e]) == ((((a - DIGIT_ZERO) * 10 + (b - DIGIT_ZERO)) * 10 + (
        c0 - DIGIT_ZERO)) * 10 + (d - DIGIT_ZERO)) * 10 + (e - DIGIT_ZERO),
{
    assert(seq![a, b, c0, d, e].drop_last() =~= seq![a, b, c0, d]);
    digits_value4(a, b, c0, d);
}

/// A numeric rendering is read back as exactly the code it renders: the
/// decimal digits recompose to the code itself.
pub proof fn digits_round_trip(n: u16)
    ensures
        numeric_of(render_digits(n)) == Some(n),
{
    render_digits_bytes(n);
    let d = render_digits(n);
    assert(d[0] != crate::wire::PLUS);
    assert(all_digits(d));
    let ni = n as int;
    if n < 10 {
        digits_value3(DIGIT_ZERO, DIGIT_ZERO, digit_byte(ni));
    } else if n < 100 {
        digits_value3(DIGIT_ZERO, digit_byte(ni / 10), digit_byte(ni % 10));
        assert((ni / 10) * 10 + ni % 10 == ni) by (nonlinear_arith)
            requires
                10 <= ni < 100,
        ;
    } else if n < 1000 {
        digits_value3(digit_byte(ni / 100), digit_byte((ni / 10) % 10), digit_byte(ni % 10));
        assert(((ni / 100) * 10 + (ni / 10) % 10) * 10 + ni % 10 == ni) by (nonlinear_arith)
            requires
                100 <= ni < 1000,
        ;
    } else if n < 10000 {
        digits_value4(
            digit_byte(ni / 1000),
            digit_byte((ni / 100) % 10),
            digit_byte((ni / 10) % 10),
            digit_byte(ni % 10),
        );
        assert((((ni / 1000) * 10 + (ni / 100) % 10) * 10 + (ni / 10) % 10) * 10 + ni % 10 == ni)
            by (nonlinear_arith)
            requires
                1000 <= ni < 10000,
        ;
    } else {
        digits_value5(
            digit_byte(ni / 10000),
            digit_byte((ni / 1000) % 10),
            digit_byte((ni / 100) % 10),
            digit_byte((ni / 10) % 10),
            digit_byte(ni % 10),
        );
        assert(((((ni / 10000) * 10 + (ni / 1000) % 10) * 10 + (ni / 100) % 10) * 10 + (ni / 10)
            % 10) * 10 + ni % 10 == ni) by (nonlinear_arith)
            requires
                10000 <= ni <= 65535,
        ;
    }
}

/// A content that does not open with a colon has no prefix.
pub proof fn scan_prefix_none_case(c: Seq<u8>)
    requires
        c.len() > 0,
        c[0] != COLON,
    ensures
        scan_prefix(c) == (None::<RawPrefix>, 0int),
{
}

/// On the rendering of a user prefix, the grammar recovers exactly the
/// three encoded components, and the command starts right after the
/// separating space.
pub proof fn scan_prefix_user_case(c: Seq<u8>, nick: Seq<char>, user: Seq<char>, server: Seq<char>, t: Seq<u8>)
    requires
        c =~= seq![COLON] + encode_utf8(nick) + seq![BANG] + encode_utf8(user) + seq![AT]
            + encode_utf8(server) + seq![SPACE] + t,
        nick.len() > 0,
        user.len() > 0,
        server.len() > 0,
        char_free(nick, '!'),
        char_free(user, '@'),
        sp_free(server),
        t.len() > 0,
        t[0] != SPACE,
    ensures
        scan_prefix(c) == (
            Some(RawPrefix::User(encode_utf8(nick), encode_utf8(user), encode_utf8(server))),
            c.len() - t.len(),
        ),
{
    let en = encode_utf8(nick);
    let eu = encode_utf8(user);
    let es = encode_utf8(server);
    encode_empty_iff(nick);
    encode_empty_iff(user);
    encode_empty_iff(server);
    let i = 1 + en.len() as int;
    let j = i + 1 + eu.len() as int;
    let k = j + 1 + es.len() as int;
    let p = k + 1;
    char_free_byte_free(nick, '!', BANG);
    char_free_byte_free(user, '@', AT);
    sp_free_bytes(server);
    assert(c[0] == COLON);
    assert(c[i] == BANG);
    assert(c[j] == AT);
    assert(c[k] == SPACE);
    assert(c[p] == t[0]);
    assert forall|idx: int| 1 <= idx < i implies c[idx] != BANG by {
        assert(c[idx] == en[idx - 1]);
    }
    first_at_is(c, 1, BANG, i);
    assert forall|idx: int| i + 1 <= idx < j implies c[idx] != AT by {
        assert(c[idx] == eu[idx - (i + 1)]);
    }
    first_at_is(c, i + 1, AT, j);
    assert forall|idx: int| j + 1 <= idx < k implies c[idx] != SPACE by {
        assert(c[idx] == es[idx - (j + 1)]);
    }
    first_at_is(c, j + 1, SPACE, k);
    first_non_space_is(c, k, p);
    assert(c.subrange(1, i) =~= en);
    assert(c.subrange(i + 1, j) =~= eu);
    assert(c.subrange(j + 1, k) =~= es);
}

/// On the rendering of a server prefix whose remainder holds no `!` at
/// all, the user form cannot apply, and the grammar recovers the encoded
/// name with the command starting right after the separating space.
pub proof fn scan_prefix_server_case(c: Seq<u8>, name: Seq<char>, t: Seq<u8>)
    requires
        c =~= seq![COLON] + encode_utf8(name) + seq![SPACE] + t,
        name.len() > 0,
        sp_free(name),
        char_free(name, '!'),
        byte_free(t, BANG),
        t.len() > 0,
        t[0] != SPACE,
    ensures
        scan_prefix(c) == (Some(RawPrefix::Server(encode_utf8(name))), c.len() - t.len()),
{
    let en = encode_utf8(name);
    encode_empty_iff(name);
    let q = 1 + en.len() as int;
    let p = q + 1;
    char_free_byte_free(name, '!', BANG);
    sp_free_bytes(name);
    assert(c[0] == COLON);
    assert(c[q] == SPACE);
    assert(c[p] == t[0]);
    assert forall|idx: int| 1 <= idx < c.len() implies c[idx] != BANG by {
        if idx < q {
            assert(c[idx] == en[idx - 1]);
        } else if idx == q {
        } else {
            assert(c[idx] == t[idx - (q + 1)]);
        }
    }
    first_at_none(c, 1, BANG);
    assert forall|idx: int| 1 <= idx < q implies c[idx] != SPACE by {
        assert(c[idx] == en[idx - 1]);
    }
    first_at_is(c, 1, SPACE, q);
    first_non_space_is(c, q, p);
    assert(c.subrange(1, q) =~= en);
}

/// The command token runs from its start to the next space, or to the end
/// of the content when nothing follows.
pub proof fn scan_command_token(c: Seq<u8>, pos: int, ec: Seq<u8>, rest: Seq<u8>)
    requires
        0 <= pos <= c.len(),
        c.subrange(pos, c.len() as int) =~= ec + rest,
        ec.len() > 0,
        byte_free(ec, SPACE),
        rest.len() > 0 ==> rest[0] == SPACE,
    ensures
        first_at(c, pos, SPACE) == pos + ec.len(),
        c.subrange(pos, pos + ec.len() as int) =~= ec,
{
    let w = pos + ec.len() as int;
    assert(c.subrange(pos, c.len() as int).len() == c.len() - pos);
    assert(ec.len() + rest.len() == c.len() - pos);
    assert forall|idx: int| pos <= idx < w implies c[idx] != SPACE by {
        assert(c[idx] == c.subrange(pos, c.len() as int)[idx - pos]);
        assert(c.subrange(pos, c.len() as int)[idx - pos] == ec[idx - pos]);
    }
    if rest.len() > 0 {
        assert(c[w] == c.subrange(pos, c.len() as int)[w - pos]);
        assert(c[w] == SPACE);
        first_at_is(c, pos, SPACE, w);
    } else {
        first_at_none(c, pos, SPACE);
    }
    assert forall|idx: int| 0 <= idx < ec.len() implies c.subrange(pos, w)[idx] == ec[idx] by {
        assert(c.subrange(pos, w)[idx] == c[pos + idx]);
        assert(c[pos + idx] == c.subrange(pos, c.len() as int)[idx]);
    }
}

/// On the rendering of the middle parameters, greedy token collection
/// recovers exactly the encoded parameters and stops right before the
/// trailing-parameter rendering.
pub proof fn scan_params_of_render(c: Seq<u8>, pos: int, ps: Seq<String>, count: int, tail: Seq<u8>)
    requires
        0 <= pos <= c.len(),
        0 <= count,
        count + ps.len() <= 14,
        c.subrange(pos, c.len() as int) =~= render_params_seq(ps) + tail,
        forall|i: int|
            0 <= i < ps.len() ==> sp_free((#[trigger] ps[i])@) && ps[i]@.len() > 0 && ps[i]@[0]
                != ':',
        tail.len() == 0 || (tail.len() >= 2 && tail[0] == SPACE && tail[1] == COLON),
    ensures
        scan_params(c, pos, count).0 =~= enc_params(ps),
        scan_params(c, pos, count).1 == c.len() - tail.len(),
    decreases ps.len(),
{
    crate::message::params_seq_wire_len_nonneg(ps);
    if ps.len() == 0 {
        assert(render_params_seq(ps) =~= Seq::<u8>::empty());
        assert(c.subrange(pos, c.len() as int) =~= tail);
        assert(pos == c.len() - tail.len());
        if count < 14 {
            if tail.len() == 0 {
                crate::wire::first_non_space_props(c, pos);
            } else {
                assert(c[pos] == tail[0]);
                assert(c[pos + 1] == tail[1]);
                first_non_space_is(c, pos, pos + 1);
            }
        }
        assert(scan_params(c, pos, count).0 =~= enc_params(ps));
    } else {
        let e0 = encode_utf8(ps[0]@);
        let rest_ps = ps.drop_first();
        render_params_seq_front(ps);
        encode_empty_iff(ps[0]@);
        sp_free_bytes(ps[0]@);
        let t = pos + 1;
        let e = t + e0.len() as int;
        // layout: c[pos] is the space, then e0, then the remainder
        let rem = render_params_seq(rest_ps) + tail;
        let sub = c.subrange(pos, c.len() as int);
        assert(sub =~= seq![SPACE] + e0 + rem);
        assert(c[pos] == sub[0]);
        assert(c[pos] == SPACE);
        enc_first_not(ps[0]@, ' ', SPACE);
        enc_first_not(ps[0]@, ':', COLON);
        assert(c[t] == sub[t - pos]);
        assert(c[t] == e0[0]);
        first_non_space_is(c, pos, t);
        assert(c[t] != COLON);
        assert forall|idx: int| t <= idx < e implies c[idx] != SPACE by {
            assert(c[idx] == sub[idx - pos]);
            assert(sub[idx - pos] == e0[idx - t]);
        }
        if rem.len() > 0 {
            if rest_ps.len() > 0 {
                render_params_seq_front(rest_ps);
                assert(rem[0] == SPACE);
            } else {
                assert(rem =~= tail);
                assert(rem[0] == SPACE);
            }
            assert(c[e] == sub[e - pos]);
            assert(c[e] == rem[0]);
            first_at_is(c, t, SPACE, e);
        } else {
            first_at_none(c, t, SPACE);
            assert(e == c.len());
        }
        assert forall|idx: int| 0 <= idx < e0.len() implies c.subrange(t, e)[idx] == e0[idx] by {
            assert(c.subrange(t, e)[idx] == c[t + idx]);
            assert(c[t + idx] == sub[t + idx - pos]);
        }
        assert(c.subrange(t, e) =~= e0);
        assert forall|idx: int| 0 <= idx < rem.len() implies c.subrange(e, c.len() as int)[idx]
            == rem[idx] by {
            assert(c.subrange(e, c.len() as int)[idx] == c[e + idx]);
            assert(c[e + idx] == sub[e + idx - pos]);
        }
        assert(c.subrange(e, c.len() as int) =~= rem);
        scan_params_of_render(c, e, rest_ps, count + 1, tail);
        assert(scan_params(c, pos, count).0 =~= seq![c.subrange(t, e)] + scan_params(
            c,
            e,
            count + 1,
        ).0);
        assert(enc_params(ps) =~= seq![e0] + enc_params(rest_ps));
        assert(scan_params(c, pos, count).0 =~= enc_params(ps));
        assert(scan_params(c, pos, count).1 == scan_params(c, e, count + 1).1);
    }
}

/// On the rendering of the trailing parameter, the grammar recovers
/// exactly its encoding, after the space and the marking colon.
pub proof fn scan_trailing_of_render(c: Seq<u8>, pos: int, lastp: Option<String>)
    requires
        0 <= pos <= c.len(),
        c.subrange(pos, c.len() as int) =~= render_last(lastp),
        match lastp {
            None => true,
            Some(l) => char_free(l@, '\r') && char_free(l@, '\n'),
        },
    ensures
        scan_trailing(c, pos) == Some(
            match lastp {
                None => None::<Seq<u8>>,
                Some(l) => Some(encode_utf8(l@)),
            },
        ),
{
    match lastp {
        None => {
            assert(render_last(lastp) =~= Seq::<u8>::empty());
            assert(pos == c.len());
        },
        Some(l) => {
            let el = encode_utf8(l@);
            let sub = c.subrange(pos, c.len() as int);
            assert(sub =~= seq![SPACE, COLON] + el);
            assert(c[pos] == sub[0]);
            assert(c[pos + 1] == sub[1]);
            assert(c[pos] == SPACE);
            assert(c[pos + 1] == COLON);
            first_non_space_is(c, pos, pos + 1);
            let q = pos + 2;
            assert forall|idx: int| 0 <= idx < el.len() implies c.subrange(q, c.len() as int)[idx]
                == el[idx] by {
                assert(c.subrange(q, c.len() as int)[idx] == c[q + idx]);
                assert(c[q + idx] == sub[q + idx - pos]);
            }
            assert(c.subrange(q, c.len() as int) =~= el);
            char_free_byte_free(l@, '\r', CR);
            char_free_byte_free(l@, '\n', LF);
            assert(byte_free(c.subrange(q, c.len() as int), CR));
            assert(byte_free(c.subrange(q, c.len() as int), LF));
        },
    }
}

/// The content of a rendered message: everything before the terminating
/// CRLF.
pub open spec fn render_content(m: Message) -> Seq<u8> {
    render_prefix(m.prefix) + render_command(m.command) + render_params(m.parameters)
        + render_last(m.last_parameter)
}

/// Holds of every field of `m` but a user prefix: no `!` occurs anywhere
/// after a server prefix's colon, so the grammar cannot mistake the line
/// for a user prefix.
pub open spec fn rest_bang_free(m: Message) -> bool {
    &&& match m.prefix {
        Some(Prefix::Server(s)) => char_free(s@, '!'),
        _ => true,
    }
    &&& match m.command {
        Command::General(c) => char_free(c@, '!'),
        Command::Numeric(_) => true,
    }
    &&& match m.parameters {
        None => true,
        Some(ps) => forall|i: int| 0 <= i < ps@.len() ==> char_free((#[trigger] ps@[i])@, '!'),
    }
    &&& match m.last_parameter {
        None => true,
        Some(l) => char_free(l@, '!'),
    }
}

/// The messages whose wire form parses back to exactly the same fields.
/// The permissive grammar identifies some distinct messages on the wire,
/// so the round trip asks a little more than validity: every structural
/// field is nonempty; a general command does not read as a numeric code,
/// and does not open with a colon when there is no prefix to absorb it; a
/// user prefix's nickname holds no `!` and its user no `@`; nothing after
/// a server prefix's colon holds a `!`; the trailing parameter holds no CR
/// or LF at all; and the rendering, a numeric code of four or five digits
/// included, stays within the 512-byte frame.
pub open spec fn round_trippable(m: Message) -> bool {
    &&& render_message(m).len() <= 512
    &&& match m.command {
        Command::General(c) => c@.len() > 0 && numeric_of(encode_utf8(c@)) is None,
        Command::Numeric(_) => true,
    }
    &&& match m.prefix {
        None => match m.command {
            Command::General(c) => c@.len() > 0 && c@[0] != ':',
            Command::Numeric(_) => true,
        },
        Some(Prefix::Server(s)) => s@.len() > 0 && rest_bang_free(m),
        Some(Prefix::User(u)) => u.nickname@.len() > 0 && u.user@.len() > 0 && u.server@.len() > 0
            && char_free(u.nickname@, '!') && char_free(u.user@, '@'),
    }
    &&& match m.parameters {
        None => true,
        Some(ps) => ps@.len() > 0 && forall|i: int|
            0 <= i < ps@.len() ==> (#[trigger] ps@[i])@.len() > 0,
    }
    &&& match m.last_parameter {
        None => true,
        Some(l) => char_free(l@, '\r') && char_free(l@, '\n'),
    }
}

/// The byte spans the grammar recovers from the rendering of `m`.
pub open spec fn raw_of(m: Message) -> RawMessage {
    RawMessage {
        prefix: match m.prefix {
            None => None,
            Some(Prefix::Server(s)) => Some(RawPrefix::Server(encode_utf8(s@))),
            Some(Prefix::User(u)) => Some(
                RawPrefix::User(
                    encode_utf8(u.nickname@),
                    encode_utf8(u.user@),
                    encode_utf8(u.server@),
                ),
            ),
        },
        command: render_command(m.command),
        params: match m.parameters {
            None => Seq::empty(),
            Some(ps) => enc_params(ps@),
        },
        last: match m.last_parameter {
            None => None,
            Some(l) => Some(encode_utf8(l@)),
        },
    }
}

/// Freedom from a non-space byte lifts from the parameters to their
/// rendering.
pub proof fn render_params_seq_free(ps: Seq<String>, x: u8)
    requires
        x != SPACE,
        forall|i: int| 0 <= i < ps.len() ==> byte_free(encode_utf8((#[trigger] ps[i])@), x),
    ensures
        byte_free(render_params_seq(ps), x),
    decreases ps.len(),
{
    if ps.len() > 0 {
        render_params_seq_free(ps.drop_last(), x);
        assert(byte_free(seq![SPACE], x));
        byte_free_concat(render_params_seq(ps.drop_last()), seq![SPACE], x);
        byte_free_concat(
            render_params_seq(ps.drop_last()) + seq![SPACE],
            encode_utf8(ps.last()@),
            x,
        );
        assert(render_params_seq(ps) =~= (render_params_seq(ps.drop_last()) + seq![SPACE])
            + encode_utf8(ps.last()@));
    }
}

/// The content of a well-formed rendering holds no CR and no LF at all,
/// once the trailing parameter avoids both.
pub proof fn render_content_line_free(m: Message)
    requires
        valid_message(m),
        round_trippable(m),
    ensures
        byte_free(render_content(m), CR),
        byte_free(render_content(m), LF),
{
    let pfx = render_prefix(m.prefix);
    let ec = render_command(m.command);
    let rp = render_params(m.parameters);
    let rl = render_last(m.last_parameter);
    assert(byte_free(seq![COLON], CR) && byte_free(seq![COLON], LF));
    assert(byte_free(seq![SPACE], CR) && byte_free(seq![SPACE], LF));
    assert(byte_free(seq![BANG], CR) && byte_free(seq![BANG], LF));
    assert(byte_free(seq![AT], CR) && byte_free(seq![AT], LF));
    assert(byte_free(seq![SPACE, COLON], CR) && byte_free(seq![SPACE, COLON], LF));
    match m.prefix {
        None => {
            assert(pfx =~= Seq::<u8>::empty());
        },
        Some(Prefix::Server(s)) => {
            sp_free_bytes(s@);
            byte_free_concat(seq![COLON], encode_utf8(s@), CR);
            byte_free_concat(seq![COLON] + encode_utf8(s@), seq![SPACE], CR);
            byte_free_concat(seq![COLON], encode_utf8(s@), LF);
            byte_free_concat(seq![COLON] + encode_utf8(s@), seq![SPACE], LF);
        },
        Some(Prefix::User(u)) => {
            sp_free_bytes(u.nickname@);
            sp_free_bytes(u.user@);
            sp_free_bytes(u.server@);
            byte_free_concat(seq![COLON], encode_utf8(u.nickname@), CR);
            byte_free_concat(seq![COLON] + encode_utf8(u.nickname@), seq![BANG], CR);
            byte_free_concat(
                seq![COLON] + encode_utf8(u.nickname@) + seq![BANG],
                encode_utf8(u.user@),
                CR,
            );
            byte_free_concat(
                seq![COLON] + encode_utf8(u.nickname@) + seq![BANG] + encode_utf8(u.user@),
                seq![AT],
                CR,
            );
            byte_free_concat(
                seq![COLON] + encode_utf8(u.nickname@) + seq![BANG] + encode_utf8(u.user@)
                    + seq![AT],
                encode_utf8(u.server@),
                CR,
            );
            byte_free_concat(
                seq![COLON] + encode_utf8(u.nickname@) + seq![BANG] + encode_utf8(u.user@)
                    + seq![AT] + encode_utf8(u.server@),
                seq![SPACE],
                CR,
            );
            byte_free_concat(seq![COLON], encode_utf8(u.nickname@), LF);
            byte_free_concat(seq![COLON] + encode_utf8(u.nickname@), seq![BANG], LF);
            byte_free_concat(
                seq![COLON] + encode_utf8(u.nickname@) + seq![BANG],
                encode_utf8(u.user@),
                LF,
            );
            byte_free_concat(
                seq![COLON] + encode_utf8(u.nickname@) + seq![BANG] + encode_utf8(u.user@),
                seq![AT],
                LF,
            );
            byte_free_concat(
                seq![COLON] + encode_utf8(u.nickname@) + seq![BANG] + encode_utf8(u.user@)
                    + seq![AT],
                encode_utf8(u.server@),
                LF,
            );
            byte_free_concat(
                seq![COLON] + encode_utf8(u.nickname@) + seq![BANG] + encode_utf8(u.user@)
                    + seq![AT] + encode_utf8(u.server@),
                seq![SPACE],
                LF,
            );
        },
    }
    assert(byte_free(pfx, CR) && byte_free(pfx, LF));
    match m.command {
        Command::General(c) => {
            sp_free_bytes(c@);
        },
        Command::Numeric(n) => {
            render_digits_free(n);
        },
    }
    assert(byte_free(ec, CR) && byte_free(ec, LF));
    match m.parameters {
        None => {
            assert(rp =~= Seq::<u8>::empty());
        },
        Some(ps) => {
            assert forall|i: int| 0 <= i < ps@.len() implies byte_free(
                encode_utf8((#[trigger] ps@[i])@),
                CR,
            ) && byte_free(encode_utf8(ps@[i]@), LF) by {
                assert(crate::message::param_ok(ps@[i]@));
                sp_free_bytes(ps@[i]@);
            }
            render_params_seq_free(ps@, CR);
            render_params_seq_free(ps@, LF);
        },
    }
    assert(byte_free(rp, CR) && byte_free(rp, LF));
    match m.last_parameter {
        None => {
            assert(rl =~= Seq::<u8>::empty());
        },
        Some(l) => {
            char_free_byte_free(l@, '\r', CR);
            char_free_byte_free(l@, '\n', LF);
            byte_free_concat(seq![SPACE, COLON], encode_utf8(l@), CR);
            byte_free_concat(seq![SPACE, COLON], encode_utf8(l@), LF);
        },
    }
    assert(byte_free(rl, CR) && byte_free(rl, LF));
    byte_free_concat(pfx, ec, CR);
    byte_free_concat(pfx + ec, rp, CR);
    byte_free_concat(pfx + ec + rp, rl, CR);
    byte_free_concat(pfx, ec, LF);
    byte_free_concat(pfx + ec, rp, LF);
    byte_free_concat(pfx + ec + rp, rl, LF);
}

/// A run of tokens on the wire, each preceded by a single space.
pub open spec fn sp_joined(toks: Seq<Seq<u8>>) -> Seq<u8>
    decreases toks.len(),
{
    if toks.len() == 0 {
        seq![]
    } else {
        sp_joined(toks.drop_last()) + seq![SPACE] + toks.last()
    }
}

/// The token run, read from the front: one space, the first token, then
/// the rest.
pub proof fn sp_joined_front(toks: Seq<Seq<u8>>)
    requires
        toks.len() > 0,
    ensures
        sp_joined(toks) =~= seq![SPACE] + toks[0] + sp_joined(toks.drop_first()),
    decreases toks.len(),
{
    if toks.len() == 1 {
        assert(toks.drop_last() =~= Seq::<Seq<u8>>::empty());
        assert(toks.drop_first() =~= Seq::<Seq<u8>>::empty());
    } else {
        sp_joined_front(toks.drop_last());
        assert(toks.drop_last().drop_first() =~= toks.drop_first().drop_last());
        assert(toks.drop_first().last() == toks.last());
        assert(toks.drop_last()[0] == toks[0]);
        assert(sp_joined(toks.drop_first()) == sp_joined(toks.drop_first().drop_last())
            + seq![SPACE] + toks.drop_first().last());
    }
}

/// The token run splits at any index.
pub proof fn sp_joined_split(toks: Seq<Seq<u8>>, k: int)
    requires
        0 <= k <= toks.len(),
    ensures
        sp_joined(toks) =~= sp_joined(toks.take(k)) + sp_joined(toks.skip(k)),
    decreases toks.len(),
{
    if k == toks.len() {
        assert(toks.take(k) =~= toks);
        assert(toks.skip(k) =~= Seq::<Seq<u8>>::empty());
    } else {
        sp_joined_split(toks.drop_last(), k);
        assert(toks.drop_last().take(k) =~= toks.take(k));
        assert(toks.skip(k).drop_last() =~= toks.drop_last().skip(k));
        assert(toks.skip(k).last() == toks.last());
        assert(sp_joined(toks.skip(k)) == sp_joined(toks.skip(k).drop_last()) + seq![SPACE]
            + toks.skip(k).last());
        assert(sp_joined(toks) == sp_joined(toks.drop_last()) + seq![SPACE] + toks.last());
    }
}

/// Freedom from a non-space byte lifts from the tokens to their run.
pub proof fn sp_joined_free(toks: Seq<Seq<u8>>, x: u8)
    requires
        x != SPACE,
        forall|i: int| 0 <= i < toks.len() ==> byte_free(#[trigger] toks[i], x),
    ensures
        byte_free(sp_joined(toks), x),
    decreases toks.len(),
{
    if toks.len() > 0 {
        sp_joined_free(toks.drop_last(), x);
        assert(byte_free(seq![SPACE], x));
        byte_free_concat(sp_joined(toks.drop_last()), seq![SPACE], x);
        byte_free_concat(sp_joined(toks.drop_last()) + seq![SPACE], toks.last(), x);
        assert(sp_joined(toks) =~= (sp_joined(toks.drop_last()) + seq![SPACE]) + toks.last());
    }
}

/// On a run of plain tokens, greedy collection recovers them one by one,
/// stopping at the fourteen-token cap whatever follows the run.
pub proof fn scan_params_of_tokens(c: Seq<u8>, pos: int, toks: Seq<Seq<u8>>, count: int, tail: Seq<u8>)
    requires
        0 <= pos <= c.len(),
        0 <= count,
        count + toks.len() <= 14,
        c.subrange(pos, c.len() as int) =~= sp_joined(toks) + tail,
        forall|i: int|
            0 <= i < toks.len() ==> (#[trigger] toks[i]).len() > 0 && byte_free(toks[i], SPACE)
                && toks[i][0] != COLON,
        tail.len() == 0 || tail[0] == SPACE,
        count + toks.len() == 14 || tail.len() == 0 || (tail.len() >= 2 && tail[0] == SPACE
            && tail[1] == COLON),
    ensures
        scan_params(c, pos, count).0 =~= toks,
        scan_params(c, pos, count).1 == c.len() - tail.len(),
    decreases toks.len(),
{
    if toks.len() == 0 {
        assert(sp_joined(toks) =~= Seq::<u8>::empty());
        assert(c.subrange(pos, c.len() as int) =~= tail);
        assert(pos == c.len() - tail.len());
        if count < 14 {
            if tail.len() == 0 {
                crate::wire::first_non_space_props(c, pos);
            } else {
                assert(c[pos] == tail[0]);
                assert(c[pos + 1] == tail[1]);
                first_non_space_is(c, pos, pos + 1);
            }
        }
        assert(scan_params(c, pos, count).0 =~= toks);
    } else {
        let t0 = toks[0];
        let rest_toks = toks.drop_first();
        sp_joined_front(toks);
        let t = pos + 1;
        let e = t + t0.len() as int;
        let rem = sp_joined(rest_toks) + tail;
        let sub = c.subrange(pos, c.len() as int);
        assert(sub =~= seq![SPACE] + t0 + rem);
        assert(c[pos] == sub[0]);
        assert(c[pos] == SPACE);
        assert(c[t] == sub[t - pos]);
        assert(c[t] == t0[0]);
        first_non_space_is(c, pos, t);
        assert(c[t] != COLON);
        assert forall|idx: int| t <= idx < e implies c[idx] != SPACE by {
            assert(c[idx] == sub[idx - pos]);
            assert(sub[idx - pos] == t0[idx - t]);
        }
        if rem.len() > 0 {
            if rest_toks.len() > 0 {
                sp_joined_front(rest_toks);
                assert(rem[0] == SPACE);
            } else {
                assert(rem =~= tail);
                assert(rem[0] == SPACE);
            }
            assert(c[e] == sub[e - pos]);
            assert(c[e] == rem[0]);
            first_at_is(c, t, SPACE, e);
        } else {
            first_at_none(c, t, SPACE);
            assert(e == c.len());
        }
        assert forall|idx: int| 0 <= idx < t0.len() implies c.subrange(t, e)[idx] == t0[idx] by {
            assert(c.subrange(t, e)[idx] == c[t + idx]);
            assert(c[t + idx] == sub[t + idx - pos]);
        }
        assert(c.subrange(t, e) =~= t0);
        assert forall|idx: int| 0 <= idx < rem.len() implies c.subrange(e, c.len() as int)[idx]
            == rem[idx] by {
            assert(c.subrange(e, c.len() as int)[idx] == c[e + idx]);
            assert(c[e + idx] == sub[e + idx - pos]);
        }
        assert(c.subrange(e, c.len() as int) =~= rem);
        scan_params_of_tokens(c, e, rest_toks, count + 1, tail);
        assert(scan_params(c, pos, count).0 =~= seq![c.subrange(t, e)] + scan_params(
            c,
            e,
            count + 1,
        ).0);
        assert(scan_params(c, pos, count).0 =~= toks);
        assert(scan_params(c, pos, count).1 == scan_params(c, e, count + 1).1);
    }
}

/// The remaining bytes after an optional leading colon: the marking colon
/// of a trailing parameter is a marker, not content.
pub open spec fn strip_leading_colon(s: Seq<u8>) -> Seq<u8> {
    if s.len() > 0 && s[0] == COLON {
        s.drop_first()
    } else {
        s
    }
}

/// Parameter overflow folds into the trailing parameter: on a line with no
/// prefix and more than fourteen space-separated tokens after the command,
/// the grammar takes exactly the first fourteen as middle parameters and
/// hands the remaining tokens back, joined by the single spaces that
/// separated them, as the trailing parameter — less a leading colon on the
/// fifteenth token, which reads as the trailing marker.
#[verifier::spinoff_prover]
#[verifier::rlimit(100)]
pub proof fn lemma_parameter_overflow(c: Seq<u8>, cmd: Seq<u8>, toks: Seq<Seq<u8>>)
    requires
        c =~= cmd + sp_joined(toks),
        cmd.len() > 0,
        byte_free(cmd, SPACE),
        cmd[0] != COLON,
        toks.len() >= 15,
        forall|i: int|
            0 <= i < toks.len() ==> (#[trigger] toks[i]).len() > 0 && byte_free(toks[i], SPACE),
        forall|i: int| 0 <= i < 14 ==> (#[trigger] toks[i])[0] != COLON,
        forall|i: int|
            14 <= i < toks.len() ==> byte_free(#[trigger] toks[i], CR) && byte_free(toks[i], LF),
    ensures
        match scan_message(c) {
            Some(rm) => {
                &&& rm.prefix is None
                &&& rm.command == cmd
                &&& rm.params =~= toks.take(14)
                &&& rm.last == Some(
                    strip_leading_colon(sp_joined(toks.skip(14)).drop_first()),
                )
            },
            None => false,
        },
{
    let head = toks.take(14);
    let over = toks.skip(14);
    sp_joined_split(toks, 14);
    sp_joined_front(over);
    assert(over[0] == toks[14]);
    scan_prefix_none_case(c);
    assert(c[0] == cmd[0]);
    assert(c[0] != SPACE);
    let rest = sp_joined(toks);
    assert(rest.len() > 0) by {
        sp_joined_front(toks);
    }
    assert(rest[0] == SPACE) by {
        sp_joined_front(toks);
    }
    assert forall|idx: int| 0 <= idx < rest.len() implies c.subrange(0, c.len() as int)[idx
        + cmd.len()] == rest[idx] by {
        assert(c.subrange(0, c.len() as int)[idx + cmd.len()] == c[idx + cmd.len()]);
    }
    assert(c.subrange(0, c.len() as int) =~= c);
    scan_command_token(c, 0, cmd, rest);
    let e = cmd.len() as int;
    assert(first_at(c, 0, SPACE) == e);
    assert(c.subrange(0, e) =~= cmd);
    let tail = sp_joined(over);
    assert forall|idx: int| 0 <= idx < rest.len() implies c.subrange(e, c.len() as int)[idx]
        == rest[idx] by {
        assert(c.subrange(e, c.len() as int)[idx] == c[e + idx]);
    }
    assert(c.subrange(e, c.len() as int) =~= sp_joined(head) + tail);
    assert forall|i: int|
        0 <= i < head.len() implies (#[trigger] head[i]).len() > 0 && byte_free(head[i], SPACE)
        && head[i][0] != COLON by {
        assert(head[i] == toks[i]);
    }
    scan_params_of_tokens(c, e, head, 0, tail);
    let pend = c.len() - tail.len() as int;
    assert(scan_params(c, e, 0).1 == pend);
    // the trailing region: one space, then the fifteenth token onward
    assert(tail =~= seq![SPACE] + over[0] + sp_joined(over.drop_first()));
    assert forall|idx: int| 0 <= idx < tail.len() implies c[pend + idx] == tail[idx] by {
        assert(c.subrange(e, c.len() as int)[(pend - e) + idx] == c[pend + idx]);
        assert((sp_joined(head) + tail)[(pend - e) + idx] == tail[idx]);
    }
    assert(c[pend] == SPACE);
    assert(c[pend + 1] == over[0][0]);
    assert(c[pend + 1] != SPACE);
    first_non_space_is(c, pend, pend + 1);
    assert forall|i: int| 0 <= i < over.len() implies byte_free(#[trigger] over[i], CR)
        && byte_free(over[i], LF) by {
        assert(over[i] == toks[14 + i]);
    }
    sp_joined_free(over, CR);
    sp_joined_free(over, LF);
    let dropped = tail.drop_first();
    assert(dropped =~= c.subrange(pend + 1, c.len() as int)) by {
        assert forall|idx: int| 0 <= idx < dropped.len() implies c.subrange(
            pend + 1,
            c.len() as int,
        )[idx] == dropped[idx] by {
            assert(c.subrange(pend + 1, c.len() as int)[idx] == c[pend + 1 + idx]);
            assert(dropped[idx] == tail[idx + 1]);
        }
    }
    if over[0][0] == COLON {
        let q = pend + 2;
        assert(c.subrange(q, c.len() as int) =~= dropped.drop_first()) by {
            assert forall|idx: int| 0 <= idx < dropped.drop_first().len() implies c.subrange(
                q,
                c.len() as int,
            )[idx] == dropped.drop_first()[idx] by {
                assert(c.subrange(q, c.len() as int)[idx] == c[q + idx]);
                assert(dropped.drop_first()[idx] == tail[idx + 2]);
            }
        }
        assert forall|idx: int| 0 <= idx < c.subrange(q, c.len() as int).len() implies c.subrange(
            q,
            c.len() as int,
        )[idx] != CR && c.subrange(q, c.len() as int)[idx] != LF by {
            assert(c.subrange(q, c.len() as int)[idx] == tail[idx + 2]);
        }
        assert(strip_leading_colon(dropped) =~= dropped.drop_first());
    } else {
        let q = pend + 1;
        assert(c[pend + 1] != COLON);
        assert forall|idx: int| 0 <= idx < c.subrange(q, c.len() as int).len() implies c.subrange(
            q,
            c.len() as int,
        )[idx] != CR && c.subrange(q, c.len() as int)[idx] != LF by {
            assert(c.subrange(q, c.len() as int)[idx] == tail[idx + 1]);
        }
        assert(strip_leading_colon(dropped) =~= dropped);
    }
    assert(scan_trailing(c, pend) == Some(Some(strip_leading_colon(dropped))));
    assert(sp_joined(toks.skip(14)).drop_first() =~= dropped);
}

/// The command token of a rendering is nonempty, space-free, and cannot
/// be mistaken for a prefix colon when there is no prefix.
pub proof fn render_command_token_facts(m: Message)
    requires
        valid_message(m),
        round_trippable(m),
    ensures
        render_command(m.command).len() > 0,
        render_command(m.command)[0] != SPACE,
        byte_free(render_command(m.command), SPACE),
        m.prefix is None ==> render_command(m.command)[0] != COLON,
{
    match m.command {
        Command::General(c) => {
            encode_empty_iff(c@);
            sp_free_bytes(c@);
            enc_first_not(c@, ' ', SPACE);
            if m.prefix is None {
                enc_first_not(c@, ':', COLON);
            }
        },
        Command::Numeric(n) => {
            render_digits_bytes(n);
            render_digits_free(n);
        },
    }
}

/// What follows the command on the wire opens with a space, and the
/// trailing-parameter rendering opens with space and colon.
pub proof fn render_tail_shape(m: Message)
    requires
        valid_message(m),
        round_trippable(m),
    ensures
        ({
            let rest = render_params(m.parameters) + render_last(m.last_parameter);
            rest.len() > 0 ==> rest[0] == SPACE
        }),
        render_last(m.last_parameter).len() == 0 || (render_last(m.last_parameter).len() >= 2
            && render_last(m.last_parameter)[0] == SPACE && render_last(m.last_parameter)[1]
            == COLON),
{
    match m.parameters {
        None => {
            assert(render_params(m.parameters) =~= Seq::<u8>::empty());
        },
        Some(ps) => {
            render_params_seq_front(ps@);
        },
    }
    match m.last_parameter {
        None => {
            assert(render_last(m.last_parameter) =~= Seq::<u8>::empty());
        },
        Some(l) => {
            assert(render_last(m.last_parameter) =~= seq![SPACE, COLON] + encode_utf8(l@));
        },
    }
}

/// On the content of a rendering, the grammar recovers exactly the
/// rendered prefix, and the command starts right after it.
#[verifier::spinoff_prover]
pub proof fn prefix_scan_of_render(m: Message)
    requires
        valid_message(m),
        round_trippable(m),
    ensures
        scan_prefix(render_content(m)).0 == raw_of(m).prefix,
        scan_prefix(render_content(m)).1 == render_prefix(m.prefix).len(),
{
    let pfx = render_prefix(m.prefix);
    let ec = render_command(m.command);
    let rp = render_params(m.parameters);
    let rl = render_last(m.last_parameter);
    let content = render_content(m);
    let rest = rp + rl;
    let t = ec + rest;
    assert(content =~= pfx + t);
    render_command_token_facts(m);
    render_tail_shape(m);
    assert(t[0] == ec[0]);
    match m.prefix {
        None => {
            assert(pfx =~= Seq::<u8>::empty());
            assert(content =~= t);
            assert(content[0] != COLON);
            scan_prefix_none_case(content);
        },
        Some(Prefix::Server(s)) => {
            match m.command {
                Command::General(c) => {
                    char_free_byte_free(c@, '!', BANG);
                },
                Command::Numeric(n) => {
                    render_digits_free(n);
                },
            }
            assert(byte_free(ec, BANG));
            match m.parameters {
                None => {},
                Some(ps) => {
                    assert forall|i: int| 0 <= i < ps@.len() implies byte_free(
                        encode_utf8((#[trigger] ps@[i])@),
                        BANG,
                    ) by {
                        char_free_byte_free(ps@[i]@, '!', BANG);
                    }
                    render_params_seq_free(ps@, BANG);
                },
            }
            assert(byte_free(rp, BANG));
            match m.last_parameter {
                None => {},
                Some(l) => {
                    char_free_byte_free(l@, '!', BANG);
                    assert(byte_free(seq![SPACE, COLON], BANG));
                    byte_free_concat(seq![SPACE, COLON], encode_utf8(l@), BANG);
                },
            }
            assert(byte_free(rl, BANG));
            byte_free_concat(rp, rl, BANG);
            byte_free_concat(ec, rest, BANG);
            assert(byte_free(t, BANG));
            assert(content =~= seq![COLON] + encode_utf8(s@) + seq![SPACE] + t);
            scan_prefix_server_case(content, s@, t);
        },
        Some(Prefix::User(u)) => {
            assert(content =~= seq![COLON] + encode_utf8(u.nickname@) + seq![BANG] + encode_utf8(
                u.user@,
            ) + seq![AT] + encode_utf8(u.server@) + seq![SPACE] + t);
            scan_prefix_user_case(content, u.nickname@, u.user@, u.server@, t);
        },
    }
}

/// On the full rendering of a well-formed, unambiguous message, the
/// terminator is found exactly at the end, and the grammar recovers
/// exactly the encoded spans of every field.
#[verifier::spinoff_prover]
#[verifier::rlimit(100)]
pub proof fn scan_message_of_render(m: Message)
    requires
        valid_message(m),
        round_trippable(m),
    ensures
        render_message(m).len() >= 3,
        first_crlf(render_message(m), 0) == render_message(m).len() - 2,
        render_message(m).subrange(0, render_message(m).len() - 2) =~= render_content(m),
        scan_message(render_content(m)) == Some(raw_of(m)),
{
    let pfx = render_prefix(m.prefix);
    let ec = render_command(m.command);
    let rp = render_params(m.parameters);
    let rl = render_last(m.last_parameter);
    let content = render_content(m);
    let rb = render_message(m);
    let rest = rp + rl;
    let t = ec + rest;
    assert(content =~= pfx + t);
    assert(rb =~= content + seq![CR, LF]);
    render_command_token_facts(m);
    render_tail_shape(m);
    assert(t[0] == ec[0]);
    let pos = content.len() - t.len() as int;
    prefix_scan_of_render(m);
    assert(scan_prefix(content).0 == raw_of(m).prefix);
    assert(scan_prefix(content).1 == pos);
    assert(pos < content.len());
    assert(content[pos] == t[0]);
    assert(content[pos] != SPACE);
    assert forall|idx: int|
        0 <= idx < t.len() implies content.subrange(pos, content.len() as int)[idx] == t[idx] by {
        assert(content.subrange(pos, content.len() as int)[idx] == content[pos + idx]);
        assert(content[pos + idx] == t[idx]);
    }
    assert(content.subrange(pos, content.len() as int) =~= t);
    scan_command_token(content, pos, ec, rest);
    let e = pos + ec.len() as int;
    assert(first_at(content, pos, SPACE) == e);
    assert(content.subrange(pos, e) =~= ec);
    let psseq = match m.parameters {
        None => Seq::<String>::empty(),
        Some(ps) => ps@,
    };
    assert(rp =~= render_params_seq(psseq));
    assert forall|idx: int|
        0 <= idx < rest.len() implies content.subrange(e, content.len() as int)[idx]
        == rest[idx] by {
        assert(content.subrange(e, content.len() as int)[idx] == content[e + idx]);
        assert(content.subrange(pos, content.len() as int)[(e - pos) + idx] == content[e + idx]);
        assert(t[(e - pos) + idx] == rest[idx]);
    }
    assert(content.subrange(e, content.len() as int) =~= render_params_seq(psseq) + rl);
    match m.parameters {
        None => {},
        Some(ps) => {
            assert forall|i: int|
                0 <= i < psseq.len() implies sp_free((#[trigger] psseq[i])@) && psseq[i]@.len() > 0
                && psseq[i]@[0] != ':' by {
                assert(crate::message::param_ok((m.parameters->Some_0)@[i]@));
                assert((m.parameters->Some_0)@[i]@ == psseq[i]@);
            }
        },
    }
    assert(psseq.len() <= 14);
    scan_params_of_render(content, e, psseq, 0, rl);
    let pend = content.len() - rl.len() as int;
    assert(scan_params(content, e, 0).1 == pend);
    assert forall|idx: int|
        0 <= idx < rl.len() implies content.subrange(pend, content.len() as int)[idx]
        == rl[idx] by {
        assert(content.subrange(pend, content.len() as int)[idx] == content[pend + idx]);
        assert(content.subrange(pos, content.len() as int)[(pend - pos) + idx] == content[pend
            + idx]);
        assert(t[(pend - pos) + idx] == rest[(pend - e) + idx]);
        assert(rest[(pend - e) + idx] == rl[idx]);
    }
    assert(content.subrange(pend, content.len() as int) =~= rl);
    scan_trailing_of_render(content, pend, m.last_parameter);
    assert(scan_params(content, e, 0).0 =~= raw_of(m).params);
    assert(scan_message(content) == Some(raw_of(m)));
    render_content_line_free(m);
    assert(rb[content.len() as int] == CR);
    assert(rb[content.len() + 1 as int] == LF);
    assert forall|k: int| 0 <= k < content.len() implies rb[k] != CR by {
        assert(rb[k] == content[k]);
    }
    first_crlf_is(rb, content.len() as int);
    assert forall|k: int|
        0 <= k < content.len() implies rb.subrange(0, rb.len() - 2)[k] == content[k] by {
        assert(rb.subrange(0, rb.len() - 2)[k] == rb[k]);
        assert(rb[k] == content[k]);
    }
    assert(rb.subrange(0, rb.len() - 2) =~= content);
}

/// A message matches its own recovered spans: each field decodes back to
/// itself, and the command token reads as a numeric code exactly for a
/// numeric command.
pub proof fn msg_matches_self(m: Message)
    requires
        valid_message(m),
        round_trippable(m),
    ensures
        msg_matches_raw(m, raw_of(m)),
{
    match m.prefix {
        None => {},
        Some(Prefix::Server(s)) => {
            enc_decodes(s@);
        },
        Some(Prefix::User(u)) => {
            enc_decodes(u.nickname@);
            enc_decodes(u.user@);
            enc_decodes(u.server@);
        },
    }
    match m.command {
        Command::Numeric(n) => {
            digits_round_trip(n);
        },
        Command::General(c) => {
            enc_decodes(c@);
        },
    }
    match m.parameters {
        None => {},
        Some(v) => {
            assert forall|i: int|
                0 <= i < raw_of(m).params.len() implies (#[trigger] v@[i])@ == lossy_decode(
                raw_of(m).params[i],
            ) by {
                assert(raw_of(m).params[i] == encode_utf8(v@[i]@));
                enc_decodes(v@[i]@);
            }
        },
    }
    match m.last_parameter {
        None => {},
        Some(l) => {
            enc_decodes(l@);
        },
    }
}

/// Field-by-field equality of two messages, compared as the mathematical
/// values of their fields.
pub open spec fn message_view_eq(a: Message, b: Message) -> bool {
    &&& match (a.prefix, b.prefix) {
        (None, None) => true,
        (Some(Prefix::Server(x)), Some(Prefix::Server(y))) => x@ == y@,
        (Some(Prefix::User(x)), Some(Prefix::User(y))) => x.nickname@ == y.nickname@ && x.user@
            == y.user@ && x.server@ == y.server@,
        _ => false,
    }
    &&& match (a.command, b.command) {
        (Command::Numeric(x), Command::Numeric(y)) => x == y,
        (Command::General(x), Command::General(y)) => x@ == y@,
        _ => false,
    }
    &&& match (a.parameters, b.parameters) {
        (None, None) => true,
        (Some(x), Some(y)) => x@.len() == y@.len() && forall|i: int|
            0 <= i < x@.len() ==> (#[trigger] x@[i])@ == y@[i]@,
        _ => false,
    }
    &&& match (a.last_parameter, b.last_parameter) {
        (None, None) => true,
        (Some(x), Some(y)) => x@ == y@,
        _ => false,
    }
}

/// Two messages that match the same recovered spans have equal fields.
pub proof fn matched_views_equal(a: Message, b: Message, rm: RawMessage)
    requires
        msg_matches_raw(a, rm),
        msg_matches_raw(b, rm),
    ensures
        message_view_eq(a, b),
{
    match (a.parameters, b.parameters) {
        (Some(x), Some(y)) => {
            assert forall|i: int| 0 <= i < x@.len() implies (#[trigger] x@[i])@ == y@[i]@ by {
                assert(x@[i]@ == lossy_decode(rm.params[i]));
                assert(y@[i]@ == lossy_decode(rm.params[i]));
            }
        },
        _ => {},
    }
}

/// Round trip: parsing the rendering of a well-formed, unambiguous
/// message yields a message equal to it in every field, consuming exactly
/// the rendering's length.
pub proof fn lemma_round_trip(m: Message, r: Result<Option<(Message, usize)>, Error>)
    requires
        valid_message(m),
        round_trippable(m),
        parse_result_matches(render_message(m), r),
    ensures
        r matches Ok(Some(p)) && message_view_eq(p.0, m) && p.1 == render_message(m).len(),
{
    scan_message_of_render(m);
    msg_matches_self(m);
    let rb = render_message(m);
    let fc = first_crlf(rb, 0);
    assert(fc == rb.len() - 2);
    assert(fc < rb.len());
    assert(fc <= 510);
    assert(rb.subrange(0, fc) =~= render_content(m));
    assert(scan_message(rb.subrange(0, fc)) == Some(raw_of(m)));
    let p = r->Ok_0->Some_0;
    matched_views_equal(p.0, m, raw_of(m));
}

/// Never an error while no terminator has arrived: a buffer without a
/// CR-LF pair anywhere holds an incomplete frame, and parsing reports
/// "no message yet" whatever the bytes are.
pub proof fn lemma_incomplete_is_not_an_error(s: Seq<u8>, r: Result<Option<(Message, usize)>, Error>)
    requires
        parse_result_matches(s, r),
        forall|i: int| 0 <= i < s.len() - 1 ==> !(#[trigger] s[i] == CR && s[i + 1] == LF),
    ensures
        r matches Ok(None),
{
    first_crlf_props(s, 0);
    let fc = first_crlf(s, 0);
    if fc < s.len() {
        assert(s[fc] == CR && s[fc + 1] == LF);
    }
}

/// The parse-side length boundary: a frame whose content before the
/// terminator is within 510 bytes is never rejected as too long, and one
/// whose content is over 510 bytes is rejected as exactly that.
pub proof fn lemma_parse_length_boundary(s: Seq<u8>, r: Result<Option<(Message, usize)>, Error>)
    requires
        parse_result_matches(s, r),
        first_crlf(s, 0) < s.len(),
    ensures
        first_crlf(s, 0) <= 510 ==> !(r == Err::<Option<(Message, usize)>, Error>(
            Error::MessageTooLong,
        )),
        first_crlf(s, 0) > 510 ==> r == Err::<Option<(Message, usize)>, Error>(
            Error::MessageTooLong,
        ),
{
}

/// The serialize-side length boundary: a message whose wire length is
/// within the 512-byte budget serializes to exactly that many bytes, and
/// one over the budget fails with the too-long error.
pub proof fn lemma_serialize_length_boundary(m: Message, r: Result<Vec<u8>, Error>)
    requires
        match r {
            Ok(b) => wire_len(m.prefix, m.command, m.parameters, m.last_parameter) <= 512 && b@
                == render_message(m) && (crate::codec::digits_fit(m.command) ==> b@.len()
                == wire_len(m.prefix, m.command, m.parameters, m.last_parameter)),
            Err(e) => e == Error::MessageTooLong && wire_len(
                m.prefix,
                m.command,
                m.parameters,
                m.last_parameter,
            ) > 512,
        },
    ensures
        wire_len(m.prefix, m.command, m.parameters, m.last_parameter) <= 512 ==> r is Ok,
        wire_len(m.prefix, m.command, m.parameters, m.last_parameter) > 512 ==> r == Err::<
            Vec<u8>,
            Error,
        >(Error::MessageTooLong),
{
}

} // verus!
