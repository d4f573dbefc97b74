use vstd::prelude::*;

verus! {

use vstd::utf8::encode_utf8;
use crate::message::Command;
use crate::message::Error;
use crate::message::Message;
use crate::message::Prefix;
use crate::message::field_bytes;
use crate::message::wire_len;
use crate::message::wire_len_nonneg;
use crate::message::params_seq_wire_len;
use crate::wire::SPACE;
use crate::wire::BANG;
use crate::wire::COLON;
use crate::wire::AT;
use crate::wire::CR;
use crate::wire::LF;
use crate::wire::DIGIT_ZERO;
use crate::wire::DIGIT_NINE;
use crate::wire::PLUS;
use crate::wire::first_at;
use crate::wire::first_non_space;
use crate::wire::first_crlf;
use crate::wire::first_at_props;
use crate::wire::first_non_space_props;
use crate::wire::first_crlf_props;
use crate::wire::RawMessage;
use crate::wire::RawPrefix;
use crate::wire::scan_prefix;
use crate::wire::scan_params;
use crate::wire::scan_trailing;
use crate::wire::scan_message;
use crate::wire::numeric_of;
use crate::wire::digits_value;
use crate::wire::all_digits;
use crate::wire::digits_value_prefix_le;
use crate::message::UserMask;
use vstd::utf8::valid_utf8;
use vstd::utf8::decode_utf8;
use vstd::slice::slice_subrange;
use vstd::slice::slice_index_get;

/// The byte of a single decimal digit.
pub open spec fn digit_byte(k: int) -> u8 {
    (DIGIT_ZERO + k) as u8
}

/// The decimal rendering of a numeric reply code: zero-padded to a minimum
/// of three digits, wider only for codes of four or five digits.
pub open spec fn render_digits(n: u16) -> Seq<u8> {
    if n < 10 {
        seq![DIGIT_ZERO, DIGIT_ZERO, digit_byte(n as int)]
    } else if n < 100 {
        seq![DIGIT_ZERO, digit_byte(n as int / 10), digit_byte(n as int % 10)]
    } else if n < 1000 {
        seq![
            digit_byte(n as int / 100),
            digit_byte((n as int / 10) % 10),
            digit_byte(n as int % 10),
        ]
    } else if n < 10000 {
        seq![
            digit_byte(n as int / 1000),
            digit_byte((n as int / 100) % 10),
            digit_byte((n as int / 10) % 10),
            digit_byte(n as int % 10),
        ]
    } else {
        seq![
            digit_byte(n as int / 10000),
            digit_byte((n as int / 1000) % 10),
            digit_byte((n as int / 100) % 10),
            digit_byte((n as int / 10) % 10),
            digit_byte(n as int % 10),
        ]
    }
}

/// The wire bytes of the optional prefix, separating space included.
pub open spec fn render_prefix(p: Option<Prefix>) -> Seq<u8> {
    match p {
        None => seq![],
        Some(Prefix::Server(s)) => seq![COLON] + encode_utf8(s@) + seq![SPACE],
        Some(Prefix::User(u)) => seq![COLON] + encode_utf8(u.nickname@) + seq![BANG] + encode_utf8(
            u.user@,
        ) + seq![AT] + encode_utf8(u.server@) + seq![SPACE],
    }
}

/// The wire bytes of the command.
pub open spec fn render_command(c: Command) -> Seq<u8> {
    match c {
        Command::Numeric(n) => render_digits(n),
        Command::General(s) => encode_utf8(s@),
    }
}

/// The wire bytes of the middle parameters: each preceded by one space.
pub open spec fn render_params_seq(ps: Seq<String>) -> Seq<u8>
    decreases ps.len(),
{
    if ps.len() == 0 {
        seq![]
    } else {
        render_params_seq(ps.drop_last()) + seq![SPACE] + encode_utf8(ps.last()@)
    }
}

/// The wire bytes of the optional middle parameters.
pub open spec fn render_params(parameters: Option<Vec<String>>) -> Seq<u8> {
    match parameters {
        None => seq![],
        Some(ps) => render_params_seq(ps@),
    }
}

/// The wire bytes of the optional trailing parameter: space, colon, text.
pub open spec fn render_last(l: Option<String>) -> Seq<u8> {
    match l {
        None => seq![],
        Some(s) => seq![SPACE, COLON] + encode_utf8(s@),
    }
}

/// The full wire form of a message, terminating CRLF included.
pub open spec fn render_message(m: Message) -> Seq<u8> {
    render_prefix(m.prefix) + render_command(m.command) + render_params(m.parameters)
        + render_last(m.last_parameter) + seq![CR, LF]
}

/// Holds when the numeric rendering stays within the three digits the
/// length formula accounts for.
pub open spec fn digits_fit(c: Command) -> bool {
    match c {
        Command::Numeric(n) => n < 1000,
        Command::General(_) => true,
    }
}

pub proof fn render_params_seq_len(ps: Seq<String>)
    ensures
        render_params_seq(ps).len() == params_seq_wire_len(ps),
    decreases ps.len(),
{
    if ps.len() > 0 {
        render_params_seq_len(ps.drop_last());
    }
}

/// The rendering has exactly the length the formula gives, as long as a
/// numeric code keeps to three digits.
pub proof fn render_message_len(m: Message)
    requires
        digits_fit(m.command),
    ensures
        render_message(m).len() == wire_len(m.prefix, m.command, m.parameters, m.last_parameter),
{
    match m.parameters {
        None => {},
        Some(ps) => {
            render_params_seq_len(ps@);
        },
    }
}

/// The characters `String::from_utf8_lossy` recovers from a byte span that
/// is not valid UTF-8: the span with each invalid sequence replaced.
pub uninterp spec fn replacement_decode(b: Seq<u8>) -> Seq<char>;

/// The text recovered from a captured byte span: the exact UTF-8 decoding
/// where the span is valid, and the replacement-character decoding
/// otherwise.
pub open spec fn lossy_decode(b: Seq<u8>) -> Seq<char> {
    if valid_utf8(b) {
        decode_utf8(b)
    } else {
        replacement_decode(b)
    }
}

/// Relies on `String::from_utf8_lossy`: valid UTF-8 passes through
/// unchanged, so the result decodes the span exactly; for invalid input the
/// result still depends on the bytes alone.
#[verifier::external_body]
fn lossy_string(b: &[u8]) -> (r: String)
    ensures
        r@ == lossy_decode(b@),
        !valid_utf8(b@) ==> r@ == replacement_decode(b@),
{
    String::from_utf8_lossy(b).into_owned()
}

/// The index of the first occurrence of `b` in `s` at or after `from`, or
/// the length of `s` when there is none.
fn find_byte(s: &[u8], from: usize, b: u8) -> (r: usize)
    requires
        from as int <= s@.len(),
    ensures
        r as int == first_at(s@, from as int, b),
{
    let n = s.len();
    let mut i = from;
    while i < n
        invariant
            from <= i <= n,
            n == s@.len(),
            forall|k: int| from <= k < i ==> s@[k] != b,
        decreases n - i,
    {
        if *slice_index_get(s, i) == b {
            proof {
                first_at_props(s@, from as int, b);
            }
            return i;
        }
        i = i + 1;
    }
    proof {
        first_at_props(s@, from as int, b);
    }
    n
}

/// The index of the first byte other than a space in `s` at or after
/// `from`, or the length of `s` when spaces run to the end.
fn find_non_space(s: &[u8], from: usize) -> (r: usize)
    requires
        from as int <= s@.len(),
    ensures
        r as int == first_non_space(s@, from as int),
{
    let n = s.len();
    let mut i = from;
    while i < n
        invariant
            from <= i <= n,
            n == s@.len(),
            forall|k: int| from <= k < i ==> s@[k] == SPACE,
        decreases n - i,
    {
        if *slice_index_get(s, i) != SPACE {
            proof {
                first_non_space_props(s@, from as int);
            }
            return i;
        }
        i = i + 1;
    }
    proof {
        first_non_space_props(s@, from as int);
    }
    n
}

/// The index of the first CR-LF byte pair in `s`, or the length of `s` when
/// there is none.
fn find_crlf(s: &[u8]) -> (r: usize)
    ensures
        r as int == first_crlf(s@, 0),
{
    let n = s.len();
    let mut i: usize = 0;
    if n >= 1 {
        while i < n - 1
            invariant
                0 <= i <= n - 1,
                1 <= n == s@.len(),
                forall|k: int| 0 <= k < i ==> !(#[trigger] s@[k] == CR && s@[k + 1] == LF),
            decreases n - i,
        {
            if *slice_index_get(s, i) == CR && *slice_index_get(s, i + 1) == LF {
                proof {
                    first_crlf_props(s@, 0);
                }
                return i;
            }
            i = i + 1;
        }
    }
    proof {
        first_crlf_props(s@, 0);
    }
    n
}

/// The numeric reply code a command token denotes, if any: an optional
/// leading plus sign, then decimal digits whose value fits in sixteen bits.
fn try_numeric(t: &[u8]) -> (r: Option<u16>)
    ensures
        r == numeric_of(t@),
{
    let n = t.len();
    let start: usize = if n > 0 && *slice_index_get(t, 0) == PLUS {
        1
    } else {
        0
    };
    let ghost d: Seq<u8> = if start == 1 {
        t@.drop_first()
    } else {
        t@
    };
    assert(d.len() == n - start);
    if start == n {
        return None;
    }
    let mut v: u32 = 0;
    let mut i = start;
    while i < n
        invariant
            start <= i <= n,
            start < n,
            start <= 1,
            n == t@.len(),
            start == 1 ==> t@.len() > 0 && t@[0] == PLUS,
            start == 0 ==> !(t@.len() > 0 && t@[0] == PLUS),
            d == (if start == 1 {
                t@.drop_first()
            } else {
                t@
            }),
            v as int == digits_value(d.take(i - start)),
            v <= 65535,
            all_digits(d.take(i - start)),
        decreases n - i,
    {
        let b = *slice_index_get(t, i);
        let ghost k = i - start;
        proof {
            assert(d[k] == b);
        }
        if b < DIGIT_ZERO || b > DIGIT_NINE {
            proof {
                assert(!all_digits(d));
            }
            return None;
        }
        proof {
            assert(d.take(k + 1).drop_last() =~= d.take(k));
            assert(d.take(k + 1).last() == d[k]);
        }
        v = v * 10 + (b - DIGIT_ZERO) as u32;
        if v > 65535 {
            proof {
                if all_digits(d) {
                    digits_value_prefix_le(d, k + 1);
                }
            }
            return None;
        }
        i = i + 1;
    }
    proof {
        assert(d.take(n - start) =~= d);
    }
    Some(v as u16)
}

/// Appends the wire bytes of a string field.
fn extend_bytes(b: &mut Vec<u8>, s: &String)
    ensures
        final(b)@ == old(b)@ + encode_utf8(s@),
{
    b.extend_from_slice(field_bytes(s));
}

/// Appends the decimal rendering of a numeric reply code.
fn push_digits(b: &mut Vec<u8>, n: u16)
    ensures
        final(b)@ == old(b)@ + render_digits(n),
{
    if n < 10 {
        b.push(DIGIT_ZERO);
        b.push(DIGIT_ZERO);
        b.push(DIGIT_ZERO + n as u8);
        assert(b@ =~= old(b)@ + render_digits(n));
    } else if n < 100 {
        b.push(DIGIT_ZERO);
        b.push(DIGIT_ZERO + (n / 10) as u8);
        b.push(DIGIT_ZERO + (n % 10) as u8);
        assert(b@ =~= old(b)@ + render_digits(n));
    } else if n < 1000 {
        b.push(DIGIT_ZERO + (n / 100) as u8);
        b.push(DIGIT_ZERO + ((n / 10) % 10) as u8);
        b.push(DIGIT_ZERO + (n % 10) as u8);
        assert(b@ =~= old(b)@ + render_digits(n));
    } else if n < 10000 {
        b.push(DIGIT_ZERO + (n / 1000) as u8);
        b.push(DIGIT_ZERO + ((n / 100) % 10) as u8);
        b.push(DIGIT_ZERO + ((n / 10) % 10) as u8);
        b.push(DIGIT_ZERO + (n % 10) as u8);
        assert(b@ =~= old(b)@ + render_digits(n));
    } else {
        b.push(DIGIT_ZERO + (n / 10000) as u8);
        b.push(DIGIT_ZERO + ((n / 1000) % 10) as u8);
        b.push(DIGIT_ZERO + ((n / 100) % 10) as u8);
        b.push(DIGIT_ZERO + ((n / 10) % 10) as u8);
        b.push(DIGIT_ZERO + (n % 10) as u8);
        assert(b@ =~= old(b)@ + render_digits(n));
    }
}

/// Scans the optional prefix of the candidate content, decoding the
/// recovered spans to text.
fn parse_prefix(c: &[u8]) -> (r: (Option<Prefix>, usize))
    ensures
        r.1 as int == scan_prefix(c@).1,
        match (r.0, scan_prefix(c@).0) {
            (None, None) => true,
            (Some(Prefix::Server(s)), Some(RawPrefix::Server(b))) => s@ == lossy_decode(b),
            (Some(Prefix::User(u)), Some(RawPrefix::User(nb, ub, sb))) => u.nickname@
                == lossy_decode(nb) && u.user@ == lossy_decode(ub) && u.server@ == lossy_decode(
                sb,
            ),
            _ => false,
        },
{
    let n = c.len();
    if n == 0 || *slice_index_get(c, 0) != COLON {
        return (None, 0);
    }
    let i = find_byte(c, 1, BANG);
    if i < n && i > 1 {
        let j = find_byte(c, i + 1, AT);
        if j < n && j > i + 1 {
            let k = find_byte(c, j + 1, SPACE);
            if k < n && k > j + 1 {
                let p = find_non_space(c, k);
                if p < n {
                    let nick = lossy_string(slice_subrange(c, 1, i));
                    let user = lossy_string(slice_subrange(c, i + 1, j));
                    let server = lossy_string(slice_subrange(c, j + 1, k));
                    return (
                        Some(Prefix::User(UserMask { nickname: nick, user, server })),
                        p,
                    );
                }
            }
        }
    }
    let q = find_byte(c, 1, SPACE);
    if q < n && q > 1 {
        let p2 = find_non_space(c, q);
        if p2 < n {
            return (Some(Prefix::Server(lossy_string(slice_subrange(c, 1, q)))), p2);
        }
    }
    (None, 0)
}

/// Collects the middle parameters of the candidate content, decoding each
/// token to text.
fn parse_params(c: &[u8], e: usize) -> (r: (Option<Vec<String>>, usize))
    requires
        e as int <= c@.len(),
    ensures
        r.1 as int == scan_params(c@, e as int, 0).1,
        e as int <= r.1 as int <= c@.len(),
        match r.0 {
            None => scan_params(c@, e as int, 0).0.len() == 0,
            Some(v) => {
                let ps = scan_params(c@, e as int, 0).0;
                &&& ps.len() > 0
                &&& v@.len() == ps.len()
                &&& forall|i: int| 0 <= i < ps.len() ==> (#[trigger] v@[i])@ == lossy_decode(ps[i])
            },
        },
{
    let n = c.len();
    let mut out: Vec<String> = Vec::new();
    let mut pos = e;
    let mut count: usize = 0;
    let ghost mut taken: Seq<Seq<u8>> = Seq::empty();
    loop
        invariant
            e <= pos <= n,
            n == c@.len(),
            0 <= count <= 14,
            count == out@.len(),
            count == taken.len(),
            forall|i: int| 0 <= i < taken.len() ==> (#[trigger] out@[i])@ == lossy_decode(taken[i]),
            scan_params(c@, e as int, 0).0 =~= taken + scan_params(c@, pos as int, count as int).0,
            scan_params(c@, e as int, 0).1 == scan_params(c@, pos as int, count as int).1,
        ensures
            scan_params(c@, e as int, 0).0 =~= taken,
            scan_params(c@, e as int, 0).1 == pos as int,
            count == out@.len() && count == taken.len(),
            forall|i: int| 0 <= i < taken.len() ==> (#[trigger] out@[i])@ == lossy_decode(taken[i]),
        decreases 14 - count,
    {
        if count == 14 {
            proof {
                assert(scan_params(c@, pos as int, count as int).0 =~= Seq::<Seq<u8>>::empty());
                assert(taken + scan_params(c@, pos as int, count as int).0 =~= taken);
            }
            break;
        }
        let t = find_non_space(c, pos);
        proof {
            first_non_space_props(c@, pos as int);
        }
        if t == n {
            proof {
                assert(scan_params(c@, pos as int, count as int).0 =~= Seq::<Seq<u8>>::empty());
                assert(taken + scan_params(c@, pos as int, count as int).0 =~= taken);
            }
            break;
        }
        if *slice_index_get(c, t) == COLON {
            proof {
                assert(scan_params(c@, pos as int, count as int).0 =~= Seq::<Seq<u8>>::empty());
                assert(taken + scan_params(c@, pos as int, count as int).0 =~= taken);
            }
            break;
        }
        let e2 = find_byte(c, t, SPACE);
        let ghost span = c@.subrange(t as int, e2 as int);
        proof {
            first_at_props(c@, t as int, SPACE);
            first_non_space_props(c@, pos as int);
            let unfolded = scan_params(c@, pos as int, count as int);
            let rest = scan_params(c@, e2 as int, count as int + 1);
            assert(unfolded.0 =~= seq![span] + rest.0);
            assert(unfolded.1 == rest.1);
            assert(taken.push(span) =~= taken + seq![span]);
            assert(taken + unfolded.0 =~= taken.push(span) + rest.0);
        }
        out.push(lossy_string(slice_subrange(c, t, e2)));
        proof {
            taken = taken.push(span);
        }
        pos = e2;
        count = count + 1;
    }
    if count == 0 {
        (None, pos)
    } else {
        (Some(out), pos)
    }
}

/// Scans the optional trailing parameter of the candidate content, decoding
/// it to text. Rejects a frame whose trailing parameter would contain CR or
/// LF.
fn parse_trailing(c: &[u8], pos: usize) -> (r: Result<Option<String>, Error>)
    requires
        pos as int <= c@.len(),
    ensures
        match scan_trailing(c@, pos as int) {
            None => r == Err::<Option<String>, Error>(Error::Parsing),
            Some(None) => r matches Ok(None),
            Some(Some(l)) => r matches Ok(Some(s)) && s@ == lossy_decode(l),
        },
{
    let n = c.len();
    if pos == n {
        return Ok(None);
    }
    let sp_end = find_non_space(c, pos);
    proof {
        first_non_space_props(c@, pos as int);
    }
    if sp_end == n {
        let empty = lossy_string(slice_subrange(c, n, n));
        proof {
            assert(c@.subrange(n as int, n as int) =~= Seq::<u8>::empty());
        }
        return Ok(Some(empty));
    }
    let q: usize = if *slice_index_get(c, sp_end) == COLON {
        sp_end + 1
    } else {
        sp_end
    };
    proof {
        first_non_space_props(c@, pos as int);
    }
    let l = slice_subrange(c, q, n);
    let cr = find_byte(l, 0, CR);
    let lf = find_byte(l, 0, LF);
    proof {
        first_at_props(l@, 0, CR);
        first_at_props(l@, 0, LF);
    }
    if cr < l.len() || lf < l.len() {
        return Err(Error::Parsing);
    }
    Ok(Some(lossy_string(l)))
}

/// Holds when the executable message `m` is what the recovered spans `rm`
/// decode to: prefix parts and parameters decoded text for text, and the
/// command read as a numeric reply code exactly when its token denotes one.
pub open spec fn msg_matches_raw(m: Message, rm: RawMessage) -> bool {
    &&& match (m.prefix, rm.prefix) {
        (None, None) => true,
        (Some(Prefix::Server(s)), Some(RawPrefix::Server(b))) => s@ == lossy_decode(b),
        (Some(Prefix::User(u)), Some(RawPrefix::User(nb, ub, sb))) => u.nickname@ == lossy_decode(
            nb,
        ) && u.user@ == lossy_decode(ub) && u.server@ == lossy_decode(sb),
        _ => false,
    }
    &&& match m.command {
        Command::Numeric(x) => numeric_of(rm.command) == Some(x),
        Command::General(s) => numeric_of(rm.command) is None && s@ == lossy_decode(rm.command),
    }
    &&& match m.parameters {
        None => rm.params.len() == 0,
        Some(v) => rm.params.len() > 0 && v@.len() == rm.params.len() && forall|i: int|
            0 <= i < rm.params.len() ==> (#[trigger] v@[i])@ == lossy_decode(rm.params[i]),
    }
    &&& match (m.last_parameter, rm.last) {
        (None, None) => true,
        (Some(s), Some(l)) => s@ == lossy_decode(l),
        _ => false,
    }
}

/// What `parse` returns for the buffer `s`: nothing yet while no CRLF has
/// arrived; too-long when the content before the first CRLF is over 510
/// bytes; otherwise the message and consumed length the grammar gives, or a
/// parsing error where the grammar rejects the frame.
pub open spec fn parse_result_matches(s: Seq<u8>, r: Result<Option<(Message, usize)>, Error>) -> bool {
    let fc = first_crlf(s, 0);
    if fc >= s.len() {
        r matches Ok(None)
    } else if fc > 510 {
        r == Err::<Option<(Message, usize)>, Error>(Error::MessageTooLong)
    } else {
        match scan_message(s.subrange(0, fc)) {
            None => r == Err::<Option<(Message, usize)>, Error>(Error::Parsing),
            Some(rm) => r matches Ok(Some(p)) && p.1 == fc + 2 && msg_matches_raw(p.0, rm),
        }
    }
}

impl Message {
    /// Extracts one complete message from the front of `input`, if a whole
    /// CRLF-terminated frame has arrived. Returns the message together with
    /// the number of bytes consumed, frame terminator included; `Ok(None)`
    /// while the buffer holds no terminator yet; `MessageTooLong` when the
    /// content before the terminator is over 510 bytes; and `Parsing` when
    /// the grammar rejects the frame.
    pub fn parse(input: &[u8]) -> (r: Result<Option<(Message, usize)>, Error>)
        ensures
            parse_result_matches(input@, r),
    {
        let n = input.len();
        let fc = find_crlf(input);
        proof {
            first_crlf_props(input@, 0);
        }
        if fc == n {
            return Ok(None);
        }
        if fc > 510 {
            return Err(Error::MessageTooLong);
        }
        let content = slice_subrange(input, 0, fc);
        let cn = content.len();
        let (pfx, pos) = parse_prefix(content);
        if pos >= cn {
            return Err(Error::Parsing);
        }
        if *slice_index_get(content, pos) == SPACE {
            return Err(Error::Parsing);
        }
        let cmd_end = find_byte(content, pos, SPACE);
        proof {
            first_at_props(content@, pos as int, SPACE);
        }
        let cmd_slice = slice_subrange(content, pos, cmd_end);
        let command = match try_numeric(cmd_slice) {
            Some(v) => Command::Numeric(v),
            None => Command::General(lossy_string(cmd_slice)),
        };
        let (params, pend) = parse_params(content, cmd_end);
        let last = match parse_trailing(content, pend) {
            Ok(l) => l,
            Err(e) => {
                return Err(e);
            },
        };
        Ok(Some((Message::new_unchecked(pfx, command, params, last), fc + 2)))
    }

    /// Serializes the message to its wire bytes. Fails only when the
    /// wire-encoded length, CRLF included, is over the 512-byte budget; on
    /// success the buffer holds exactly the rendering, allocated to the
    /// computed length.
    #[verifier::rlimit(60)]
    pub fn to_bytes(&self) -> (r: Result<Vec<u8>, Error>)
        ensures
            match r {
                Ok(b) => wire_len(self.prefix, self.command, self.parameters, self.last_parameter)
                    <= 512 && b@ == render_message(*self) && (digits_fit(self.command) ==> b@.len()
                    == wire_len(self.prefix, self.command, self.parameters, self.last_parameter)),
                Err(e) => e == Error::MessageTooLong && wire_len(
                    self.prefix,
                    self.command,
                    self.parameters,
                    self.last_parameter,
                ) > 512,
            },
    {
        proof {
            wire_len_nonneg(self.prefix, self.command, self.parameters, self.last_parameter);
        }
        let len = Self::calc_len(&self.prefix, &self.command, &self.parameters, &self.last_parameter);
        if len > 512 {
            return Err(Error::MessageTooLong);
        }
        let ghost w = wire_len(self.prefix, self.command, self.parameters, self.last_parameter);
        assert(w == len as int);
        let mut b: Vec<u8> = Vec::with_capacity(len);
        match &self.prefix {
            None => {},
            Some(Prefix::Server(s)) => {
                b.push(COLON);
                extend_bytes(&mut b, s);
                b.push(SPACE);
            },
            Some(Prefix::User(u)) => {
                b.push(COLON);
                extend_bytes(&mut b, &u.nickname);
                b.push(BANG);
                extend_bytes(&mut b, &u.user);
                b.push(AT);
                extend_bytes(&mut b, &u.server);
                b.push(SPACE);
            },
        }
        assert(b@ =~= render_prefix(self.prefix));
        match &self.command {
            Command::Numeric(n) => {
                push_digits(&mut b, *n);
            },
            Command::General(c) => {
                extend_bytes(&mut b, c);
            },
        }
        assert(b@ =~= render_prefix(self.prefix) + render_command(self.command));
        match &self.parameters {
            None => {},
            Some(ps) => {
                let n = ps.len();
                let mut i: usize = 0;
                while i < n
                    invariant
                        0 <= i <= n,
                        n == ps@.len(),
                        self.parameters == Some(*ps),
                        b@ == render_prefix(self.prefix) + render_command(self.command)
                            + render_params_seq(ps@.take(i as int)),
                    decreases n - i,
                {
                    b.push(SPACE);
                    extend_bytes(&mut b, &ps[i]);
                    proof {
                        assert(ps@.take(i + 1 as int).drop_last() =~= ps@.take(i as int));
                        assert(ps@.take(i + 1 as int).last() == ps@[i as int]);
                        assert(b@ =~= render_prefix(self.prefix) + render_command(self.command)
                            + render_params_seq(ps@.take(i + 1 as int)));
                    }
                    i = i + 1;
                }
                proof {
                    assert(ps@.take(n as int) =~= ps@);
                }
            },
        }
        assert(b@ =~= render_prefix(self.prefix) + render_command(self.command) + render_params(
            self.parameters,
        ));
        match &self.last_parameter {
            None => {},
            Some(l) => {
                b.push(SPACE);
                b.push(COLON);
                extend_bytes(&mut b, l);
            },
        }
        b.push(CR);
        b.push(LF);
        assert(b@ =~= render_message(*self));
        proof {
            if digits_fit(self.command) {
                render_message_len(*self);
            }
        }
        Ok(b)
    }
}

} // verus!
