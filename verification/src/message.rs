use vstd::prelude::*;

verus! {

use vstd::utf8::encode_utf8;
use crate::wire::SPACE;
use crate::wire::COLON;
use crate::wire::CR;
use crate::wire::LF;
use crate::wire::encode_ascii_occurrence;
use crate::wire::encode_first_byte;
use crate::wire::encode_empty_iff;
use vstd::utf8::char_u32_cast;

/// The ways a message can fail to parse, validate, or serialize.
#[derive(Debug, PartialEq, Eq)]
pub enum Error {
    /// The grammar rejected a complete candidate frame.
    Parsing,
    /// The message, including the CRLF terminator, is more than 512 bytes.
    MessageTooLong,
    /// A prefix component or the command text contains a space, CR, or LF.
    PrefixValidation,
    /// A middle parameter contains a space, CR, or LF, or starts with a colon.
    CommandValidation,
    /// More than 14 middle parameters were supplied.
    SimpleParameterValidation,
    /// The last parameter contains the two-byte sequence CR-LF.
    LastParameterValidation,
}

/// The verb of a message: either a three-digit numeric reply code or a
/// free-form textual command.
#[derive(Debug, PartialEq, Eq)]
pub enum Command {
    Numeric(u16),
    General(String),
}

/// The origin of a message written as `nick!user@server`.
#[derive(Debug, PartialEq, Eq)]
pub struct UserMask {
    pub nickname: String,
    pub user: String,
    pub server: String,
}

/// The optional origin field of a message: a bare server name, or a user mask.
#[derive(Debug, PartialEq, Eq)]
pub enum Prefix {
    Server(String),
    User(UserMask),
}

/// One protocol message: an optional origin prefix, a command, up to fourteen
/// middle parameters, and an optional trailing parameter.
#[derive(Debug, PartialEq, Eq)]
pub struct Message {
    pub prefix: Option<Prefix>,
    pub command: Command,
    pub parameters: Option<Vec<String>>,
    pub last_parameter: Option<String>,
}

/// Holds when `s` contains no space, CR, or LF: the characters that would
/// break the token structure of the wire form.
pub open spec fn sp_free(s: Seq<char>) -> bool {
    forall|i: int| 0 <= i < s.len() ==> s[i] != ' ' && s[i] != '\r' && s[i] != '\n'
}

/// Holds when the byte sequence `s` does not contain CR immediately
/// followed by LF.
pub open spec fn crlf_pair_free(s: Seq<u8>) -> bool {
    forall|i: int| 0 <= i < s.len() - 1 ==> !(#[trigger] s[i] == CR && s[i + 1] == LF)
}

/// The prefix invariant: every component is free of spaces and line breaks.
pub open spec fn prefix_ok(prefix: Option<Prefix>) -> bool {
    match prefix {
        None => true,
        Some(Prefix::Server(s)) => sp_free(s@),
        Some(Prefix::User(u)) => sp_free(u.nickname@) && sp_free(u.user@) && sp_free(u.server@),
    }
}

/// The command invariant: general command text is free of spaces and line breaks.
pub open spec fn command_ok(command: Command) -> bool {
    match command {
        Command::Numeric(_) => true,
        Command::General(c) => sp_free(c@),
    }
}

/// The shape invariant on one middle parameter: free of spaces and line
/// breaks, and not starting with a colon.
pub open spec fn param_ok(p: Seq<char>) -> bool {
    sp_free(p) && (p.len() > 0 ==> p[0] != ':')
}

/// The shape invariant on the middle parameters.
pub open spec fn params_shape_ok(parameters: Option<Vec<String>>) -> bool {
    match parameters {
        None => true,
        Some(ps) => forall|i: int| 0 <= i < ps@.len() ==> param_ok(#[trigger] ps@[i]@),
    }
}

/// The count invariant: at most fourteen middle parameters.
pub open spec fn params_count_ok(parameters: Option<Vec<String>>) -> bool {
    match parameters {
        None => true,
        Some(ps) => ps@.len() <= 14,
    }
}

/// The trailing-parameter invariant: no embedded CR-LF pair in its wire
/// bytes.
pub open spec fn last_ok(last_parameter: Option<String>) -> bool {
    match last_parameter {
        None => true,
        Some(l) => crlf_pair_free(encode_utf8(l@)),
    }
}

/// The number of wire bytes a field contributes: the length of its UTF-8
/// encoding.
pub open spec fn field_len(s: Seq<char>) -> int {
    encode_utf8(s).len() as int
}

/// Wire bytes contributed by the prefix: the name plus leading colon and
/// trailing space for a server prefix; the three components plus colon,
/// `!`, `@`, and trailing space for a user prefix.
pub open spec fn prefix_wire_len(prefix: Option<Prefix>) -> int {
    match prefix {
        None => 0,
        Some(Prefix::Server(s)) => field_len(s@) + 2,
        Some(Prefix::User(u)) => field_len(u.nickname@) + field_len(u.user@) + field_len(
            u.server@,
        ) + 4,
    }
}

/// Wire bytes contributed by the command: three digits for a numeric code,
/// the text length otherwise.
pub open spec fn command_wire_len(command: Command) -> int {
    match command {
        Command::Numeric(_) => 3,
        Command::General(c) => field_len(c@),
    }
}

/// Wire bytes contributed by the middle parameters: each costs its own
/// length plus one separating space.
pub open spec fn params_seq_wire_len(ps: Seq<String>) -> int
    decreases ps.len(),
{
    if ps.len() == 0 {
        0
    } else {
        params_seq_wire_len(ps.drop_last()) + field_len(ps.last()@) + 1
    }
}

/// Wire bytes contributed by the middle parameters, if any.
pub open spec fn params_wire_len(parameters: Option<Vec<String>>) -> int {
    match parameters {
        None => 0,
        Some(ps) => params_seq_wire_len(ps@),
    }
}

/// Wire bytes contributed by the trailing parameter: its length plus the
/// separating space and the marking colon.
pub open spec fn last_wire_len(last_parameter: Option<String>) -> int {
    match last_parameter {
        None => 0,
        Some(l) => field_len(l@) + 2,
    }
}

/// The exact wire-encoded length of a message, including the terminating
/// CRLF.
pub open spec fn wire_len(
    prefix: Option<Prefix>,
    command: Command,
    parameters: Option<Vec<String>>,
    last_parameter: Option<String>,
) -> int {
    2 + prefix_wire_len(prefix) + command_wire_len(command) + params_wire_len(parameters)
        + last_wire_len(last_parameter)
}

/// A wire length capped at what a `usize` can hold: what the executable
/// length computation reports when the mathematical length is out of reach
/// of the machine. Every message near the cap is far over the 512-byte
/// budget either way.
pub open spec fn sat_len(n: int) -> int {
    if n <= usize::MAX as int {
        n
    } else {
        usize::MAX as int
    }
}

pub proof fn params_seq_wire_len_nonneg(ps: Seq<String>)
    ensures
        params_seq_wire_len(ps) >= 0,
    decreases ps.len(),
{
    if ps.len() > 0 {
        params_seq_wire_len_nonneg(ps.drop_last());
    }
}

pub proof fn params_seq_wire_len_take_unfold(ps: Seq<String>, i: int)
    requires
        0 <= i < ps.len(),
    ensures
        params_seq_wire_len(ps.take(i + 1)) == params_seq_wire_len(ps.take(i)) + field_len(
            ps[i]@,
        ) + 1,
{
    assert(ps.take(i + 1).drop_last() =~= ps.take(i));
    assert(ps.take(i + 1).last() == ps[i]);
}

pub proof fn wire_len_nonneg(
    prefix: Option<Prefix>,
    command: Command,
    parameters: Option<Vec<String>>,
    last_parameter: Option<String>,
)
    ensures
        wire_len(prefix, command, parameters, last_parameter) >= 2,
{
    match parameters {
        None => {},
        Some(ps) => {
            params_seq_wire_len_nonneg(ps@);
        },
    }
}

/// All the invariants the validating constructor enforces.
pub open spec fn valid_parts(
    prefix: Option<Prefix>,
    command: Command,
    parameters: Option<Vec<String>>,
    last_parameter: Option<String>,
) -> bool {
    &&& prefix_ok(prefix)
    &&& command_ok(command)
    &&& params_shape_ok(parameters)
    &&& params_count_ok(parameters)
    &&& last_ok(last_parameter)
    &&& wire_len(prefix, command, parameters, last_parameter) <= 512
}

/// A message whose fields satisfy all the constructor invariants.
pub open spec fn valid_message(m: Message) -> bool {
    valid_parts(m.prefix, m.command, m.parameters, m.last_parameter)
}

/// The wire bytes of a string field: its UTF-8 encoding.
pub(crate) fn field_bytes<'a>(s: &'a String) -> (b: &'a [u8])
    ensures
        b@ == encode_utf8(s@),
{
    s.as_str().as_bytes()
}

/// Checks, on the wire bytes, that a field contains no space, CR, or LF.
pub(crate) fn check_sp_free(s: &String) -> (r: bool)
    ensures
        r == sp_free(s@),
{
    let b = field_bytes(s);
    let n = b.len();
    let mut i: usize = 0;
    let mut clean = true;
    while i < n
        invariant
            0 <= i <= n,
            n == b@.len(),
            b@ == encode_utf8(s@),
            clean == (forall|k: int|
                0 <= k < i ==> b@[k] != SPACE && b@[k] != CR && b@[k] != LF),
        decreases n - i,
    {
        let x = *vstd::slice::slice_index_get(b, i);
        if x == SPACE || x == CR || x == LF {
            clean = false;
        }
        i = i + 1;
    }
    proof {
        let bs = encode_utf8(s@);
        encode_ascii_occurrence(s@, SPACE);
        encode_ascii_occurrence(s@, CR);
        encode_ascii_occurrence(s@, LF);
        assert forall|i: int| 0 <= i < s@.len() implies (s@[i] == ' ' <==> s@[i] as u32 == 32)
            && (s@[i] == '\r' <==> s@[i] as u32 == 13) && (s@[i] == '\n' <==> s@[i] as u32
            == 10) by {
            char_u32_cast(s@[i], s@[i] as u32);
            char_u32_cast(' ', ' ' as u32);
            char_u32_cast('\r', '\r' as u32);
            char_u32_cast('\n', '\n' as u32);
        }
        if clean {
            assert forall|i: int| 0 <= i < s@.len() implies s@[i] != ' ' && s@[i] != '\r'
                && s@[i] != '\n' by {
                if s@[i] == ' ' {
                    assert(exists|k: int| 0 <= k < s@.len() && s@[k] as u32 == SPACE as u32);
                }
                if s@[i] == '\r' {
                    assert(exists|k: int| 0 <= k < s@.len() && s@[k] as u32 == CR as u32);
                }
                if s@[i] == '\n' {
                    assert(exists|k: int| 0 <= k < s@.len() && s@[k] as u32 == LF as u32);
                }
            }
        } else {
            let bad = choose|k: int|
                0 <= k < bs.len() && !(bs[k] != SPACE && bs[k] != CR && bs[k] != LF);
            if bs[bad] == SPACE {
                let i = choose|i: int| 0 <= i < s@.len() && s@[i] as u32 == SPACE as u32;
                assert(s@[i] == ' ');
            } else if bs[bad] == CR {
                let i = choose|i: int| 0 <= i < s@.len() && s@[i] as u32 == CR as u32;
                assert(s@[i] == '\r');
            } else {
                let i = choose|i: int| 0 <= i < s@.len() && s@[i] as u32 == LF as u32;
                assert(s@[i] == '\n');
            }
        }
    }
    clean
}

/// Checks, on the wire bytes, whether a field starts with a colon.
pub(crate) fn check_starts_colon(s: &String) -> (r: bool)
    ensures
        r == (s@.len() > 0 && s@[0] == ':'),
{
    let b = field_bytes(s);
    proof {
        encode_empty_iff(s@);
        if s@.len() > 0 {
            encode_first_byte(s@);
            char_u32_cast(s@[0], s@[0] as u32);
            char_u32_cast(':', ':' as u32);
        }
    }
    if b.len() == 0 {
        false
    } else {
        *vstd::slice::slice_index_get(b, 0) == COLON
    }
}

/// Checks, on the wire bytes, that a field contains no CR-LF pair.
pub(crate) fn check_crlf_pair_free(s: &String) -> (r: bool)
    ensures
        r == crlf_pair_free(encode_utf8(s@)),
{
    let b = field_bytes(s);
    let n = b.len();
    let mut i: usize = 0;
    let mut clean = true;
    if n >= 1 {
        while i < n - 1
            invariant
                0 <= i <= n - 1,
                1 <= n == b@.len(),
                b@ == encode_utf8(s@),
                clean == (forall|k: int|
                    0 <= k < i ==> !(#[trigger] b@[k] == CR && b@[k + 1] == LF)),
            decreases n - i,
        {
            if *vstd::slice::slice_index_get(b, i) == CR && *vstd::slice::slice_index_get(
                b,
                i + 1,
            ) == LF {
                clean = false;
            }
            i = i + 1;
        }
    }
    clean
}

impl Message {
    /// Builds a message without running any validation. The parser uses this
    /// internally: the grammar already excludes most illegal byte sequences.
    pub fn new_unchecked(
        prefix: Option<Prefix>,
        command: Command,
        parameters: Option<Vec<String>>,
        last_parameter: Option<String>,
    ) -> (m: Message)
        ensures
            m.prefix == prefix,
            m.command == command,
            m.parameters == parameters,
            m.last_parameter == last_parameter,
    {
        Message { prefix, command, parameters, last_parameter }
    }

    /// Builds a message after checking every invariant in order: prefix
    /// spacing, command spacing, parameter shape, parameter count, trailing
    /// CR-LF, and finally the 512-byte wire-length budget. Returns the first
    /// violation found.
    pub fn new(
        prefix: Option<Prefix>,
        command: Command,
        parameters: Option<Vec<String>>,
        last_parameter: Option<String>,
    ) -> (r: Result<Message, Error>)
        ensures
            match r {
                Ok(m) => valid_parts(prefix, command, parameters, last_parameter) && m == (Message {
                    prefix,
                    command,
                    parameters,
                    last_parameter,
                }),
                Err(e) => if !prefix_ok(prefix) || !command_ok(command) {
                    e == Error::PrefixValidation
                } else if !params_shape_ok(parameters) {
                    e == Error::CommandValidation
                } else if !params_count_ok(parameters) {
                    e == Error::SimpleParameterValidation
                } else if !last_ok(last_parameter) {
                    e == Error::LastParameterValidation
                } else {
                    wire_len(prefix, command, parameters, last_parameter) > 512 && e
                        == Error::MessageTooLong
                },
            },
    {
        let prefix_good = match &prefix {
            None => true,
            Some(Prefix::Server(s)) => check_sp_free(s),
            Some(Prefix::User(u)) => check_sp_free(&u.nickname) && check_sp_free(&u.user)
                && check_sp_free(&u.server),
        };
        if !prefix_good {
            return Err(Error::PrefixValidation);
        }
        let command_good = match &command {
            Command::Numeric(_) => true,
            Command::General(c) => check_sp_free(c),
        };
        if !command_good {
            return Err(Error::PrefixValidation);
        }
        match &parameters {
            None => {},
            Some(ps) => {
                let n = ps.len();
                let mut i: usize = 0;
                while i < n
                    invariant
                        0 <= i <= n,
                        n == ps@.len(),
                        parameters == Some(*ps),
                        prefix_ok(prefix),
                        command_ok(command),
                        forall|k: int| 0 <= k < i ==> param_ok(#[trigger] ps@[k]@),
                    decreases n - i,
                {
                    let p = &ps[i];
                    if !check_sp_free(p) || check_starts_colon(p) {
                        proof {
                            let gi = i as int;
                            assert(!param_ok(ps@[gi]@));
                            assert(parameters == Some(*ps));
                            assert((parameters->Some_0)@[gi]@ == ps@[gi]@);
                            assert(!params_shape_ok(parameters));
                        }
                        return Err(Error::CommandValidation);
                    }
                    i = i + 1;
                }
                if n > 14 {
                    return Err(Error::SimpleParameterValidation);
                }
            },
        }
        match &last_parameter {
            None => {},
            Some(l) => {
                if !check_crlf_pair_free(l) {
                    return Err(Error::LastParameterValidation);
                }
            },
        }
        proof {
            wire_len_nonneg(prefix, command, parameters, last_parameter);
        }
        if Self::calc_len(&prefix, &command, &parameters, &last_parameter) > 512 {
            return Err(Error::MessageTooLong);
        }
        Ok(Message { prefix, command, parameters, last_parameter })
    }

    /// The exact wire-encoded length of a message built from these fields,
    /// including the terminating CRLF, capped at what a `usize` can hold.
    pub(crate) fn calc_len(
        prefix: &Option<Prefix>,
        command: &Command,
        parameters: &Option<Vec<String>>,
        last_parameter: &Option<String>,
    ) -> (r: usize)
        ensures
            r == sat_len(wire_len(*prefix, *command, *parameters, *last_parameter)),
    {
        let mut total: usize = 2;
        match prefix {
            None => {},
            Some(Prefix::Server(s)) => {
                total = total.saturating_add(field_bytes(s).len()).saturating_add(2);
            },
            Some(Prefix::User(u)) => {
                total = total.saturating_add(field_bytes(&u.nickname).len()).saturating_add(
                    field_bytes(&u.user).len(),
                ).saturating_add(field_bytes(&u.server).len()).saturating_add(4);
            },
        }
        assert(total == sat_len(2 + prefix_wire_len(*prefix)));
        match command {
            Command::Numeric(_) => {
                total = total.saturating_add(3);
            },
            Command::General(c) => {
                total = total.saturating_add(field_bytes(c).len());
            },
        }
        assert(total == sat_len(2 + prefix_wire_len(*prefix) + command_wire_len(*command)));
        let ghost base: int = 2 + prefix_wire_len(*prefix) + command_wire_len(*command);
        match parameters {
            None => {},
            Some(ps) => {
                let n = ps.len();
                let mut i: usize = 0;
                while i < n
                    invariant
                        0 <= i <= n,
                        n == ps@.len(),
                        base == 2 + prefix_wire_len(*prefix) + command_wire_len(*command),
                        base >= 2,
                        total == sat_len(base + params_seq_wire_len(ps@.take(i as int))),
                    decreases n - i,
                {
                    proof {
                        params_seq_wire_len_take_unfold(ps@, i as int);
                        params_seq_wire_len_nonneg(ps@.take(i as int));
                    }
                    total = total.saturating_add(field_bytes(&ps[i]).len()).saturating_add(1);
                    i = i + 1;
                }
                proof {
                    assert(ps@.take(n as int) =~= ps@);
                }
            },
        }
        assert(total == sat_len(
            2 + prefix_wire_len(*prefix) + command_wire_len(*command) + params_wire_len(
                *parameters,
            ),
        ));
        match last_parameter {
            None => {},
            Some(l) => {
                proof {
                    match parameters {
                        None => {},
                        Some(ps) => {
                            params_seq_wire_len_nonneg(ps@);
                        },
                    }
                }
                total = total.saturating_add(field_bytes(l).len()).saturating_add(2);
            },
        }
        total
    }

    pub fn prefix(&self) -> (r: &Option<Prefix>)
        ensures
            r == &self.prefix,
    {
        &self.prefix
    }

    pub fn command(&self) -> (r: &Command)
        ensures
            r == &self.command,
    {
        &self.command
    }

    pub fn parameters(&self) -> (r: &Option<Vec<String>>)
        ensures
            r == &self.parameters,
    {
        &self.parameters
    }

    pub fn last_parameter(&self) -> (r: &Option<String>)
        ensures
            r == &self.last_parameter,
    {
        &self.last_parameter
    }
}

} // verus!
