//! A self-delimiting byte encoding for the message model.
//!
//! The transport frames a message only by connection half-close, so the
//! payload itself must decode without an outer length field. Every message
//! starts with a tag byte; text is carried as a character count followed by
//! one little-endian 32-bit code point per character. The variant sets are
//! closed: any unrecognized payload is a hard decode error, never ignored.

use vstd::bytes::*;
use vstd::prelude::*;

use crate::messages::{AnswerFromQinit, AnswerModel, CommandToQinit, ErrorDetails, LoginForm,
    LoginFormModel, Splash};

verus! {

/// The single decode failure: the bytes are not the encoding of any value
/// of the expected type.
#[derive(Clone, Copy, PartialEq, Eq, Structural, Debug)]
pub enum DecodeError {
    Unrecognized,
}

/// True of the code points that a `char` can carry.
pub open spec fn unicode_scalar(v: u32) -> bool {
    v < 0xD800 || (0xE000 <= v && v <= 0x10FFFF)
}

/// The bytes of a character sequence: one little-endian 32-bit code point
/// per character.
pub open spec fn chars_bytes(s: Seq<char>) -> Seq<u8>
    decreases s.len(),
{
    if s.len() == 0 {
        Seq::empty()
    } else {
        spec_u32_to_le_bytes(s[0] as u32) + chars_bytes(s.drop_first())
    }
}

/// The bytes of a text field: a little-endian 64-bit character count,
/// then the characters.
pub open spec fn text_bytes(s: Seq<char>) -> Seq<u8> {
    spec_u64_to_le_bytes(s.len() as u64) + chars_bytes(s)
}

/// The tag byte of a power-state action.
pub open spec fn splash_tag(s: Splash) -> u8 {
    match s {
        Splash::PowerOff => 1,
        Splash::Reboot => 2,
        Splash::Sleep => 3,
    }
}

/// The encoding of a request command.
pub open spec fn command_bytes(c: CommandToQinit) -> Seq<u8> {
    match c {
        CommandToQinit::GetLoginCredentials => seq![1u8],
        CommandToQinit::StopListening => seq![2u8],
        CommandToQinit::TriggerSplash(s) => seq![3u8, splash_tag(s)],
    }
}

/// The encoding of a response answer.
pub open spec fn answer_bytes(a: AnswerModel) -> Seq<u8> {
    match a {
        AnswerModel::Login(None) => seq![1u8, 0u8],
        AnswerModel::Login(Some(f)) => seq![1u8, 1u8] + text_bytes(f.username) + text_bytes(
            f.password,
        ),
    }
}

/// The encoding of a failure payload.
pub open spec fn error_details_bytes(reason: Seq<char>) -> Seq<u8> {
    seq![2u8] + text_bytes(reason)
}

/// The character count that a text field starting at `pos` declares.
pub open spec fn text_len_at(b: Seq<u8>, pos: int) -> int {
    spec_u64_from_le_bytes(b.subrange(pos, pos + 8)) as int
}

/// The `k`-th code point of the text field starting at `pos`.
pub open spec fn chunk_at(b: Seq<u8>, pos: int, k: int) -> u32 {
    spec_u32_from_le_bytes(b.subrange(pos + 8 + 4 * k, pos + 8 + 4 * k + 4))
}

/// True when a complete, well-formed text field starts at `pos`.
pub open spec fn valid_text_at(b: Seq<u8>, pos: int) -> bool {
    &&& pos + 8 <= b.len()
    &&& pos + 8 + 4 * text_len_at(b, pos) <= b.len()
    &&& forall|k: int|
        0 <= k < text_len_at(b, pos) ==> unicode_scalar(#[trigger] chunk_at(b, pos, k))
}

/// The first position after the text field starting at `pos`.
pub open spec fn text_end_at(b: Seq<u8>, pos: int) -> int {
    pos + 8 + 4 * text_len_at(b, pos)
}

/// The characters of the text field starting at `pos`.
pub open spec fn text_at(b: Seq<u8>, pos: int) -> Seq<char> {
    Seq::new(text_len_at(b, pos) as nat, |k: int| chunk_at(b, pos, k) as char)
}

/// True exactly of the byte sequences that encode some request command.
pub open spec fn valid_command_encoding(b: Seq<u8>) -> bool {
    if b.len() == 1 {
        b[0] == 1 || b[0] == 2
    } else if b.len() == 2 {
        b[0] == 3 && (b[1] == 1 || b[1] == 2 || b[1] == 3)
    } else {
        false
    }
}

/// The command that a valid command encoding denotes.
pub open spec fn parse_command(b: Seq<u8>) -> CommandToQinit {
    if b.len() == 1 && b[0] == 2 {
        CommandToQinit::StopListening
    } else if b.len() == 2 && b[1] == 2 {
        CommandToQinit::TriggerSplash(Splash::Reboot)
    } else if b.len() == 2 && b[1] == 3 {
        CommandToQinit::TriggerSplash(Splash::Sleep)
    } else if b.len() == 2 {
        CommandToQinit::TriggerSplash(Splash::PowerOff)
    } else {
        CommandToQinit::GetLoginCredentials
    }
}

/// True exactly of the byte sequences that encode some response answer.
pub open spec fn valid_answer_encoding(b: Seq<u8>) -> bool {
    &&& b.len() >= 2
    &&& b[0] == 1
    &&& (b[1] == 0 || b[1] == 1)
    &&& (b[1] == 0 ==> b.len() == 2)
    &&& (b[1] == 1 ==> {
        &&& valid_text_at(b, 2)
        &&& valid_text_at(b, text_end_at(b, 2))
        &&& b.len() == text_end_at(b, text_end_at(b, 2))
    })
}

/// True exactly of the byte sequences that encode some failure payload.
pub open spec fn valid_error_details_encoding(b: Seq<u8>) -> bool {
    &&& b.len() >= 1
    &&& b[0] == 2
    &&& valid_text_at(b, 1)
    &&& b.len() == text_end_at(b, 1)
}

/// The answer that a valid answer encoding denotes.
pub open spec fn parse_answer(b: Seq<u8>) -> AnswerModel {
    if b.len() >= 2 && b[1] == 1 {
        AnswerModel::Login(
            Some(
                LoginFormModel {
                    username: text_at(b, 2),
                    password: text_at(b, text_end_at(b, 2)),
                },
            ),
        )
    } else {
        AnswerModel::Login(None)
    }
}

/// True when every text field of the answer fits behind a 64-bit count.
pub open spec fn answer_fits_wire(a: AnswerModel) -> bool {
    match a {
        AnswerModel::Login(None) => true,
        AnswerModel::Login(Some(f)) => f.username.len() <= u64::MAX && f.password.len()
            <= u64::MAX,
    }
}

proof fn lemma_concat_parts(a: Seq<u8>, b: Seq<u8>)
    ensures
        (a + b).subrange(0, a.len() as int) == a,
        (a + b).subrange(a.len() as int, (a + b).len() as int) == b,
{
    assert((a + b).subrange(0, a.len() as int) =~= a);
    assert((a + b).subrange(a.len() as int, (a + b).len() as int) =~= b);
}

proof fn lemma_window(b: Seq<u8>, pos: int, len: int, x: Seq<u8>, u: int, v: int)
    requires
        0 <= pos,
        pos + len <= b.len(),
        x.len() == len,
        b.subrange(pos, pos + len) == x,
        0 <= u <= v <= len,
    ensures
        b.subrange(pos + u, pos + v) == x.subrange(u, v),
{
    assert forall|j: int| pos + u <= j < pos + v implies b[j] == x[j - pos] by {
        assert(b.subrange(pos, pos + len)[j - pos] == b[j]);
    }
    assert(b.subrange(pos + u, pos + v) =~= x.subrange(u, v));
}

proof fn lemma_chars_bytes_len(s: Seq<char>)
    ensures
        chars_bytes(s).len() == 4 * s.len(),
    decreases s.len(),
{
    lemma_auto_spec_u32_to_from_le_bytes();
    if s.len() > 0 {
        lemma_chars_bytes_len(s.drop_first());
    }
}

proof fn lemma_chars_bytes_push(s: Seq<char>, c: char)
    ensures
        chars_bytes(s.push(c)) == chars_bytes(s) + spec_u32_to_le_bytes(c as u32),
    decreases s.len(),
{
    lemma_auto_spec_u32_to_from_le_bytes();
    reveal_with_fuel(chars_bytes, 2);
    if s.len() == 0 {
        assert(s.push(c)[0] == c);
        assert(s.push(c).drop_first() =~= Seq::<char>::empty());
        assert(chars_bytes(s.push(c).drop_first()) == Seq::<u8>::empty());
        assert(chars_bytes(s.push(c)) =~= chars_bytes(s) + spec_u32_to_le_bytes(c as u32));
    } else {
        let head = spec_u32_to_le_bytes(s.push(c)[0] as u32);
        let tail = chars_bytes(s.drop_first());
        let last = spec_u32_to_le_bytes(c as u32);
        assert(s.push(c)[0] == s[0]);
        assert(s.push(c).drop_first() =~= s.drop_first().push(c));
        lemma_chars_bytes_push(s.drop_first(), c);
        assert(chars_bytes(s.push(c)) == head + chars_bytes(s.push(c).drop_first()));
        assert(chars_bytes(s.push(c).drop_first()) == tail + last);
        vstd::seq_lib::lemma_concat_associative(head, tail, last);
        assert(chars_bytes(s) == head + tail);
    }
}

proof fn lemma_chars_bytes_chunk(s: Seq<char>, k: int)
    requires
        0 <= k < s.len(),
    ensures
        chars_bytes(s).subrange(4 * k, 4 * k + 4) == spec_u32_to_le_bytes(s[k] as u32),
    decreases k,
{
    lemma_auto_spec_u32_to_from_le_bytes();
    lemma_chars_bytes_len(s);
    lemma_chars_bytes_len(s.drop_first());
    if k == 0 {
        assert(chars_bytes(s).subrange(0, 4) =~= spec_u32_to_le_bytes(s[0] as u32));
    } else {
        lemma_chars_bytes_chunk(s.drop_first(), k - 1);
        assert(chars_bytes(s).subrange(4 * k, 4 * k + 4) =~= chars_bytes(
            s.drop_first(),
        ).subrange(4 * (k - 1), 4 * (k - 1) + 4));
    }
}

/// A text field written at `pos` reads back as itself: the count, the end
/// position, and every character are recovered from the bytes.
proof fn lemma_text_bytes_parse(b: Seq<u8>, pos: int, s: Seq<char>)
    requires
        0 <= pos,
        s.len() <= u64::MAX,
        pos + 8 + 4 * s.len() <= b.len(),
        b.subrange(pos, pos + 8 + 4 * s.len()) == text_bytes(s),
    ensures
        valid_text_at(b, pos),
        text_len_at(b, pos) == s.len(),
        text_end_at(b, pos) == pos + 8 + 4 * s.len(),
        text_at(b, pos) == s,
{
    lemma_auto_spec_u64_to_from_le_bytes();
    lemma_auto_spec_u32_to_from_le_bytes();
    lemma_chars_bytes_len(s);
    let len: int = 8 + 4 * s.len() as int;
    lemma_concat_parts(spec_u64_to_le_bytes(s.len() as u64), chars_bytes(s));
    lemma_window(b, pos, len, text_bytes(s), 0, 8);
    assert(b.subrange(pos, pos + 8) == spec_u64_to_le_bytes(s.len() as u64));
    assert(text_len_at(b, pos) == s.len());
    lemma_window(b, pos, len, text_bytes(s), 8, len);
    let chars_region = b.subrange(pos + 8, pos + len);
    assert(chars_region == chars_bytes(s));
    assert forall|k: int| 0 <= k < s.len() implies #[trigger] chunk_at(b, pos, k) == s[k] as u32 by {
        vstd::utf8::char_is_scalar(s[k]);
        lemma_chars_bytes_chunk(s, k);
        lemma_window(b, pos + 8, 4 * s.len() as int, chars_bytes(s), 4 * k, 4 * k + 4);
        assert(b.subrange(pos + 8 + 4 * k, pos + 8 + 4 * k + 4) == chars_bytes(s).subrange(
            4 * k,
            4 * k + 4,
        ));
    }
    assert forall|k: int| 0 <= k < text_len_at(b, pos) implies unicode_scalar(
        #[trigger] chunk_at(b, pos, k),
    ) by {
        vstd::utf8::char_is_scalar(s[k]);
        assert(chunk_at(b, pos, k) == s[k] as u32);
    }
    assert forall|k: int| 0 <= k < s.len() implies text_at(b, pos)[k] == s[k] by {
        vstd::utf8::char_is_scalar(s[k]);
        vstd::utf8::char_u32_cast(s[k], s[k] as u32);
        assert(chunk_at(b, pos, k) == s[k] as u32);
        assert((s[k] as u32) as char == s[k]);
    }
    assert(text_at(b, pos) =~= s);
}

/// Law: a request command's encoding is recognized as valid.
pub proof fn lemma_command_encoding_valid(c: CommandToQinit)
    ensures
        valid_command_encoding(command_bytes(c)),
{
}

/// Law: a request command's encoding parses back to the same command
/// (round trip at the wire level).
pub proof fn lemma_command_round_trip(c: CommandToQinit)
    ensures
        parse_command(command_bytes(c)) == c,
{
    match c {
        CommandToQinit::GetLoginCredentials => {
        },
        CommandToQinit::StopListening => {
        },
        CommandToQinit::TriggerSplash(s) => {
            match s {
                Splash::PowerOff => {
                },
                Splash::Reboot => {
                },
                Splash::Sleep => {
                },
            }
        },
    }
}

/// Law: encoding request commands is injective — distinct commands never
/// share a wire image.
pub proof fn lemma_command_encoding_injective(c1: CommandToQinit, c2: CommandToQinit)
    requires
        command_bytes(c1) == command_bytes(c2),
    ensures
        c1 == c2,
{
    lemma_command_round_trip(c1);
    lemma_command_round_trip(c2);
}

/// Law: an answer's encoding is recognized as valid and parses back to the
/// same answer (round trip at the wire level).
pub proof fn lemma_answer_round_trip(a: AnswerModel)
    requires
        answer_fits_wire(a),
    ensures
        valid_answer_encoding(answer_bytes(a)),
        parse_answer(answer_bytes(a)) == a,
{
    let b = answer_bytes(a);
    match a {
        AnswerModel::Login(None) => {
        }
        AnswerModel::Login(Some(f)) => {
            lemma_chars_bytes_len(f.username);
            lemma_chars_bytes_len(f.password);
            lemma_auto_spec_u64_to_from_le_bytes();
            let ulen: int = 8 + 4 * f.username.len() as int;
            let plen: int = 8 + 4 * f.password.len() as int;
            let head = seq![1u8, 1u8] + text_bytes(f.username);
            assert(b.len() == 2 + ulen + plen);
            lemma_concat_parts(head, text_bytes(f.password));
            assert(b.subrange(0, 2 + ulen) == head);
            assert(b.subrange(2 + ulen, 2 + ulen + plen) == text_bytes(f.password));
            lemma_concat_parts(seq![1u8, 1u8], text_bytes(f.username));
            lemma_window(b, 0, 2 + ulen, head, 2, 2 + ulen);
            assert(b.subrange(2, 2 + ulen) == text_bytes(f.username));
            lemma_text_bytes_parse(b, 2, f.username);
            lemma_text_bytes_parse(b, 2 + ulen, f.password);
        }
    }
}

/// Law: encoding answers is injective on answers that fit the wire.
pub proof fn lemma_answer_encoding_injective(a1: AnswerModel, a2: AnswerModel)
    requires
        answer_fits_wire(a1),
        answer_fits_wire(a2),
        answer_bytes(a1) == answer_bytes(a2),
    ensures
        a1 == a2,
{
    lemma_answer_round_trip(a1);
    lemma_answer_round_trip(a2);
}

/// Law: a failure payload's encoding is recognized as valid and its reason
/// reads back unchanged.
pub proof fn lemma_error_details_round_trip(reason: Seq<char>)
    requires
        reason.len() <= u64::MAX,
    ensures
        valid_error_details_encoding(error_details_bytes(reason)),
        text_at(error_details_bytes(reason), 1) == reason,
{
    let b = error_details_bytes(reason);
    lemma_chars_bytes_len(reason);
    lemma_auto_spec_u64_to_from_le_bytes();
    lemma_concat_parts(seq![2u8], text_bytes(reason));
    assert(b.subrange(1, 9 + 4 * reason.len() as int) == text_bytes(reason));
    lemma_text_bytes_parse(b, 1, reason);
}

/// Relies on char::from_u32: it returns `Some` exactly on Unicode scalar
/// values, and the returned character has the given code point.
#[verifier::external_body]
fn char_from_u32(v: u32) -> (r: Option<char>)
    ensures
        r is Some <==> unicode_scalar(v),
        r matches Some(c) ==> c as u32 == v,
{
    char::from_u32(v)
}

/// Relies on String::push: it appends exactly one character.
#[verifier::external_body]
fn push_char(s: &mut String, c: char)
    ensures
        final(s)@ == old(s)@.push(c),
{
    s.push(c);
}

/// Appends the wire form of one text field to `out`.
fn encode_text(out: &mut Vec<u8>, s: &String)
    ensures
        final(out)@ == old(out)@ + text_bytes(s@),
{
    let n = s.as_str().unicode_len();
    let mut len_bytes = u64_to_le_bytes(n as u64);
    out.append(&mut len_bytes);
    let mut i: usize = 0;
    while i < n
        invariant
            i <= n,
            n == s@.len(),
            out@ == old(out)@ + spec_u64_to_le_bytes(s@.len() as u64) + chars_bytes(
                s@.subrange(0, i as int),
            ),
        decreases n - i,
    {
        let c = s.as_str().get_char(i);
        let mut chunk = u32_to_le_bytes(c as u32);
        out.append(&mut chunk);
        proof {
            lemma_chars_bytes_push(s@.subrange(0, i as int), c);
            assert(s@.subrange(0, i + 1 as int) =~= s@.subrange(0, i as int).push(s@[i as int]));
            assert(out@ =~= old(out)@ + spec_u64_to_le_bytes(s@.len() as u64) + chars_bytes(
                s@.subrange(0, i + 1 as int),
            ));
        }
        i += 1;
    }
    proof {
        assert(s@.subrange(0, n as int) =~= s@);
        assert(out@ =~= old(out)@ + text_bytes(s@));
    }
}

/// Reads one text field starting at `start`; returns the text and the
/// position just past it. Fails exactly when no well-formed text field
/// starts there.
fn decode_text(bytes: &[u8], start: usize) -> (r: Result<(String, usize), DecodeError>)
    requires
        start <= bytes@.len(),
    ensures
        r is Ok <==> valid_text_at(bytes@, start as int),
        r matches Ok((s, end)) ==> {
            &&& end == text_end_at(bytes@, start as int)
            &&& start < end <= bytes@.len()
            &&& s@ == text_at(bytes@, start as int)
            &&& bytes@.subrange(start as int, end as int) == text_bytes(s@)
        },
{
    if bytes.len() - start < 8 {
        return Err(DecodeError::Unrecognized);
    }
    let len_slice = vstd::slice::slice_subrange(bytes, start, start + 8);
    let n64 = u64_from_le_bytes(len_slice);
    assert(n64 == text_len_at(bytes@, start as int));
    let rem = bytes.len() - start - 8;
    let avail = rem / 4;
    if n64 > avail as u64 {
        proof {
            assert(4 * ((rem as int) / 4) + 4 > rem as int) by (nonlinear_arith);
            assert(4 * (n64 as int) > rem as int) by (nonlinear_arith)
                requires
                    n64 as int > (rem as int) / 4,
                    4 * ((rem as int) / 4) + 4 > rem as int,
            ;
        }
        return Err(DecodeError::Unrecognized);
    }
    proof {
        assert(4 * ((rem as int) / 4) <= rem as int) by (nonlinear_arith);
        assert(4 * (n64 as int) <= rem as int) by (nonlinear_arith)
            requires
                n64 as int <= (rem as int) / 4,
                4 * ((rem as int) / 4) <= rem as int,
        ;
    }
    let n = n64 as usize;
    let blen = bytes.len();
    let mut s = String::new();
    let mut i: usize = 0;
    while i < n
        invariant
            i <= n,
            n == n64,
            blen == bytes@.len(),
            n64 == text_len_at(bytes@, start as int),
            start + 8 + 4 * n <= bytes@.len(),
            s@.len() == i,
            forall|k: int|
                0 <= k < i ==> unicode_scalar(#[trigger] chunk_at(bytes@, start as int, k)),
            bytes@.subrange(start + 8, start + 8 + 4 * (i as int)) == chars_bytes(s@),
            forall|k: int|
                0 <= k < i ==> s@[k] as u32 == #[trigger] chunk_at(bytes@, start as int, k),
        decreases n - i,
    {
        let off = start + 8 + 4 * i;
        let chunk_slice = vstd::slice::slice_subrange(bytes, off, off + 4);
        let v = u32_from_le_bytes(chunk_slice);
        assert(v == chunk_at(bytes@, start as int, i as int));
        match char_from_u32(v) {
            None => {
                proof {
                    assert(!valid_text_at(bytes@, start as int)) by {
                        assert(!unicode_scalar(chunk_at(bytes@, start as int, i as int)));
                    }
                }
                return Err(DecodeError::Unrecognized);
            },
            Some(c) => {
                let ghost s_old = s@;
                push_char(&mut s, c);
                proof {
                    lemma_chars_bytes_push(s_old, c);
                    assert(bytes@.subrange(start + 8, start + 8 + 4 * (i + 1 as int))
                        =~= bytes@.subrange(start + 8, start + 8 + 4 * (i as int))
                        + bytes@.subrange(start + 8 + 4 * (i as int), start + 8 + 4 * (i as int) + 4));
                    lemma_auto_spec_u32_to_from_le_bytes();
                    assert(bytes@.subrange(start + 8 + 4 * (i as int), start + 8 + 4 * (i as int) + 4)
                        =~= spec_u32_to_le_bytes(c as u32));
                }
            },
        }
        i += 1;
    }
    let end = start + 8 + 4 * n;
    proof {
        lemma_auto_spec_u64_to_from_le_bytes();
        assert(bytes@.subrange(start as int, start + 8) =~= spec_u64_to_le_bytes(
            text_len_at(bytes@, start as int) as u64,
        ));
        assert forall|k: int| 0 <= k < n implies text_at(bytes@, start as int)[k] == s@[k] by {
            vstd::utf8::char_is_scalar(s@[k]);
            vstd::utf8::char_u32_cast(s@[k], s@[k] as u32);
            assert(s@[k] as u32 == chunk_at(bytes@, start as int, k));
            assert((s@[k] as u32) as char == s@[k]);
        }
        assert(text_at(bytes@, start as int) =~= s@);
        assert(bytes@.subrange(start as int, end as int) =~= bytes@.subrange(start as int, start + 8)
            + bytes@.subrange(start + 8, start + 8 + 4 * (n as int)));
        assert(bytes@.subrange(start as int, end as int) =~= text_bytes(s@));
    }
    Ok((s, end))
}

/// Encodes a request command.
pub fn encode_command(c: &CommandToQinit) -> (r: Vec<u8>)
    ensures
        r@ == command_bytes(*c),
{
    let mut out: Vec<u8> = Vec::new();
    match c {
        CommandToQinit::GetLoginCredentials => {
            out.push(1u8);
        },
        CommandToQinit::StopListening => {
            out.push(2u8);
        },
        CommandToQinit::TriggerSplash(s) => {
            out.push(3u8);
            match s {
                Splash::PowerOff => out.push(1u8),
                Splash::Reboot => out.push(2u8),
                Splash::Sleep => out.push(3u8),
            }
        },
    }
    proof {
        assert(out@ =~= command_bytes(*c));
    }
    out
}

/// Decodes a request command. Fails exactly on bytes that encode no
/// command, and on success returns the one command with that encoding.
pub fn decode_command(bytes: &[u8]) -> (r: Result<CommandToQinit, DecodeError>)
    ensures
        r is Ok <==> valid_command_encoding(bytes@),
        r matches Ok(c) ==> bytes@ == command_bytes(c),
{
    if bytes.len() == 1 {
        let c = if bytes[0] == 1 {
            CommandToQinit::GetLoginCredentials
        } else if bytes[0] == 2 {
            CommandToQinit::StopListening
        } else {
            return Err(DecodeError::Unrecognized);
        };
        proof {
            assert(bytes@ =~= command_bytes(c));
        }
        Ok(c)
    } else if bytes.len() == 2 && bytes[0] == 3 {
        let s = if bytes[1] == 1 {
            Splash::PowerOff
        } else if bytes[1] == 2 {
            Splash::Reboot
        } else if bytes[1] == 3 {
            Splash::Sleep
        } else {
            return Err(DecodeError::Unrecognized);
        };
        proof {
            assert(bytes@ =~= command_bytes(CommandToQinit::TriggerSplash(s)));
        }
        Ok(CommandToQinit::TriggerSplash(s))
    } else {
        Err(DecodeError::Unrecognized)
    }
}

/// Encodes a response answer.
pub fn encode_answer(a: &AnswerFromQinit) -> (r: Vec<u8>)
    ensures
        r@ == answer_bytes(a@),
{
    let mut out: Vec<u8> = Vec::new();
    out.push(1u8);
    match a {
        AnswerFromQinit::Login(None) => {
            out.push(0u8);
            proof {
                assert(out@ =~= answer_bytes(a@));
            }
        },
        AnswerFromQinit::Login(Some(form)) => {
            out.push(1u8);
            let ghost prefix = out@;
            encode_text(&mut out, &form.username);
            encode_text(&mut out, &form.password);
            proof {
                assert(prefix =~= seq![1u8, 1u8]);
                assert(out@ =~= answer_bytes(a@));
            }
        },
    }
    out
}

/// Decodes a response answer. Fails exactly on bytes that encode no
/// answer; on success the input is the returned answer's exact encoding.
pub fn decode_answer(bytes: &[u8]) -> (r: Result<AnswerFromQinit, DecodeError>)
    ensures
        r is Ok <==> valid_answer_encoding(bytes@),
        r matches Ok(a) ==> bytes@ == answer_bytes(a@) && a@ == parse_answer(bytes@),
{
    if bytes.len() < 2 {
        return Err(DecodeError::Unrecognized);
    }
    if bytes[0] != 1 {
        return Err(DecodeError::Unrecognized);
    }
    let opt_tag = bytes[1];
    if opt_tag == 0 {
        if bytes.len() != 2 {
            return Err(DecodeError::Unrecognized);
        }
        proof {
            assert(bytes@ =~= answer_bytes(AnswerModel::Login(None)));
        }
        return Ok(AnswerFromQinit::Login(None));
    }
    if opt_tag != 1 {
        return Err(DecodeError::Unrecognized);
    }
    let (username, pos1) = match decode_text(bytes, 2) {
        Ok(x) => x,
        Err(e) => {
            return Err(e);
        },
    };
    let (password, pos2) = match decode_text(bytes, pos1) {
        Ok(x) => x,
        Err(e) => {
            return Err(e);
        },
    };
    if pos2 != bytes.len() {
        return Err(DecodeError::Unrecognized);
    }
    let form = LoginForm { username, password };
    let answer = AnswerFromQinit::Login(Some(form));
    proof {
        assert(bytes@.subrange(0, 2) =~= seq![1u8, 1u8]);
        assert(bytes@ =~= bytes@.subrange(0, 2) + bytes@.subrange(2, pos1 as int)
            + bytes@.subrange(pos1 as int, pos2 as int));
        assert(bytes@ =~= answer_bytes(answer@));
    }
    Ok(answer)
}

/// Encodes a failure payload.
pub fn encode_error_details(d: &ErrorDetails) -> (r: Vec<u8>)
    ensures
        r@ == error_details_bytes(d@),
{
    let mut out: Vec<u8> = Vec::new();
    out.push(2u8);
    let ghost prefix = out@;
    encode_text(&mut out, &d.error_reason);
    proof {
        assert(prefix =~= seq![2u8]);
        assert(out@ =~= error_details_bytes(d@));
    }
    out
}

/// Decodes a failure payload. Fails exactly on bytes that encode no
/// failure payload.
pub fn decode_error_details(bytes: &[u8]) -> (r: Result<ErrorDetails, DecodeError>)
    ensures
        r is Ok <==> valid_error_details_encoding(bytes@),
        r matches Ok(d) ==> bytes@ == error_details_bytes(d@) && d@ == text_at(bytes@, 1),
{
    if bytes.len() < 1 {
        return Err(DecodeError::Unrecognized);
    }
    if bytes[0] != 2 {
        return Err(DecodeError::Unrecognized);
    }
    let (error_reason, end) = match decode_text(bytes, 1) {
        Ok(x) => x,
        Err(e) => {
            return Err(e);
        },
    };
    if end != bytes.len() {
        return Err(DecodeError::Unrecognized);
    }
    let details = ErrorDetails { error_reason };
    proof {
        assert(bytes@.subrange(0, 1) =~= seq![2u8]);
        assert(bytes@ =~= bytes@.subrange(0, 1) + bytes@.subrange(1, end as int));
        assert(bytes@ =~= error_details_bytes(details@));
    }
    Ok(details)
}

} // verus!
