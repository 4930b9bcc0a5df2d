//! The netstring framing codec. A frame on the wire is
//! `ascii_decimal(len(payload)) ":" payload ","`; the codec turns payloads
//! into frames and an arbitrarily chunked byte stream back into payloads.

use vstd::prelude::*;

use crate::CodecError;
use crate::buffer::{
    bm_contents, bm_extend_from_slice, bm_find_colon, bm_len, bm_split_to, bm_to_vec,
};

verus! {

/// The two phases of the incremental parser: waiting for the decimal length
/// field (up to and including its `:` delimiter), or waiting for the
/// declared number of payload bytes plus the trailing `,`.
#[derive(Clone, Copy, Debug, PartialEq, Eq, Structural)]
pub enum ParserState {
    Length,
    Data,
}

/// True of an ASCII decimal digit byte.
pub open spec fn is_digit(b: u8) -> bool {
    48 <= b <= 57
}

/// True when every byte of `s` is an ASCII decimal digit.
pub open spec fn all_digits(s: Seq<u8>) -> bool {
    forall|i: int| 0 <= i < s.len() ==> is_digit(s[i])
}

/// The unsigned value of `s` read as a big-endian decimal numeral.
pub open spec fn dec_value(s: Seq<u8>) -> nat
    decreases s.len(),
{
    if s.len() == 0 {
        0
    } else {
        dec_value(s.drop_last()) * 10 + (s.last() - 48) as nat
    }
}

/// The shortest ASCII decimal numeral for `n` (no sign, no leading zeros,
/// a single `0` for zero).
pub open spec fn dec_repr(n: nat) -> Seq<u8>
    decreases n,
{
    if n < 10 {
        seq![(48 + n) as u8]
    } else {
        dec_repr(n / 10).push((48 + n % 10) as u8)
    }
}

/// The frame that carries payload `d`: decimal length, `:`, payload, `,`.
pub open spec fn encoding(d: Seq<u8>) -> Seq<u8> {
    dec_repr(d.len()) + seq![58u8] + d + seq![44u8]
}

/// The index of the first `:` byte of `s`, if any.
pub open spec fn find_colon(s: Seq<u8>) -> Option<int>
    decreases s.len(),
{
    if s.len() == 0 {
        None
    } else if s[0] == 58 {
        Some(0)
    } else {
        match find_colon(s.drop_first()) {
            Some(i) => Some(i + 1),
            None => None,
        }
    }
}

/// What one decode call does, at the specification level: the value it
/// returns, the parser state and declared length it leaves behind, and the
/// bytes still waiting in the buffer.
pub ghost struct Transition {
    pub result: Result<Option<Seq<u8>>, CodecError>,
    pub state: ParserState,
    pub current_length: nat,
    pub buf: Seq<u8>,
}

/// One decode call while `cur` payload bytes plus the trailing `,` are
/// awaited. Nothing happens until the buffer holds `cur + 1` bytes; then
/// exactly those bytes are consumed, the last must be `,`, and the `cur`
/// bytes before it are the decoded payload.
pub open spec fn data_transition(cur: nat, buf: Seq<u8>) -> Transition {
    if buf.len() >= cur + 1 {
        if buf[cur as int] != 44 {
            Transition {
                result: Err(CodecError::MissingTrailingDelimiter),
                state: ParserState::Data,
                current_length: cur,
                buf: buf.skip(cur as int + 1),
            }
        } else {
            Transition {
                result: Ok(Some(buf.take(cur as int))),
                state: ParserState::Length,
                current_length: 0,
                buf: buf.skip(cur as int + 1),
            }
        }
    } else {
        Transition { result: Ok(None), state: ParserState::Data, current_length: cur, buf }
    }
}

/// One decode call while a length field is awaited. With no `:` in sight the
/// call consumes nothing, and gives up once 9 or more bytes have been
/// examined (the digit budget is 8). With `:` at offset `k`, the `k` bytes
/// before it must be a non-empty run of decimal digits whose value is at
/// most `max`; the field and delimiter are consumed and the call goes on to
/// await that many payload bytes. Leading zeros are accepted as observed.
pub open spec fn length_transition(max: nat, buf: Seq<u8>) -> Transition {
    match find_colon(buf) {
        None => {
            if buf.len() >= 9 {
                Transition {
                    result: Err(CodecError::LengthFieldTooLong),
                    state: ParserState::Length,
                    current_length: 0,
                    buf,
                }
            } else {
                Transition {
                    result: Ok(None),
                    state: ParserState::Length,
                    current_length: 0,
                    buf,
                }
            }
        },
        Some(k) => {
            let field = buf.take(k);
            if k == 0 || !all_digits(field) {
                Transition {
                    result: Err(CodecError::InvalidLengthDigits),
                    state: ParserState::Length,
                    current_length: 0,
                    buf: buf.skip(k + 1),
                }
            } else if dec_value(field) > max {
                Transition {
                    result: Err(CodecError::PayloadTooLarge),
                    state: ParserState::Length,
                    current_length: 0,
                    buf: buf.skip(k + 1),
                }
            } else {
                data_transition(dec_value(field), buf.skip(k + 1))
            }
        },
    }
}

/// One decode call of a codec in the given state, on the given buffer.
pub open spec fn decode_transition(
    state: ParserState,
    cur: nat,
    max: nat,
    buf: Seq<u8>,
) -> Transition {
    if state == ParserState::Length {
        length_transition(max, buf)
    } else {
        data_transition(cur, buf)
    }
}

/// The returned value and the specified one carry the payload as `Vec<u8>`
/// and as `Seq<u8>`; this says they agree.
pub open spec fn result_agrees(
    r: Result<Option<Vec<u8>>, CodecError>,
    t: Result<Option<Seq<u8>>, CodecError>,
) -> bool {
    match r {
        Ok(Some(v)) => t == Ok::<Option<Seq<u8>>, CodecError>(Some(v@)),
        Ok(None) => t == Ok::<Option<Seq<u8>>, CodecError>(None),
        Err(e) => t == Err::<Option<Seq<u8>>, CodecError>(e),
    }
}

/// A netstring framing codec for one byte-stream direction pair. One
/// instance belongs to one connection and to one execution context at a
/// time; after any decode error it must not be reused.
pub struct NetstringCodec {
    /// Which part of a frame the parser is waiting for.
    pub state: ParserState,
    /// The declared payload length of the frame being assembled; meaningful
    /// only in `ParserState::Data`, reset to 0 on frame completion.
    pub current_length: usize,
    /// Upper bound on payload size, fixed at construction. Guards against
    /// peers that declare huge frames.
    pub max_length: usize,
    /// Advisory policy flag: whether the caller intends to drop the
    /// connection on a codec error. Stored, never read by the parser.
    pub disconnect_on_error: bool,
}

/// `find_colon` finds exactly the first `:`: a found index carries a `:`
/// with none before it, and `None` means the whole sequence has none.
pub proof fn lemma_find_colon_characterization(s: Seq<u8>)
    ensures
        match find_colon(s) {
            Some(k) => {
                &&& 0 <= k < s.len()
                &&& s[k] == 58
                &&& forall|j: int| 0 <= j < k ==> s[j] != 58
            },
            None => forall|j: int| 0 <= j < s.len() ==> s[j] != 58,
        },
    decreases s.len(),
{
    if s.len() == 0 {
    } else if s[0] == 58 {
    } else {
        lemma_find_colon_characterization(s.drop_first());
        match find_colon(s.drop_first()) {
            Some(i) => {
                assert(s[i + 1] == s.drop_first()[i]);
                assert forall|j: int| 0 <= j < i + 1 implies s[j] != 58 by {
                    if j > 0 {
                        assert(s[j] == s.drop_first()[j - 1]);
                    }
                }
            },
            None => {
                assert forall|j: int| 0 <= j < s.len() implies s[j] != 58 by {
                    if j > 0 {
                        assert(s[j] == s.drop_first()[j - 1]);
                    }
                }
            },
        }
    }
}

/// Reading a prefix of a decimal numeral never yields a larger value than
/// reading the whole numeral: appending digits only grows the value.
pub proof fn lemma_dec_value_take_monotone(s: Seq<u8>, i: int)
    requires
        0 <= i <= s.len(),
    ensures
        dec_value(s.take(i)) <= dec_value(s),
    decreases s.len() - i,
{
    if i == s.len() {
        assert(s.take(i) =~= s);
    } else {
        lemma_dec_value_take_monotone(s, i + 1);
        assert(s.take(i + 1).drop_last() =~= s.take(i));
        assert(dec_value(s.take(i + 1)) == dec_value(s.take(i)) * 10 + (s.take(i + 1).last()
            - 48) as nat);
    }
}

/// Parse the first `k` bytes of `v` as the decimal length field: rejected
/// when empty or holding a non-digit, rejected as too large when its value
/// exceeds `max`, and returned otherwise.
fn parse_len_field(v: &Vec<u8>, k: usize, max: usize) -> (r: Result<usize, CodecError>)
    requires
        k < v@.len(),
    ensures
        ({
            let field = v@.take(k as int);
            &&& (k == 0 || !all_digits(field)) ==> r == Err::<usize, CodecError>(
                CodecError::InvalidLengthDigits,
            )
            &&& (k != 0 && all_digits(field) && dec_value(field) > max) ==> r == Err::<
                usize,
                CodecError,
            >(CodecError::PayloadTooLarge)
            &&& (k != 0 && all_digits(field) && dec_value(field) <= max) ==> (r matches Ok(n)
                && n == dec_value(field))
        }),
{
    if k == 0 {
        return Err(CodecError::InvalidLengthDigits);
    }
    let ghost field = v@.take(k as int);
    let mut i: usize = 0;
    while i < k
        invariant
            i <= k,
            k < v@.len(),
            field == v@.take(k as int),
            forall|j: int| 0 <= j < i ==> is_digit(v@[j]),
        decreases k - i,
    {
        let b = v[i];
        if b < 48 || b > 57 {
            proof {
                assert(field.len() == k as int);
                assert(field[i as int] == v@[i as int]);
                assert(!all_digits(field)) by {
                    assert(!is_digit(field[i as int]));
                }
            }
            return Err(CodecError::InvalidLengthDigits);
        }
        i += 1;
    }
    assert(all_digits(field));
    let mut acc: u128 = 0;
    let mut i: usize = 0;
    while i < k
        invariant
            i <= k,
            k < v@.len(),
            field == v@.take(k as int),
            all_digits(field),
            acc == dec_value(v@.take(i as int)),
            acc <= max as u128,
        decreases k - i,
    {
        let b = v[i];
        assert(is_digit(field[i as int]));
        let next: u128 = acc * 10 + (b - 48) as u128;
        proof {
            assert(v@.take(i as int + 1).drop_last() =~= v@.take(i as int));
            assert(v@.take(i as int + 1).last() == v@[i as int]);
        }
        if next > max as u128 {
            proof {
                assert(field.take(i as int + 1) =~= v@.take(i as int + 1));
                lemma_dec_value_take_monotone(field, i as int + 1);
            }
            return Err(CodecError::PayloadTooLarge);
        }
        acc = next;
        i += 1;
    }
    assert(v@.take(k as int) =~= field);
    Ok(acc as usize)
}

impl NetstringCodec {
    /// A fresh codec, waiting for the first frame's length field.
    pub fn new(max_length: usize, disconnect_on_error: bool) -> (r: Self)
        ensures
            r.state == ParserState::Length,
            r.current_length == 0,
            r.max_length == max_length,
            r.disconnect_on_error == disconnect_on_error,
    {
        NetstringCodec {
            state: ParserState::Length,
            current_length: 0,
            max_length,
            disconnect_on_error,
        }
    }

    /// The codec's invariant: once a length is known it is within the
    /// limit, and while a length field is awaited no length is pending.
    pub open spec fn wf(&self) -> bool {
        &&& self.current_length <= self.max_length
        &&& self.state == ParserState::Length ==> self.current_length == 0
    }

    /// Append the frame that carries `item` to `dst`, unless the payload is
    /// at or above the configured limit. Pure and stateless: the parser
    /// state is neither consulted nor changed.
    pub fn encode(&mut self, item: Vec<u8>, dst: &mut bytes::BytesMut) -> (r: Result<
        (),
        CodecError,
    >)
        ensures
            *final(self) == *old(self),
            item@.len() >= old(self).max_length ==> {
                &&& r == Err::<(), CodecError>(CodecError::PayloadTooLarge)
                &&& bm_contents(*final(dst)) == bm_contents(*old(dst))
            },
            item@.len() < old(self).max_length ==> {
                &&& r == Ok::<(), CodecError>(())
                &&& bm_contents(*final(dst)) == bm_contents(*old(dst)) + encoding(item@)
            },
    {
        if item.len() >= self.max_length {
            return Err(CodecError::PayloadTooLarge);
        }
        let frame = build_frame(&item);
        bm_extend_from_slice(dst, frame.as_slice());
        Ok(())
    }

    /// One incremental decode step: consume zero or more bytes from the
    /// front of `buf` and report no complete frame yet, exactly one decoded
    /// payload, or the error that makes the stream uninterpretable. What is
    /// returned, consumed and left behind is exactly `decode_transition` of
    /// the state and buffer at entry. After an error the instance must not
    /// be used for further decoding.
    pub fn decode(&mut self, buf: &mut bytes::BytesMut) -> (r: Result<Option<Vec<u8>>, CodecError>)
        requires
            old(self).wf(),
        ensures
            final(self).wf(),
            final(self).max_length == old(self).max_length,
            final(self).disconnect_on_error == old(self).disconnect_on_error,
            ({
                let t = decode_transition(
                    old(self).state,
                    old(self).current_length as nat,
                    old(self).max_length as nat,
                    bm_contents(*old(buf)),
                );
                &&& result_agrees(r, t.result)
                &&& final(self).state == t.state
                &&& final(self).current_length as nat == t.current_length
                &&& bm_contents(*final(buf)) == t.buf
            }),
    {
        self.parse_length(buf)
    }

    /// The length-field phase of one decode step; falls through to the data
    /// phase within the same call once the length is known.
    fn parse_length(&mut self, buf: &mut bytes::BytesMut) -> (r: Result<Option<Vec<u8>>, CodecError>)
        requires
            old(self).wf(),
        ensures
            final(self).wf(),
            final(self).max_length == old(self).max_length,
            final(self).disconnect_on_error == old(self).disconnect_on_error,
            ({
                let t = decode_transition(
                    old(self).state,
                    old(self).current_length as nat,
                    old(self).max_length as nat,
                    bm_contents(*old(buf)),
                );
                &&& result_agrees(r, t.result)
                &&& final(self).state == t.state
                &&& final(self).current_length as nat == t.current_length
                &&& bm_contents(*final(buf)) == t.buf
            }),
    {
        proof {
            lemma_find_colon_characterization(bm_contents(*buf));
        }
        if self.state == ParserState::Length {
            match bm_find_colon(buf) {
                Some(k) => {
                    let header = bm_split_to(buf, k + 1);
                    let header_vec = bm_to_vec(&header);
                    proof {
                        assert(header_vec@.take(k as int) =~= bm_contents(*old(buf)).take(
                            k as int,
                        ));
                    }
                    match parse_len_field(&header_vec, k, self.max_length) {
                        Ok(n) => {
                            self.current_length = n;
                            self.state = ParserState::Data;
                        },
                        Err(e) => {
                            return Err(e);
                        },
                    }
                },
                None => {
                    if bm_len(buf) >= 9 {
                        return Err(CodecError::LengthFieldTooLong);
                    }
                    return Ok(None);
                },
            }
        }
        self.parse_data(buf)
    }

    /// The payload phase of one decode step: wait for the declared number
    /// of payload bytes plus the trailing delimiter, then yield the payload.
    fn parse_data(&mut self, buf: &mut bytes::BytesMut) -> (r: Result<Option<Vec<u8>>, CodecError>)
        requires
            old(self).wf(),
            old(self).state == ParserState::Data,
        ensures
            final(self).wf(),
            final(self).max_length == old(self).max_length,
            final(self).disconnect_on_error == old(self).disconnect_on_error,
            ({
                let t = data_transition(
                    old(self).current_length as nat,
                    bm_contents(*old(buf)),
                );
                &&& result_agrees(r, t.result)
                &&& final(self).state == t.state
                &&& final(self).current_length as nat == t.current_length
                &&& bm_contents(*final(buf)) == t.buf
            }),
    {
        let blen = bm_len(buf);
        if blen > self.current_length {
            let chunk = bm_split_to(buf, self.current_length + 1);
            let mut data = bm_to_vec(&chunk);
            let last = data[self.current_length];
            if last != 44 {
                return Err(CodecError::MissingTrailingDelimiter);
            }
            data.truncate(self.current_length);
            proof {
                assert(data@ =~= bm_contents(*old(buf)).take(
                    old(self).current_length as int,
                ));
            }
            self.state = ParserState::Length;
            self.current_length = 0;
            Ok(Some(data))
        } else {
            Ok(None)
        }
    }
}

/// The shortest ASCII decimal numeral of `n`, as bytes.
pub fn usize_to_decimal(n: usize) -> (r: Vec<u8>)
    ensures
        r@ == dec_repr(n as nat),
    decreases n,
{
    if n < 10 {
        let mut v: Vec<u8> = Vec::new();
        v.push(48 + n as u8);
        proof {
            assert(v@ =~= dec_repr(n as nat));
        }
        v
    } else {
        let mut v = usize_to_decimal(n / 10);
        v.push(48 + (n % 10) as u8);
        proof {
            assert(v@ =~= dec_repr(n as nat));
        }
        v
    }
}

/// The complete frame that carries `item`: decimal length, `:`, the payload
/// bytes unescaped and uninterpreted, and the trailing `,`.
pub fn build_frame(item: &Vec<u8>) -> (r: Vec<u8>)
    ensures
        r@ == encoding(item@),
{
    let mut frame = usize_to_decimal(item.len());
    frame.push(58);
    frame.extend_from_slice(item.as_slice());
    frame.push(44);
    proof {
        assert(frame@ =~= encoding(item@));
    }
    frame
}

} // verus!
