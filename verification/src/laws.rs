//! Frame-level guarantees of the codec, proved once and for all over the
//! specification functions that `encode` and `decode` are contracted to:
//! round-tripping, pipelining of consecutive frames, and invariance under
//! arbitrary fragmentation of the byte stream.

use vstd::prelude::*;

use crate::CodecError;
use crate::codec::{
    ParserState, Transition, all_digits, data_transition, dec_repr, dec_value, decode_transition,
    encoding, find_colon, is_digit, lemma_find_colon_characterization,
};

verus! {

/// The decimal numeral of `n` is a non-empty run of digit bytes whose value
/// is `n` again; in particular it holds no `:`.
pub proof fn lemma_dec_repr_digits(n: nat)
    ensures
        dec_repr(n).len() >= 1,
        all_digits(dec_repr(n)),
        dec_value(dec_repr(n)) == n,
    decreases n,
{
    if n < 10 {
        assert(dec_repr(n) =~= seq![(48 + n) as u8]);
        assert(dec_repr(n).drop_last() =~= Seq::<u8>::empty());
        assert(dec_repr(n).last() == (48 + n) as u8);
        assert(dec_value(dec_repr(n)) == dec_value(Seq::<u8>::empty()) * 10 + ((48 + n) as u8
            - 48) as nat);
    } else {
        lemma_dec_repr_digits(n / 10);
        let prefix = dec_repr(n / 10);
        let whole = dec_repr(n);
        assert(whole =~= prefix.push((48 + n % 10) as u8));
        assert(whole.drop_last() =~= prefix);
        assert(whole.last() == (48 + n % 10) as u8);
        assert(dec_value(whole) == dec_value(prefix) * 10 + n % 10);
        assert((n / 10) * 10 + n % 10 == n);
        assert forall|i: int| 0 <= i < whole.len() implies is_digit(whole[i]) by {
            if i < prefix.len() {
                assert(whole[i] == prefix[i]);
            }
        }
    }
}

/// Ten to the `k`.
pub open spec fn pow10(k: nat) -> nat
    decreases k,
{
    if k == 0 {
        1
    } else {
        10 * pow10((k - 1) as nat)
    }
}

/// A number below ten to the `k` has a numeral of at most `k` digits.
pub proof fn lemma_dec_repr_len(n: nat, k: nat)
    requires
        k >= 1,
        n < pow10(k),
    ensures
        dec_repr(n).len() <= k,
    decreases n,
{
    if n < 10 {
    } else {
        assert(pow10(k) == 10 * pow10((k - 1) as nat));
        lemma_dec_repr_len(n / 10, (k - 1) as nat);
    }
}

/// Decoding a buffer that starts with the frame of `d` (declared length
/// within the limit) yields exactly `d` in one call, consumes exactly the
/// frame, and leaves the codec ready for the next frame.
pub proof fn lemma_decode_encoded_frame(d: Seq<u8>, rest: Seq<u8>, max: nat)
    requires
        d.len() <= max,
    ensures
        ({
            let t = decode_transition(ParserState::Length, 0, max, encoding(d) + rest);
            &&& t.result == Ok::<Option<Seq<u8>>, CodecError>(Some(d))
            &&& t.state == ParserState::Length
            &&& t.current_length == 0
            &&& t.buf == rest
        }),
{
    let numeral = dec_repr(d.len());
    let hdr = numeral.len() as int;
    let f = encoding(d) + rest;
    lemma_dec_repr_digits(d.len());
    assert(f[hdr] == 58);
    assert(forall|j: int| 0 <= j < hdr ==> f[j] == numeral[j]);
    assert(forall|j: int| 0 <= j < hdr ==> is_digit(#[trigger] f[j]) && f[j] != 58);
    lemma_find_colon_is(f, hdr);
    let field = f.take(hdr);
    assert(field =~= numeral);
    assert(dec_value(field) == d.len());
    let tail = f.skip(hdr + 1);
    assert(tail =~= d + seq![44u8] + rest);
    assert(tail.len() >= d.len() + 1);
    assert(tail[d.len() as int] == 44);
    assert(tail.take(d.len() as int) =~= d);
    assert(tail.skip(d.len() as int + 1) =~= rest);
}

/// When `s[k]` is a `:` and nothing before it is, `find_colon` finds `k`.
pub proof fn lemma_find_colon_is(s: Seq<u8>, k: int)
    requires
        0 <= k < s.len(),
        s[k] == 58,
        forall|j: int| 0 <= j < k ==> s[j] != 58,
    ensures
        find_colon(s) == Some(k),
{
    lemma_find_colon_characterization(s);
    match find_colon(s) {
        Some(i) => {
            if i < k {
                assert(s[i] != 58);
            } else if i > k {
                assert(s[k] != 58);
            }
        },
        None => {
            assert(s[k] != 58);
        },
    }
}

/// Round trip: the frame of any payload within the limit decodes back to
/// exactly that payload in a single call, leaving an empty buffer and a
/// codec ready for the next frame.
pub proof fn lemma_round_trip(d: Seq<u8>, max: nat)
    requires
        d.len() < max,
    ensures
        ({
            let t = decode_transition(ParserState::Length, 0, max, encoding(d));
            &&& t.result == Ok::<Option<Seq<u8>>, CodecError>(Some(d))
            &&& t.state == ParserState::Length
            &&& t.current_length == 0
            &&& t.buf == Seq::<u8>::empty()
        }),
{
    lemma_decode_encoded_frame(d, Seq::empty(), max);
    assert(encoding(d) + Seq::<u8>::empty() =~= encoding(d));
}

/// Pipelining: two consecutive frames in one buffer yield their payloads in
/// order across two successive decode calls, with no byte lost at the
/// boundary.
pub proof fn lemma_pipelining(d1: Seq<u8>, d2: Seq<u8>, max: nat)
    requires
        d1.len() < max,
        d2.len() < max,
    ensures
        ({
            let t1 = decode_transition(ParserState::Length, 0, max, encoding(d1) + encoding(d2));
            let t2 = decode_transition(t1.state, t1.current_length, max, t1.buf);
            &&& t1.result == Ok::<Option<Seq<u8>>, CodecError>(Some(d1))
            &&& t1.buf == encoding(d2)
            &&& t2.result == Ok::<Option<Seq<u8>>, CodecError>(Some(d2))
            &&& t2.buf == Seq::<u8>::empty()
            &&& t2.state == ParserState::Length
            &&& t2.current_length == 0
        }),
{
    lemma_decode_encoded_frame(d1, encoding(d2), max);
    lemma_round_trip(d2, max);
}

/// A mid-parse snapshot of a codec: its state, the declared length it
/// awaits, and the bytes it has retained.
pub ghost struct Config {
    pub state: ParserState,
    pub current_length: nat,
    pub buf: Seq<u8>,
}

/// The configuration a transition leaves behind.
pub open spec fn config_after(t: Transition) -> Config {
    Config { state: t.state, current_length: t.current_length, buf: t.buf }
}

/// Feed one arriving chunk: it joins the retained bytes and decode is
/// called once on the whole.
pub open spec fn feed(cfg: Config, max: nat, chunk: Seq<u8>) -> Transition {
    decode_transition(cfg.state, cfg.current_length, max, cfg.buf + chunk)
}

/// The outcome of feeding a run of chunks, one decode call per chunk: the
/// last call's transition, and whether every call before it reported no
/// frame yet.
pub ghost struct RunOutcome {
    pub last: Transition,
    pub prior_none: bool,
}

/// Feed the chunks in order, one decode call each.
pub open spec fn run_chunks(cfg: Config, max: nat, chunks: Seq<Seq<u8>>) -> RunOutcome
    recommends
        chunks.len() >= 1,
    decreases chunks.len(),
{
    let t = feed(cfg, max, chunks[0]);
    if chunks.len() <= 1 {
        RunOutcome { last: t, prior_none: true }
    } else {
        let rest = run_chunks(config_after(t), max, chunks.drop_first());
        RunOutcome {
            last: rest.last,
            prior_none: t.result == Ok::<Option<Seq<u8>>, CodecError>(None) && rest.prior_none,
        }
    }
}

/// What a fresh codec holds.
pub open spec fn initial_config() -> Config {
    Config { state: ParserState::Length, current_length: 0, buf: Seq::empty() }
}

/// `cfg` is what a codec reporting "no frame yet" holds after taking in the
/// first `j` bytes of the frame of `d`: either still collecting the length
/// field, or collecting payload bytes with the header consumed.
pub open spec fn mid_parse(d: Seq<u8>, cfg: Config, j: int) -> bool {
    let hdr = dec_repr(d.len()).len() as int + 1;
    let f = encoding(d);
    &&& 0 <= j < f.len()
    &&& if j < hdr {
        &&& cfg.state == ParserState::Length
        &&& cfg.current_length == 0
        &&& cfg.buf == f.take(j)
    } else {
        &&& cfg.state == ParserState::Data
        &&& cfg.current_length == d.len()
        &&& cfg.buf == f.subrange(hdr, j)
    }
}

/// The payload phase on the first `jj - hdr` bytes past the header of the
/// frame of `d`: done exactly when the whole frame is in.
proof fn lemma_data_phase(d: Seq<u8>, jj: int)
    requires
        dec_repr(d.len()).len() + 1 <= jj <= encoding(d).len(),
    ensures
        ({
            let hdr = dec_repr(d.len()).len() as int + 1;
            let f = encoding(d);
            let t = data_transition(d.len(), f.subrange(hdr, jj));
            &&& jj < f.len() ==> t == (Transition {
                result: Ok::<Option<Seq<u8>>, CodecError>(None),
                state: ParserState::Data,
                current_length: d.len(),
                buf: f.subrange(hdr, jj),
            })
            &&& jj == f.len() ==> t == (Transition {
                result: Ok::<Option<Seq<u8>>, CodecError>(Some(d)),
                state: ParserState::Length,
                current_length: 0,
                buf: Seq::<u8>::empty(),
            })
        }),
{
    let hdr = dec_repr(d.len()).len() as int + 1;
    let f = encoding(d);
    let part = f.subrange(hdr, jj);
    assert(f.len() == hdr + d.len() + 1);
    if jj == f.len() {
        assert(part.len() == d.len() + 1);
        assert(part[d.len() as int] == f[hdr + d.len()]);
        assert(f[hdr + d.len()] == 44);
        assert(part.take(d.len() as int) =~= d);
        assert(part.skip(d.len() as int + 1) =~= Seq::<u8>::empty());
    } else {
        assert(part.len() < d.len() + 1);
    }
}

/// One decode call on a mid-parse codec and the next arriving slice of the
/// frame: no frame yet and still mid-parse while bytes are missing, the
/// payload exactly when the last byte arrives.
proof fn lemma_feed_step(d: Seq<u8>, max: nat, cfg: Config, j: int, chunk: Seq<u8>)
    requires
        d.len() < max,
        d.len() < 100000000,
        mid_parse(d, cfg, j),
        chunk.len() >= 1,
        j + chunk.len() <= encoding(d).len(),
        chunk == encoding(d).subrange(j, j + chunk.len()),
    ensures
        ({
            let t = feed(cfg, max, chunk);
            let jj = j + chunk.len() as int;
            &&& jj < encoding(d).len() ==> t.result == Ok::<Option<Seq<u8>>, CodecError>(None)
                && mid_parse(d, config_after(t), jj)
            &&& jj == encoding(d).len() ==> {
                &&& t.result == Ok::<Option<Seq<u8>>, CodecError>(Some(d))
                &&& t.state == ParserState::Length
                &&& t.current_length == 0
                &&& t.buf == Seq::<u8>::empty()
            }
        }),
{
    let numeral = dec_repr(d.len());
    let hdr = numeral.len() as int + 1;
    let f = encoding(d);
    let jj = j + chunk.len() as int;
    let newbuf = cfg.buf + chunk;
    lemma_dec_repr_digits(d.len());
    assert(forall|i: int| 0 <= i < numeral.len() ==> f[i] == numeral[i]);
    assert(f.len() == hdr + d.len() + 1);
    if j < hdr {
        assert(newbuf =~= f.take(jj));
        if jj < hdr {
            assert(forall|i: int| 0 <= i < jj ==> is_digit(#[trigger] newbuf[i]));
            lemma_find_colon_characterization(newbuf);
            match find_colon(newbuf) {
                Some(k) => {
                    assert(is_digit(newbuf[k]));
                    assert(false);
                },
                None => {},
            }
            assert(pow10(8) == 100000000) by {
                reveal_with_fuel(pow10, 9);
            }
            lemma_dec_repr_len(d.len(), 8);
            assert(newbuf.len() < 9);
            assert(f.take(jj) =~= newbuf);
        } else {
            assert(newbuf[numeral.len() as int] == 58);
            assert(forall|i: int| 0 <= i < numeral.len() ==> is_digit(#[trigger] newbuf[i])
                && newbuf[i] != 58);
            lemma_find_colon_is(newbuf, numeral.len() as int);
            let field = newbuf.take(numeral.len() as int);
            assert(field =~= numeral);
            assert(newbuf.skip(hdr) =~= f.subrange(hdr, jj));
            lemma_data_phase(d, jj);
        }
    } else {
        assert(newbuf =~= f.subrange(hdr, jj));
        lemma_data_phase(d, jj);
    }
}

/// Feeding every remaining slice of the frame of `d`, one decode call per
/// chunk, reports no frame yet until the last chunk, which yields `d`.
proof fn lemma_run_from(d: Seq<u8>, max: nat, cfg: Config, j: int, chunks: Seq<Seq<u8>>)
    requires
        d.len() < max,
        d.len() < 100000000,
        mid_parse(d, cfg, j),
        chunks.len() >= 1,
        forall|i: int| 0 <= i < chunks.len() ==> #[trigger] chunks[i].len() >= 1,
        chunks.flatten() == encoding(d).skip(j),
    ensures
        ({
            let out = run_chunks(cfg, max, chunks);
            &&& out.prior_none
            &&& out.last.result == Ok::<Option<Seq<u8>>, CodecError>(Some(d))
            &&& out.last.state == ParserState::Length
            &&& out.last.current_length == 0
            &&& out.last.buf == Seq::<u8>::empty()
        }),
    decreases chunks.len(),
{
    let f = encoding(d);
    let c = chunks[0];
    let rest = chunks.drop_first();
    assert(chunks.flatten() == c + rest.flatten());
    assert(c + rest.flatten() == f.skip(j));
    assert(c.len() + rest.flatten().len() == f.len() - j);
    assert(c =~= f.subrange(j, j + c.len())) by {
        assert(forall|i: int| 0 <= i < c.len() ==> c[i] == (c + rest.flatten())[i]);
    }
    lemma_feed_step(d, max, cfg, j, c);
    let t = feed(cfg, max, c);
    let jj = j + c.len() as int;
    if chunks.len() == 1 {
        assert(rest.len() == 0);
        assert(rest.flatten() == Seq::<u8>::empty());
        assert(jj == f.len());
    } else {
        assert(rest.flatten() == rest[0] + rest.drop_first().flatten());
        assert(rest.flatten().len() >= rest[0].len() >= 1);
        assert(jj < f.len());
        assert(rest.flatten() =~= f.skip(jj)) by {
            assert(forall|i: int| 0 <= i < rest.flatten().len() ==> rest.flatten()[i] == (c
                + rest.flatten())[c.len() + i]);
        }
        lemma_run_from(d, max, config_after(t), jj, rest);
    }
}

/// Fragmentation invariance: however the frame of a payload `d` is split
/// into non-empty chunks, feeding them to a fresh codec one decode call per
/// chunk reports no frame yet on every call but the last, and the last call
/// yields exactly `d` — the same payload that feeding the whole frame at
/// once yields — with nothing retained and the codec ready for the next
/// frame. The length field must fit the parser's 8-digit budget, so `d` must
/// be shorter than 100000000 bytes: a longer payload's frame can be split so
/// that 9 bytes of its length field arrive without the `:`, which the budget
/// rejects.
pub proof fn lemma_fragmentation(d: Seq<u8>, max: nat, chunks: Seq<Seq<u8>>)
    requires
        d.len() < max,
        d.len() < 100000000,
        chunks.len() >= 1,
        forall|i: int| 0 <= i < chunks.len() ==> #[trigger] chunks[i].len() >= 1,
        chunks.flatten() == encoding(d),
    ensures
        ({
            let out = run_chunks(initial_config(), max, chunks);
            &&& out.prior_none
            &&& out.last.result == Ok::<Option<Seq<u8>>, CodecError>(Some(d))
            &&& out.last.result == decode_transition(
                ParserState::Length,
                0,
                max,
                encoding(d),
            ).result
            &&& out.last.state == ParserState::Length
            &&& out.last.current_length == 0
            &&& out.last.buf == Seq::<u8>::empty()
        }),
{
    lemma_dec_repr_digits(d.len());
    assert(Seq::<u8>::empty() =~= encoding(d).take(0));
    assert(encoding(d).skip(0) =~= encoding(d));
    lemma_run_from(d, max, initial_config(), 0, chunks);
    lemma_round_trip(d, max);
}

} // verus!
