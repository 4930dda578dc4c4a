//! Mathematical model of the codec.
//!
//! The encoders are specified by recursive functions that build the encoded
//! frame byte by byte. The decoders are specified by `escaped_scan` and
//! `non_escaped_scan`, which walk an encoded buffer exactly as the executable
//! scan loops do, and by the `decode_*_model` functions, which combine a scan
//! with the capacity of the output buffer to pin down the result of a decode
//! call completely.

use crate::DleEncoder;
use crate::DleError;
use crate::CR_CHAR;
use crate::DLE_CHAR;
use crate::ETX_CHAR;
use crate::STX_CHAR;
use vstd::prelude::*;

verus! {

/// True when the escaped mode stuffs this byte behind an escape marker with
/// the `+0x40` shift: the frame markers always, CR only when configured.
pub open spec fn is_shift_escaped(c: DleEncoder, b: u8) -> bool {
    b == STX_CHAR || b == ETX_CHAR || (c.escape_cr && b == CR_CHAR)
}

/// The bytes the escaped mode emits for one payload byte.
pub open spec fn escaped_bytes(c: DleEncoder, b: u8) -> Seq<u8> {
    if is_shift_escaped(c, b) {
        seq![DLE_CHAR, (b + 0x40) as u8]
    } else if b == DLE_CHAR {
        seq![DLE_CHAR, DLE_CHAR]
    } else {
        seq![b]
    }
}

/// The escaped-mode encoding of a whole payload, without frame markers.
pub open spec fn escaped_payload(c: DleEncoder, s: Seq<u8>) -> Seq<u8>
    decreases s.len(),
{
    if s.len() == 0 {
        Seq::empty()
    } else {
        escaped_bytes(c, s[0]) + escaped_payload(c, s.drop_first())
    }
}

/// Everything `encode_escaped` writes on success: the payload, between
/// single-byte frame markers when the codec is configured to add them.
pub open spec fn escaped_frame(c: DleEncoder, s: Seq<u8>) -> Seq<u8> {
    if c.add_stx_etx {
        seq![STX_CHAR] + escaped_payload(c, s) + seq![ETX_CHAR]
    } else {
        escaped_payload(c, s)
    }
}

/// The bytes the non-escaped mode emits for one payload byte: only the
/// escape byte itself is doubled.
pub open spec fn non_escaped_bytes(b: u8) -> Seq<u8> {
    if b == DLE_CHAR {
        seq![DLE_CHAR, DLE_CHAR]
    } else {
        seq![b]
    }
}

/// The non-escaped-mode encoding of a whole payload, without frame markers.
pub open spec fn non_escaped_payload(s: Seq<u8>) -> Seq<u8>
    decreases s.len(),
{
    if s.len() == 0 {
        Seq::empty()
    } else {
        non_escaped_bytes(s[0]) + non_escaped_payload(s.drop_first())
    }
}

/// Everything `encode_non_escaped` writes on success: the payload, between
/// two-byte frame markers when the codec is configured to add them.
pub open spec fn non_escaped_frame(c: DleEncoder, s: Seq<u8>) -> Seq<u8> {
    if c.add_stx_etx {
        seq![DLE_CHAR, STX_CHAR] + non_escaped_payload(s) + seq![DLE_CHAR, ETX_CHAR]
    } else {
        non_escaped_payload(s)
    }
}

/// The frame either encoder emits, chosen by the mode flag.
pub open spec fn encoded_frame(c: DleEncoder, s: Seq<u8>) -> Seq<u8> {
    if c.escape_stx_etx {
        escaped_frame(c, s)
    } else {
        non_escaped_frame(c, s)
    }
}

/// How a scan of a frame body ends.
pub enum ScanEvent {
    /// The end-of-frame marker was found at this index.
    Terminated(int),
    /// A fresh frame start collided with the unfinished frame at this index.
    FrameRestart(int),
    /// An invalid escape sequence begins at this index.
    BadEscape(int),
    /// The escape byte at this index is the last input byte, its partner missing.
    LoneEscape(int),
    /// The input ended before the frame did.
    Exhausted,
}

/// What a scan of a frame body yields: the payload bytes recovered before
/// the scan stopped, and why it stopped.
pub struct Scan {
    pub decoded: Seq<u8>,
    pub event: ScanEvent,
}

/// The escaped-mode scan, starting just past the leading start marker.
/// It mirrors the decoder's loop: the last input byte is only ever examined
/// as a frame terminator, never as the start of a payload token.
pub open spec fn escaped_scan(c: DleEncoder, s: Seq<u8>, i: int) -> Scan
    recommends
        1 <= i,
    decreases s.len() - i,
{
    if i >= s.len() {
        Scan { decoded: Seq::empty(), event: ScanEvent::Exhausted }
    } else if s[i] == ETX_CHAR {
        Scan { decoded: Seq::empty(), event: ScanEvent::Terminated(i) }
    } else if s[i] == STX_CHAR {
        Scan { decoded: Seq::empty(), event: ScanEvent::FrameRestart(i) }
    } else if i == s.len() - 1 {
        Scan { decoded: Seq::empty(), event: ScanEvent::Exhausted }
    } else if s[i] == DLE_CHAR {
        let nb = s[i + 1];
        if nb == DLE_CHAR {
            let rest = escaped_scan(c, s, i + 2);
            Scan { decoded: seq![DLE_CHAR] + rest.decoded, event: rest.event }
        } else if nb == STX_CHAR + 0x40 || nb == ETX_CHAR + 0x40 || (c.escape_cr && nb == CR_CHAR
            + 0x40) {
            let rest = escaped_scan(c, s, i + 2);
            Scan { decoded: seq![(nb - 0x40) as u8] + rest.decoded, event: rest.event }
        } else {
            Scan { decoded: Seq::empty(), event: ScanEvent::BadEscape(i) }
        }
    } else {
        let rest = escaped_scan(c, s, i + 1);
        Scan { decoded: seq![s[i]] + rest.decoded, event: rest.event }
    }
}

/// The non-escaped-mode scan, starting just past the two-byte start marker.
/// Only the escape byte opens a token of interest; every other byte is
/// payload as it stands.
pub open spec fn non_escaped_scan(s: Seq<u8>, i: int) -> Scan
    recommends
        2 <= i,
    decreases s.len() - i,
{
    if i >= s.len() {
        Scan { decoded: Seq::empty(), event: ScanEvent::Exhausted }
    } else if s[i] == DLE_CHAR {
        if i + 1 >= s.len() {
            Scan { decoded: Seq::empty(), event: ScanEvent::LoneEscape(i) }
        } else {
            let nb = s[i + 1];
            if nb == STX_CHAR {
                Scan { decoded: Seq::empty(), event: ScanEvent::FrameRestart(i) }
            } else if nb == DLE_CHAR {
                let rest = non_escaped_scan(s, i + 2);
                Scan { decoded: seq![DLE_CHAR] + rest.decoded, event: rest.event }
            } else if nb == ETX_CHAR {
                Scan { decoded: Seq::empty(), event: ScanEvent::Terminated(i) }
            } else {
                Scan { decoded: Seq::empty(), event: ScanEvent::BadEscape(i) }
            }
        }
    } else {
        let rest = non_escaped_scan(s, i + 1);
        Scan { decoded: seq![s[i]] + rest.decoded, event: rest.event }
    }
}

/// The result a decode call reports: the recovered payload or the error,
/// and how many leading input bytes the caller may regard as examined.
pub struct DecodeOutcome {
    pub result: Result<Seq<u8>, DleError>,
    pub read: int,
}

/// The exact behaviour of `decode_escaped` on any input and any output
/// capacity. A scan event is only reported when the output buffer held all
/// the payload bytes that precede it; a buffer that fills first makes the
/// result `StreamTooShort` with nothing consumed.
pub open spec fn decode_escaped_model(c: DleEncoder, input: Seq<u8>, cap: int) -> DecodeOutcome {
    if cap < 1 {
        DecodeOutcome { result: Err(DleError::StreamTooShort), read: 0 }
    } else if input.len() == 0 || input[0] != STX_CHAR {
        DecodeOutcome { result: Err(DleError::DecodingError), read: 0 }
    } else {
        let scan = escaped_scan(c, input, 1);
        let m = scan.decoded.len() as int;
        match scan.event {
            ScanEvent::Terminated(q) => if m <= cap {
                DecodeOutcome { result: Ok(scan.decoded), read: q + 1 }
            } else {
                DecodeOutcome { result: Err(DleError::StreamTooShort), read: 0 }
            },
            ScanEvent::FrameRestart(q) => if m < cap {
                DecodeOutcome { result: Err(DleError::DecodingError), read: q }
            } else {
                DecodeOutcome { result: Err(DleError::StreamTooShort), read: 0 }
            },
            ScanEvent::BadEscape(q) => if m < cap {
                DecodeOutcome { result: Err(DleError::DecodingError), read: q + 2 }
            } else {
                DecodeOutcome { result: Err(DleError::StreamTooShort), read: 0 }
            },
            ScanEvent::LoneEscape(q) => if m < cap {
                DecodeOutcome { result: Err(DleError::DecodingError), read: q }
            } else {
                DecodeOutcome { result: Err(DleError::StreamTooShort), read: 0 }
            },
            ScanEvent::Exhausted => if m < cap {
                DecodeOutcome { result: Err(DleError::DecodingError), read: input.len() as int }
            } else {
                DecodeOutcome { result: Err(DleError::StreamTooShort), read: 0 }
            },
        }
    }
}

/// The exact behaviour of `decode_non_escaped` on any input and any output
/// capacity. Unlike the escaped mode, the terminator is itself a two-byte
/// token, so recognizing it needs one spare byte of output capacity.
pub open spec fn decode_non_escaped_model(c: DleEncoder, input: Seq<u8>, cap: int) -> DecodeOutcome {
    if cap < 2 {
        DecodeOutcome { result: Err(DleError::StreamTooShort), read: 0 }
    } else if input.len() == 0 || input[0] != DLE_CHAR {
        DecodeOutcome { result: Err(DleError::DecodingError), read: 0 }
    } else if input.len() == 1 {
        DecodeOutcome { result: Err(DleError::DecodingError), read: 0 }
    } else if input[1] != STX_CHAR {
        DecodeOutcome { result: Err(DleError::DecodingError), read: 1 }
    } else {
        let scan = non_escaped_scan(input, 2);
        let m = scan.decoded.len() as int;
        match scan.event {
            ScanEvent::Terminated(q) => if m < cap {
                DecodeOutcome { result: Ok(scan.decoded), read: q + 2 }
            } else {
                DecodeOutcome { result: Err(DleError::StreamTooShort), read: 0 }
            },
            ScanEvent::FrameRestart(q) => if m < cap {
                DecodeOutcome { result: Err(DleError::DecodingError), read: q }
            } else {
                DecodeOutcome { result: Err(DleError::StreamTooShort), read: 0 }
            },
            ScanEvent::BadEscape(q) => if m < cap {
                DecodeOutcome { result: Err(DleError::DecodingError), read: q }
            } else {
                DecodeOutcome { result: Err(DleError::StreamTooShort), read: 0 }
            },
            ScanEvent::LoneEscape(q) => if m < cap {
                DecodeOutcome { result: Err(DleError::DecodingError), read: q }
            } else {
                DecodeOutcome { result: Err(DleError::StreamTooShort), read: 0 }
            },
            ScanEvent::Exhausted => if m < cap {
                DecodeOutcome { result: Err(DleError::DecodingError), read: input.len() as int }
            } else {
                DecodeOutcome { result: Err(DleError::StreamTooShort), read: 0 }
            },
        }
    }
}

/// Encoding a payload piece by piece is the same as encoding it whole.
pub proof fn lemma_escaped_payload_append(c: DleEncoder, a: Seq<u8>, b: Seq<u8>)
    ensures
        escaped_payload(c, a + b) == escaped_payload(c, a) + escaped_payload(c, b),
    decreases a.len(),
{
    if a.len() == 0 {
        assert(a + b =~= b);
        assert(escaped_payload(c, a) + escaped_payload(c, b) =~= escaped_payload(c, b));
    } else {
        lemma_escaped_payload_append(c, a.drop_first(), b);
        assert((a + b).drop_first() =~= a.drop_first() + b);
        assert(escaped_bytes(c, a[0]) + (escaped_payload(c, a.drop_first()) + escaped_payload(
            c,
            b,
        )) =~= (escaped_bytes(c, a[0]) + escaped_payload(c, a.drop_first())) + escaped_payload(
            c,
            b,
        ));
    }
}

/// One more payload byte appends that byte's encoding.
pub proof fn lemma_escaped_payload_push(c: DleEncoder, s: Seq<u8>, b: u8)
    ensures
        escaped_payload(c, s.push(b)) == escaped_payload(c, s) + escaped_bytes(c, b),
{
    lemma_escaped_payload_append(c, s, seq![b]);
    assert(s.push(b) =~= s + seq![b]);
    assert(seq![b].drop_first() =~= Seq::<u8>::empty());
    assert(escaped_payload(c, seq![b].drop_first()) =~= Seq::<u8>::empty());
    assert(escaped_payload(c, seq![b]) =~= escaped_bytes(c, b));
}

/// Each payload byte costs one or two encoded bytes.
pub proof fn lemma_escaped_payload_len(c: DleEncoder, s: Seq<u8>)
    ensures
        s.len() <= escaped_payload(c, s).len() <= 2 * s.len(),
    decreases s.len(),
{
    if s.len() > 0 {
        lemma_escaped_payload_len(c, s.drop_first());
    }
}

/// Encoding a payload piece by piece is the same as encoding it whole.
pub proof fn lemma_non_escaped_payload_append(a: Seq<u8>, b: Seq<u8>)
    ensures
        non_escaped_payload(a + b) == non_escaped_payload(a) + non_escaped_payload(b),
    decreases a.len(),
{
    if a.len() == 0 {
        assert(a + b =~= b);
        assert(non_escaped_payload(a) + non_escaped_payload(b) =~= non_escaped_payload(b));
    } else {
        lemma_non_escaped_payload_append(a.drop_first(), b);
        assert((a + b).drop_first() =~= a.drop_first() + b);
        assert(non_escaped_bytes(a[0]) + (non_escaped_payload(a.drop_first())
            + non_escaped_payload(b)) =~= (non_escaped_bytes(a[0]) + non_escaped_payload(
            a.drop_first(),
        )) + non_escaped_payload(b));
    }
}

/// One more payload byte appends that byte's encoding.
pub proof fn lemma_non_escaped_payload_push(s: Seq<u8>, b: u8)
    ensures
        non_escaped_payload(s.push(b)) == non_escaped_payload(s) + non_escaped_bytes(b),
{
    lemma_non_escaped_payload_append(s, seq![b]);
    assert(s.push(b) =~= s + seq![b]);
    assert(seq![b].drop_first() =~= Seq::<u8>::empty());
    assert(non_escaped_payload(seq![b].drop_first()) =~= Seq::<u8>::empty());
    assert(non_escaped_payload(seq![b]) =~= non_escaped_bytes(b));
}

/// Each payload byte costs one or two encoded bytes.
pub proof fn lemma_non_escaped_payload_len(s: Seq<u8>)
    ensures
        s.len() <= non_escaped_payload(s).len() <= 2 * s.len(),
    decreases s.len(),
{
    if s.len() > 0 {
        lemma_non_escaped_payload_len(s.drop_first());
    }
}

/// The behaviour of the mode-dispatching `decode`.
pub open spec fn decode_model(c: DleEncoder, input: Seq<u8>, cap: int) -> DecodeOutcome {
    if c.escape_stx_etx {
        decode_escaped_model(c, input, cap)
    } else {
        decode_non_escaped_model(c, input, cap)
    }
}

} // verus!
