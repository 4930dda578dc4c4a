//! The laws of the codec: what decoding gives back for an encoded frame,
//! where the frame markers can appear in one, and how a truncated frame is
//! reported. Each law is stated over the spec functions that the contracts
//! of `encode` and `decode` use.

use crate::model::decode_escaped_model;
use crate::model::decode_non_escaped_model;
use crate::model::escaped_bytes;
use crate::model::escaped_frame;
use crate::model::escaped_payload;
use crate::model::escaped_scan;
use crate::model::is_shift_escaped;
use crate::model::non_escaped_bytes;
use crate::model::non_escaped_frame;
use crate::model::non_escaped_payload;
use crate::model::non_escaped_scan;
use crate::model::DecodeOutcome;
use crate::model::ScanEvent;
use crate::DleEncoder;
use crate::DleError;
use crate::DLE_CHAR;
use crate::ETX_CHAR;
use crate::STX_CHAR;
use vstd::prelude::*;

verus! {

/// No byte of an escaped payload is a start or end marker: stuffed bytes
/// are shifted out of the marker range and everything else was no marker
/// to begin with.
proof fn lemma_escaped_payload_free_of_markers(c: DleEncoder, s: Seq<u8>)
    ensures
        forall|j: int|
            0 <= j < escaped_payload(c, s).len() ==> #[trigger] escaped_payload(c, s)[j]
                != STX_CHAR && escaped_payload(c, s)[j] != ETX_CHAR,
    decreases s.len(),
{
    if s.len() > 0 {
        lemma_escaped_payload_free_of_markers(c, s.drop_first());
        let p = escaped_payload(c, s);
        let head = escaped_bytes(c, s[0]);
        let tail = escaped_payload(c, s.drop_first());
        assert(p == head + tail);
        assert forall|j: int| 0 <= j < p.len() implies #[trigger] p[j] != STX_CHAR && p[j]
            != ETX_CHAR by {
            if j < head.len() {
                assert(p[j] == head[j]);
            } else {
                assert(p[j] == tail[j - head.len()]);
            }
        }
    }
}

/// Scanning a buffer that carries an encoded payload walks straight over
/// it: the payload bytes come back decoded and the scan goes on behind
/// them. The byte after the payload must exist, since the scan treats the
/// last buffer byte specially.
proof fn lemma_escaped_scan_frame(c: DleEncoder, e: Seq<u8>, i: int, s: Seq<u8>)
    requires
        1 <= i,
        i + escaped_payload(c, s).len() <= e.len() - 1,
        e.subrange(i, i + escaped_payload(c, s).len() as int) == escaped_payload(c, s),
    ensures
        escaped_scan(c, e, i).decoded == s + escaped_scan(
            c,
            e,
            i + escaped_payload(c, s).len() as int,
        ).decoded,
        escaped_scan(c, e, i).event == escaped_scan(
            c,
            e,
            i + escaped_payload(c, s).len() as int,
        ).event,
    decreases s.len(),
{
    let p = escaped_payload(c, s);
    if s.len() == 0 {
        assert(s + escaped_scan(c, e, i).decoded =~= escaped_scan(c, e, i).decoded);
    } else {
        let b = s[0];
        let head = escaped_bytes(c, b);
        let s2 = s.drop_first();
        let p2 = escaped_payload(c, s2);
        assert(p == head + p2);
        assert(e.subrange(i, i + p.len() as int)[0] == e[i]);
        assert(e[i] == head[0]);
        let i2 = i + head.len() as int;
        assert(e.subrange(i2, i2 + p2.len() as int) =~= p2) by {
            assert forall|j: int| 0 <= j < p2.len() implies e.subrange(
                i2,
                i2 + p2.len() as int,
            )[j] == p2[j] by {
                assert(e.subrange(i2, i2 + p2.len() as int)[j] == e[i2 + j]);
                assert(e[i2 + j] == e.subrange(i, i + p.len() as int)[head.len() + j]);
                assert(p[head.len() + j] == p2[j]);
            }
        }
        lemma_escaped_scan_frame(c, e, i2, s2);
        if is_shift_escaped(c, b) {
            assert(e.subrange(i, i + p.len() as int)[1] == e[i + 1]);
            assert(e[i + 1] == head[1]);
            assert(escaped_scan(c, e, i).decoded == seq![b] + escaped_scan(c, e, i2).decoded);
        } else if b == DLE_CHAR {
            assert(e.subrange(i, i + p.len() as int)[1] == e[i + 1]);
            assert(e[i + 1] == head[1]);
            assert(escaped_scan(c, e, i).decoded == seq![b] + escaped_scan(c, e, i2).decoded);
        } else {
            assert(escaped_scan(c, e, i).decoded == seq![b] + escaped_scan(c, e, i2).decoded);
        }
        assert(escaped_scan(c, e, i).decoded =~= s + escaped_scan(
            c,
            e,
            i + p.len() as int,
        ).decoded) by {
            assert(seq![b] + (s2 + escaped_scan(c, e, i2 + p2.len() as int).decoded) =~= s
                + escaped_scan(c, e, i + p.len() as int).decoded);
        }
    }
}

/// Round trip in the escaped mode: a frame that `encode_escaped` emits,
/// decoded with an output buffer at least as large as the original payload,
/// gives back exactly that payload, and the whole frame counts as read.
/// This holds for every payload when the codec adds frame markers, with CR
/// escaping on or off.
pub proof fn lemma_escaped_round_trip(c: DleEncoder, s: Seq<u8>, cap: int)
    requires
        c.add_stx_etx,
        cap >= 1,
        cap >= s.len(),
    ensures
        decode_escaped_model(c, escaped_frame(c, s), cap) == (DecodeOutcome {
            result: Ok(s),
            read: escaped_frame(c, s).len() as int,
        }),
{
    let p = escaped_payload(c, s);
    let e = escaped_frame(c, s);
    assert(e == seq![STX_CHAR] + p + seq![ETX_CHAR]);
    assert(e.len() == p.len() + 2);
    assert(e[0] == STX_CHAR);
    assert(e[e.len() - 1] == ETX_CHAR);
    assert(e.subrange(1, 1 + p.len() as int) =~= p);
    lemma_escaped_scan_frame(c, e, 1, s);
    assert(escaped_scan(c, e, e.len() - 1).event == ScanEvent::Terminated(e.len() - 1));
    assert(escaped_scan(c, e, 1).decoded =~= s);
}

/// No embedded delimiters: in the escaped mode with frame markers, the only
/// start and end marker bytes of an encoded frame stand at its first and
/// last index, whatever the payload.
pub proof fn lemma_no_embedded_delimiters(c: DleEncoder, s: Seq<u8>)
    requires
        c.add_stx_etx,
    ensures
        escaped_frame(c, s).len() >= 2,
        escaped_frame(c, s)[0] == STX_CHAR,
        escaped_frame(c, s)[escaped_frame(c, s).len() - 1] == ETX_CHAR,
        forall|j: int|
            0 < j < escaped_frame(c, s).len() - 1 ==> #[trigger] escaped_frame(c, s)[j] != STX_CHAR
                && escaped_frame(c, s)[j] != ETX_CHAR,
{
    lemma_escaped_payload_free_of_markers(c, s);
    let p = escaped_payload(c, s);
    let e = escaped_frame(c, s);
    assert(e == seq![STX_CHAR] + p + seq![ETX_CHAR]);
    assert forall|j: int| 0 < j < e.len() - 1 implies #[trigger] e[j] != STX_CHAR && e[j]
        != ETX_CHAR by {
        assert(e[j] == p[j - 1]);
    }
}

/// Scanning a buffer that carries a non-escaped-mode encoded payload walks
/// straight over it: the payload bytes come back decoded and the scan goes
/// on behind them.
proof fn lemma_non_escaped_scan_frame(e: Seq<u8>, i: int, s: Seq<u8>)
    requires
        2 <= i,
        i + non_escaped_payload(s).len() <= e.len(),
        e.subrange(i, i + non_escaped_payload(s).len() as int) == non_escaped_payload(s),
    ensures
        non_escaped_scan(e, i).decoded == s + non_escaped_scan(
            e,
            i + non_escaped_payload(s).len() as int,
        ).decoded,
        non_escaped_scan(e, i).event == non_escaped_scan(
            e,
            i + non_escaped_payload(s).len() as int,
        ).event,
    decreases s.len(),
{
    let p = non_escaped_payload(s);
    if s.len() == 0 {
        assert(s + non_escaped_scan(e, i).decoded =~= non_escaped_scan(e, i).decoded);
    } else {
        let b = s[0];
        let head = non_escaped_bytes(b);
        let s2 = s.drop_first();
        let p2 = non_escaped_payload(s2);
        assert(p == head + p2);
        assert(e.subrange(i, i + p.len() as int)[0] == e[i]);
        assert(e[i] == head[0]);
        let i2 = i + head.len() as int;
        assert(e.subrange(i2, i2 + p2.len() as int) =~= p2) by {
            assert forall|j: int| 0 <= j < p2.len() implies e.subrange(
                i2,
                i2 + p2.len() as int,
            )[j] == p2[j] by {
                assert(e.subrange(i2, i2 + p2.len() as int)[j] == e[i2 + j]);
                assert(e[i2 + j] == e.subrange(i, i + p.len() as int)[head.len() + j]);
                assert(p[head.len() + j] == p2[j]);
            }
        }
        lemma_non_escaped_scan_frame(e, i2, s2);
        if b == DLE_CHAR {
            assert(e.subrange(i, i + p.len() as int)[1] == e[i + 1]);
            assert(e[i + 1] == head[1]);
            assert(non_escaped_scan(e, i).decoded == seq![b] + non_escaped_scan(e, i2).decoded);
        } else {
            assert(non_escaped_scan(e, i).decoded == seq![b] + non_escaped_scan(e, i2).decoded);
        }
        assert(non_escaped_scan(e, i).decoded =~= s + non_escaped_scan(
            e,
            i + p.len() as int,
        ).decoded) by {
            assert(seq![b] + (s2 + non_escaped_scan(e, i2 + p2.len() as int).decoded) =~= s
                + non_escaped_scan(e, i + p.len() as int).decoded);
        }
    }
}

/// Round trip in the non-escaped mode: a frame that `encode_non_escaped`
/// emits, decoded with an output buffer strictly larger than the original
/// payload, gives back exactly that payload, and the whole frame counts as
/// read. This holds for every payload when the codec adds frame markers.
pub proof fn lemma_non_escaped_round_trip(c: DleEncoder, s: Seq<u8>, cap: int)
    requires
        c.add_stx_etx,
        cap >= 2,
        cap > s.len(),
    ensures
        decode_non_escaped_model(c, non_escaped_frame(c, s), cap) == (DecodeOutcome {
            result: Ok(s),
            read: non_escaped_frame(c, s).len() as int,
        }),
{
    let p = non_escaped_payload(s);
    let e = non_escaped_frame(c, s);
    assert(e == seq![DLE_CHAR, STX_CHAR] + p + seq![DLE_CHAR, ETX_CHAR]);
    assert(e.len() == p.len() + 4);
    assert(e[0] == DLE_CHAR);
    assert(e[1] == STX_CHAR);
    assert(e[e.len() - 2] == DLE_CHAR);
    assert(e[e.len() - 1] == ETX_CHAR);
    assert(e.subrange(2, 2 + p.len() as int) =~= p);
    lemma_non_escaped_scan_frame(e, 2, s);
    assert(non_escaped_scan(e, e.len() - 2).event == ScanEvent::Terminated(e.len() - 2));
    assert(non_escaped_scan(e, 2).decoded =~= s);
}

/// Scanning a buffer that ends somewhere inside an escaped payload — at a
/// token boundary or in the middle of an escape pair — always runs out of
/// input, and never yields more bytes than the payload held.
proof fn lemma_escaped_scan_partial(c: DleEncoder, e: Seq<u8>, i: int, s: Seq<u8>)
    requires
        1 <= i <= e.len(),
        e.len() - i <= escaped_payload(c, s).len(),
        e.subrange(i, e.len() as int) == escaped_payload(c, s).take(e.len() - i),
    ensures
        escaped_scan(c, e, i).event == ScanEvent::Exhausted,
        escaped_scan(c, e, i).decoded.len() <= s.len(),
    decreases s.len(),
{
    let p = escaped_payload(c, s);
    let rem = e.len() - i;
    if rem == 0 {
    } else {
        let b = s[0];
        let head = escaped_bytes(c, b);
        let s2 = s.drop_first();
        let p2 = escaped_payload(c, s2);
        assert(p == head + p2);
        assert(e.subrange(i, e.len() as int)[0] == e[i]);
        assert(p.take(rem)[0] == p[0]);
        assert(e[i] == head[0]);
        if rem < head.len() {
            // The cut split an escape pair: its first byte is the escape
            // byte, standing last in the buffer, which the scan refuses to
            // treat as a token.
            assert(head.len() == 2 && rem == 1);
            assert(e[i] == DLE_CHAR);
            assert(i == e.len() - 1);
        } else if rem == 1 && head.len() == 1 {
            // A whole one-byte token, but standing at the last index, which
            // the scan only ever reads as a terminator candidate.
            assert(e[i] == b);
            assert(i == e.len() - 1);
            assert(!is_shift_escaped(c, b) && b != DLE_CHAR);
        } else {
            let i2 = i + head.len() as int;
            assert(e.subrange(i2, e.len() as int) =~= p2.take(e.len() - i2)) by {
                assert forall|j: int| 0 <= j < e.len() - i2 implies e.subrange(
                    i2,
                    e.len() as int,
                )[j] == p2.take(e.len() - i2)[j] by {
                    assert(e.subrange(i2, e.len() as int)[j] == e[i2 + j]);
                    assert(e[i2 + j] == e.subrange(i, e.len() as int)[head.len() + j]);
                    assert(p.take(rem)[head.len() + j] == p[head.len() + j]);
                    assert(p[head.len() + j] == p2[j]);
                }
            }
            if head.len() == 2 {
                assert(e.subrange(i, e.len() as int)[1] == e[i + 1]);
                assert(p.take(rem)[1] == p[1]);
                assert(e[i + 1] == head[1]);
            }
            lemma_escaped_scan_partial(c, e, i2, s2);
            assert(escaped_scan(c, e, i).decoded == seq![b] + escaped_scan(c, e, i2).decoded);
        }
    }
}

/// Truncated input, escaped mode: decoding any proper prefix of an encoded
/// frame — the end marker is then missing — fails with `DecodingError`, not
/// with success and not with `StreamTooShort`, and reports the full input
/// length as examined, provided the output buffer is larger than the
/// payload.
pub proof fn lemma_truncated_input_escaped(c: DleEncoder, s: Seq<u8>, k: int, cap: int)
    requires
        c.add_stx_etx,
        0 <= k < escaped_frame(c, s).len(),
        cap > s.len(),
    ensures
        decode_escaped_model(c, escaped_frame(c, s).take(k), cap) == (DecodeOutcome {
            result: Err(DleError::DecodingError),
            read: k,
        }),
{
    let p = escaped_payload(c, s);
    let e = escaped_frame(c, s);
    let t = e.take(k);
    assert(e == seq![STX_CHAR] + p + seq![ETX_CHAR]);
    assert(e.len() == p.len() + 2);
    if k == 0 {
    } else {
        assert(t[0] == e[0]);
        assert(e[0] == STX_CHAR);
        assert(t.subrange(1, t.len() as int) =~= p.take(k - 1)) by {
            assert forall|j: int| 0 <= j < k - 1 implies t.subrange(1, t.len() as int)[j] == p.take(
                k - 1,
            )[j] by {
                assert(t.subrange(1, t.len() as int)[j] == t[1 + j]);
                assert(t[1 + j] == e[1 + j]);
                assert(e[1 + j] == p[j]);
            }
        }
        lemma_escaped_scan_partial(c, t, 1, s);
    }
}

/// Scanning a buffer that ends somewhere inside a non-escaped-mode payload
/// either runs out of input, or stops at an escape byte left alone at the
/// very end by a cut through a doubled pair; it never yields more bytes
/// than the payload held.
proof fn lemma_non_escaped_scan_partial(e: Seq<u8>, i: int, s: Seq<u8>)
    requires
        2 <= i <= e.len(),
        e.len() - i <= non_escaped_payload(s).len(),
        e.subrange(i, e.len() as int) == non_escaped_payload(s).take(e.len() - i),
    ensures
        non_escaped_scan(e, i).event == ScanEvent::Exhausted || non_escaped_scan(e, i).event
            == ScanEvent::LoneEscape(e.len() - 1),
        non_escaped_scan(e, i).decoded.len() <= s.len(),
    decreases s.len(),
{
    let p = non_escaped_payload(s);
    let rem = e.len() - i;
    if rem == 0 {
    } else {
        let b = s[0];
        let head = non_escaped_bytes(b);
        let s2 = s.drop_first();
        let p2 = non_escaped_payload(s2);
        assert(p == head + p2);
        assert(e.subrange(i, e.len() as int)[0] == e[i]);
        assert(p.take(rem)[0] == p[0]);
        assert(e[i] == head[0]);
        if rem < head.len() {
            // The cut split a doubled escape pair: its first byte stands
            // last in the buffer, with no partner to read.
            assert(head.len() == 2 && rem == 1);
            assert(e[i] == DLE_CHAR);
            assert(i == e.len() - 1);
        } else {
            let i2 = i + head.len() as int;
            assert(e.subrange(i2, e.len() as int) =~= p2.take(e.len() - i2)) by {
                assert forall|j: int| 0 <= j < e.len() - i2 implies e.subrange(
                    i2,
                    e.len() as int,
                )[j] == p2.take(e.len() - i2)[j] by {
                    assert(e.subrange(i2, e.len() as int)[j] == e[i2 + j]);
                    assert(e[i2 + j] == e.subrange(i, e.len() as int)[head.len() + j]);
                    assert(p.take(rem)[head.len() + j] == p[head.len() + j]);
                    assert(p[head.len() + j] == p2[j]);
                }
            }
            if head.len() == 2 {
                assert(e.subrange(i, e.len() as int)[1] == e[i + 1]);
                assert(p.take(rem)[1] == p[1]);
                assert(e[i + 1] == head[1]);
            }
            lemma_non_escaped_scan_partial(e, i2, s2);
            assert(non_escaped_scan(e, i).decoded == seq![b] + non_escaped_scan(e, i2).decoded);
        }
    }
}

/// Truncated input, non-escaped mode: decoding any proper prefix of an
/// encoded frame fails with `DecodingError`, not with success and not with
/// `StreamTooShort`, provided the output buffer is larger than the payload.
/// The count of examined bytes is the full input length, except when the
/// cut splits one of the two-byte units — the leading marker pair, a
/// doubled escape byte, or the trailing marker pair — whose first byte is
/// then left unexamined for the caller to re-present.
pub proof fn lemma_truncated_input_non_escaped(c: DleEncoder, s: Seq<u8>, k: int, cap: int)
    requires
        c.add_stx_etx,
        0 <= k < non_escaped_frame(c, s).len(),
        cap >= 2,
        cap > s.len(),
    ensures
        decode_non_escaped_model(c, non_escaped_frame(c, s).take(k), cap).result == Err::<
            Seq<u8>,
            DleError,
        >(DleError::DecodingError),
        decode_non_escaped_model(c, non_escaped_frame(c, s).take(k), cap).read == k
            || decode_non_escaped_model(c, non_escaped_frame(c, s).take(k), cap).read == k - 1,
{
    let p = non_escaped_payload(s);
    let e = non_escaped_frame(c, s);
    let t = e.take(k);
    assert(e == seq![DLE_CHAR, STX_CHAR] + p + seq![DLE_CHAR, ETX_CHAR]);
    assert(e.len() == p.len() + 4);
    if k == 0 {
    } else if k == 1 {
        assert(t[0] == e[0]);
        assert(e[0] == DLE_CHAR);
    } else {
        assert(t[0] == e[0]);
        assert(t[1] == e[1]);
        assert(e[0] == DLE_CHAR);
        assert(e[1] == STX_CHAR);
        if k - 2 <= p.len() {
            assert(t.subrange(2, t.len() as int) =~= p.take(k - 2)) by {
                assert forall|j: int| 0 <= j < k - 2 implies t.subrange(2, t.len() as int)[j]
                    == p.take(k - 2)[j] by {
                    assert(t.subrange(2, t.len() as int)[j] == t[2 + j]);
                    assert(t[2 + j] == e[2 + j]);
                    assert(e[2 + j] == p[j]);
                }
            }
            lemma_non_escaped_scan_partial(t, 2, s);
        } else {
            // The cut fell between the two bytes of the trailing marker
            // pair: the whole payload is present, followed by one escape
            // byte with its partner missing.
            assert(k == p.len() + 3);
            assert(t.subrange(2, 2 + p.len() as int) =~= p) by {
                assert forall|j: int| 0 <= j < p.len() implies t.subrange(
                    2,
                    2 + p.len() as int,
                )[j] == p[j] by {
                    assert(t.subrange(2, 2 + p.len() as int)[j] == t[2 + j]);
                    assert(t[2 + j] == e[2 + j]);
                    assert(e[2 + j] == p[j]);
                }
            }
            lemma_non_escaped_scan_frame(t, 2, s);
            assert(t[t.len() - 1] == e[p.len() as int + 2]);
            assert(e[p.len() as int + 2] == DLE_CHAR);
            assert(non_escaped_scan(t, 2 + p.len() as int).event == ScanEvent::LoneEscape(
                t.len() - 1,
            ));
            assert(non_escaped_scan(t, 2).decoded.len() <= s.len());
        }
    }
}

} // verus!
