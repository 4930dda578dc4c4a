//! The two encoders. Each walks the source once, reserving two output bytes
//! for a stuffed byte and failing with `StreamTooShort` as soon as the output
//! buffer cannot take what comes next.

use crate::model::encoded_frame;
use crate::model::escaped_bytes;
use crate::model::escaped_frame;
use crate::model::escaped_payload;
use crate::model::lemma_escaped_payload_append;
use crate::model::lemma_escaped_payload_len;
use crate::model::lemma_escaped_payload_push;
use crate::model::lemma_non_escaped_payload_append;
use crate::model::lemma_non_escaped_payload_len;
use crate::model::lemma_non_escaped_payload_push;
use crate::model::non_escaped_bytes;
use crate::model::non_escaped_frame;
use crate::model::non_escaped_payload;
use crate::DleEncoder;
use crate::DleError;
use crate::CR_CHAR;
use crate::DLE_CHAR;
use crate::ETX_CHAR;
use crate::STX_CHAR;
use vstd::prelude::*;

verus! {

/// The start marker of the escaped mode, when the codec adds markers.
pub open spec fn escaped_head(c: DleEncoder) -> Seq<u8> {
    if c.add_stx_etx {
        seq![STX_CHAR]
    } else {
        Seq::empty()
    }
}

/// The start marker of the non-escaped mode, when the codec adds markers.
pub open spec fn non_escaped_head(c: DleEncoder) -> Seq<u8> {
    if c.add_stx_etx {
        seq![DLE_CHAR, STX_CHAR]
    } else {
        Seq::empty()
    }
}

impl DleEncoder {
    /// This method encodes a given byte stream with ASCII based DLE encoding.
    /// It returns the number of encoded bytes or a DLE error code.
    ///
    /// The mode flag of the codec picks the escaped or the non-escaped
    /// encoder; the contract of the chosen one holds, stated here over the
    /// frame either mode emits.
    pub fn encode(&self, source_stream: &[u8], dest_stream: &mut [u8]) -> (r: Result<
        usize,
        DleError,
    >)
        ensures
            final(dest_stream)@.len() == old(dest_stream)@.len(),
            ({
                let frame = encoded_frame(*self, source_stream@);
                match r {
                    Ok(n) => {
                        &&& n == frame.len()
                        &&& old(dest_stream)@.len() >= frame.len()
                        &&& final(dest_stream)@.subrange(0, n as int) == frame
                        &&& final(dest_stream)@.skip(n as int) == old(dest_stream)@.skip(n as int)
                    },
                    Err(e) => {
                        &&& e == DleError::StreamTooShort
                        &&& old(dest_stream)@.len() < frame.len()
                    },
                }
            }),
    {
        if self.escape_stx_etx {
            self.encode_escaped(source_stream, dest_stream)
        } else {
            self.encode_non_escaped(source_stream, dest_stream)
        }
    }

    /// This method encodes a given byte stream with ASCII based DLE encoding.
    /// It explicitely does so in the escaped mode, which is the default
    /// mode.
    ///
    /// It succeeds exactly when the output buffer holds the whole encoded
    /// frame; on success the frame stands at the start of the buffer and
    /// the bytes behind it are untouched.
    pub fn encode_escaped(&self, source_stream: &[u8], dest_stream: &mut [u8]) -> (r: Result<
        usize,
        DleError,
    >)
        ensures
            final(dest_stream)@.len() == old(dest_stream)@.len(),
            ({
                let frame = escaped_frame(*self, source_stream@);
                match r {
                    Ok(n) => {
                        &&& n == frame.len()
                        &&& old(dest_stream)@.len() >= frame.len()
                        &&& final(dest_stream)@.subrange(0, n as int) == frame
                        &&& final(dest_stream)@.skip(n as int) == old(dest_stream)@.skip(n as int)
                    },
                    Err(e) => {
                        &&& e == DleError::StreamTooShort
                        &&& old(dest_stream)@.len() < frame.len()
                    },
                }
            }),
    {
        let ghost src: Seq<u8> = source_stream@;
        let mut encoded_idx: usize = 0;
        let mut source_idx: usize = 0;
        let max_dest_len = dest_stream.len();
        if self.add_stx_etx {
            if max_dest_len < 1 {
                return Err(DleError::StreamTooShort);
            }
            dest_stream[encoded_idx] = STX_CHAR;
            encoded_idx += 1;
        }
        while encoded_idx < max_dest_len && source_idx < source_stream.len()
            invariant
                source_idx <= src.len(),
                encoded_idx <= max_dest_len,
                src == source_stream@,
                max_dest_len == dest_stream@.len(),
                dest_stream@.len() == old(dest_stream)@.len(),
                encoded_idx as int == escaped_head(*self).len() + escaped_payload(
                    *self,
                    src.take(source_idx as int),
                ).len(),
                dest_stream@.subrange(0, encoded_idx as int) == escaped_head(*self)
                    + escaped_payload(*self, src.take(source_idx as int)),
                forall|j: int|
                    encoded_idx as int <= j < dest_stream@.len() ==> dest_stream@[j] == old(
                        dest_stream,
                    )@[j],
            decreases src.len() - source_idx,
        {
            let ghost i0: usize = source_idx;
            let ghost e0: usize = encoded_idx;
            let ghost d0: Seq<u8> = dest_stream@;
            let ghost done: Seq<u8> = src.take(source_idx as int);
            let ghost rest: Seq<u8> = src.skip(source_idx as int);
            proof {
                assert(done + rest =~= src);
                lemma_escaped_payload_append(*self, done, rest);
                assert(rest.drop_first() =~= src.skip(source_idx as int + 1));
                lemma_escaped_payload_len(*self, rest.drop_first());
                lemma_escaped_payload_push(*self, done, src[source_idx as int]);
                assert(done.push(src[source_idx as int]) =~= src.take(source_idx as int + 1));
            }
            let next_byte = source_stream[source_idx];
            if next_byte == STX_CHAR || next_byte == ETX_CHAR || (self.escape_cr && next_byte
                == CR_CHAR) {
                if encoded_idx + 1 >= max_dest_len {
                    return Err(DleError::StreamTooShort);
                } else {
                    dest_stream[encoded_idx] = DLE_CHAR;
                    encoded_idx += 1;
                    // The stuffed byte is shifted by 0x40 so that no start or
                    // end marker ever stands inside the encoded payload: a
                    // reader polling the stream can stop at the end marker.
                    // The shift cannot overflow for any byte of the escape set.
                    dest_stream[encoded_idx] = next_byte + 0x40;
                }
            } else if next_byte == DLE_CHAR {
                if encoded_idx + 1 >= max_dest_len {
                    return Err(DleError::StreamTooShort);
                } else {
                    dest_stream[encoded_idx] = DLE_CHAR;
                    encoded_idx += 1;
                    dest_stream[encoded_idx] = DLE_CHAR;
                }
            } else {
                dest_stream[encoded_idx] = next_byte;
            }
            encoded_idx += 1;
            source_idx += 1;
            proof {
                let w = dest_stream@;
                assert(w.subrange(0, e0 as int) =~= d0.subrange(0, e0 as int));
                assert(w.subrange(e0 as int, encoded_idx as int) =~= escaped_bytes(
                    *self,
                    src[i0 as int],
                ));
                assert(w.subrange(0, encoded_idx as int) =~= w.subrange(0, e0 as int) + w.subrange(
                    e0 as int,
                    encoded_idx as int,
                ));
                assert(escaped_head(*self) + escaped_payload(*self, src.take(source_idx as int))
                    =~= (escaped_head(*self) + escaped_payload(*self, done)) + escaped_bytes(
                    *self,
                    src[i0 as int],
                ));
            }
        }
        proof {
            let done = src.take(source_idx as int);
            let rest = src.skip(source_idx as int);
            assert(done + rest =~= src);
            lemma_escaped_payload_append(*self, done, rest);
            lemma_escaped_payload_len(*self, rest);
        }
        if source_idx == source_stream.len() {
            proof {
                assert(src.take(source_idx as int) =~= src);
            }
            if self.add_stx_etx {
                if max_dest_len - encoded_idx < 1 {
                    return Err(DleError::StreamTooShort);
                }
                let ghost e1: usize = encoded_idx;
                let ghost d1: Seq<u8> = dest_stream@;
                dest_stream[encoded_idx] = ETX_CHAR;
                encoded_idx += 1;
                proof {
                    let w = dest_stream@;
                    assert(w.subrange(0, e1 as int) =~= d1.subrange(0, e1 as int));
                    assert(w.subrange(0, encoded_idx as int) =~= w.subrange(0, e1 as int)
                        + seq![ETX_CHAR]);
                    assert(escaped_frame(*self, src) =~= (escaped_head(*self) + escaped_payload(
                        *self,
                        src,
                    )) + seq![ETX_CHAR]);
                    assert(w.skip(encoded_idx as int) =~= old(dest_stream)@.skip(
                        encoded_idx as int,
                    ));
                }
            } else {
                proof {
                    assert(escaped_head(*self) + escaped_payload(*self, src) =~= escaped_frame(
                        *self,
                        src,
                    ));
                    assert(dest_stream@.skip(encoded_idx as int) =~= old(dest_stream)@.skip(
                        encoded_idx as int,
                    ));
                }
            }
            Ok(encoded_idx)
        } else {
            Err(DleError::StreamTooShort)
        }
    }

    /// This method encodes a given byte stream with ASCII based DLE encoding.
    /// It explicitely does so in the non-escaped mode: frame boundaries are
    /// the two-byte sequences DLE+STX and DLE+ETX, and only the escape byte
    /// itself is doubled inside the payload.
    ///
    /// It succeeds exactly when the output buffer holds the whole encoded
    /// frame; on success the frame stands at the start of the buffer and
    /// the bytes behind it are untouched.
    pub fn encode_non_escaped(&self, source_stream: &[u8], dest_stream: &mut [u8]) -> (r: Result<
        usize,
        DleError,
    >)
        ensures
            final(dest_stream)@.len() == old(dest_stream)@.len(),
            ({
                let frame = non_escaped_frame(*self, source_stream@);
                match r {
                    Ok(n) => {
                        &&& n == frame.len()
                        &&& old(dest_stream)@.len() >= frame.len()
                        &&& final(dest_stream)@.subrange(0, n as int) == frame
                        &&& final(dest_stream)@.skip(n as int) == old(dest_stream)@.skip(n as int)
                    },
                    Err(e) => {
                        &&& e == DleError::StreamTooShort
                        &&& old(dest_stream)@.len() < frame.len()
                    },
                }
            }),
    {
        let ghost src: Seq<u8> = source_stream@;
        let mut encoded_idx: usize = 0;
        let mut source_idx: usize = 0;
        let source_stream_len = source_stream.len();
        let max_dest_len = dest_stream.len();
        if self.add_stx_etx {
            if max_dest_len < 2 {
                return Err(DleError::StreamTooShort);
            }
            dest_stream[encoded_idx] = DLE_CHAR;
            encoded_idx += 1;
            dest_stream[encoded_idx] = STX_CHAR;
            encoded_idx += 1;
        }
        while encoded_idx < max_dest_len && source_idx < source_stream_len
            invariant
                source_idx <= src.len(),
                encoded_idx <= max_dest_len,
                src == source_stream@,
                source_stream_len == src.len(),
                max_dest_len == dest_stream@.len(),
                dest_stream@.len() == old(dest_stream)@.len(),
                encoded_idx as int == non_escaped_head(*self).len() + non_escaped_payload(
                    src.take(source_idx as int),
                ).len(),
                dest_stream@.subrange(0, encoded_idx as int) == non_escaped_head(*self)
                    + non_escaped_payload(src.take(source_idx as int)),
                forall|j: int|
                    encoded_idx as int <= j < dest_stream@.len() ==> dest_stream@[j] == old(
                        dest_stream,
                    )@[j],
            decreases src.len() - source_idx,
        {
            let ghost i0: usize = source_idx;
            let ghost e0: usize = encoded_idx;
            let ghost d0: Seq<u8> = dest_stream@;
            let ghost done: Seq<u8> = src.take(source_idx as int);
            let ghost rest: Seq<u8> = src.skip(source_idx as int);
            proof {
                assert(done + rest =~= src);
                lemma_non_escaped_payload_append(done, rest);
                assert(rest.drop_first() =~= src.skip(source_idx as int + 1));
                lemma_non_escaped_payload_len(rest.drop_first());
                lemma_non_escaped_payload_push(done, src[source_idx as int]);
                assert(done.push(src[source_idx as int]) =~= src.take(source_idx as int + 1));
            }
            let next_byte = source_stream[source_idx];
            if next_byte == DLE_CHAR {
                if encoded_idx + 1 >= max_dest_len {
                    return Err(DleError::StreamTooShort);
                } else {
                    dest_stream[encoded_idx] = DLE_CHAR;
                    encoded_idx += 1;
                    dest_stream[encoded_idx] = DLE_CHAR;
                }
            } else {
                dest_stream[encoded_idx] = next_byte;
            }
            encoded_idx += 1;
            source_idx += 1;
            proof {
                let w = dest_stream@;
                assert(w.subrange(0, e0 as int) =~= d0.subrange(0, e0 as int));
                assert(w.subrange(e0 as int, encoded_idx as int) =~= non_escaped_bytes(
                    src[i0 as int],
                ));
                assert(w.subrange(0, encoded_idx as int) =~= w.subrange(0, e0 as int) + w.subrange(
                    e0 as int,
                    encoded_idx as int,
                ));
                assert(non_escaped_head(*self) + non_escaped_payload(src.take(source_idx as int))
                    =~= (non_escaped_head(*self) + non_escaped_payload(done)) + non_escaped_bytes(
                    src[i0 as int],
                ));
            }
        }
        proof {
            let done = src.take(source_idx as int);
            let rest = src.skip(source_idx as int);
            assert(done + rest =~= src);
            lemma_non_escaped_payload_append(done, rest);
            lemma_non_escaped_payload_len(rest);
        }
        if source_idx == source_stream_len {
            proof {
                assert(src.take(source_idx as int) =~= src);
            }
            if self.add_stx_etx {
                if max_dest_len - encoded_idx < 2 {
                    return Err(DleError::StreamTooShort);
                }
                let ghost e1: usize = encoded_idx;
                let ghost d1: Seq<u8> = dest_stream@;
                dest_stream[encoded_idx] = DLE_CHAR;
                encoded_idx += 1;
                dest_stream[encoded_idx] = ETX_CHAR;
                encoded_idx += 1;
                proof {
                    let w = dest_stream@;
                    assert(w.subrange(0, e1 as int) =~= d1.subrange(0, e1 as int));
                    assert(w.subrange(0, encoded_idx as int) =~= w.subrange(0, e1 as int)
                        + seq![DLE_CHAR, ETX_CHAR]);
                    assert(non_escaped_frame(*self, src) =~= (non_escaped_head(*self)
                        + non_escaped_payload(src)) + seq![DLE_CHAR, ETX_CHAR]);
                    assert(w.skip(encoded_idx as int) =~= old(dest_stream)@.skip(
                        encoded_idx as int,
                    ));
                }
            } else {
                proof {
                    assert(non_escaped_head(*self) + non_escaped_payload(src) =~= non_escaped_frame(
                        *self,
                        src,
                    ));
                    assert(dest_stream@.skip(encoded_idx as int) =~= old(dest_stream)@.skip(
                        encoded_idx as int,
                    ));
                }
            }
            Ok(encoded_idx)
        } else {
            Err(DleError::StreamTooShort)
        }
    }
}

} // verus!
