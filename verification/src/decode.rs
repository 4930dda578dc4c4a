//! The two decoders. Each re-parses one frame from the start of the input
//! slice and reports how many leading bytes it examined, so a caller owning
//! a multi-frame buffer can advance its cursor or discard a malformed prefix.

use crate::model::decode_escaped_model;
use crate::model::decode_model;
use crate::model::decode_non_escaped_model;
use crate::model::escaped_scan;
use crate::model::non_escaped_scan;
use crate::DleEncoder;
use crate::DleError;
use crate::CR_CHAR;
use crate::DLE_CHAR;
use crate::ETX_CHAR;
use crate::STX_CHAR;
use vstd::prelude::*;

verus! {

impl DleEncoder {
    /// This method decodes a given byte stream which was encoded with a ASCII
    /// DLE encoder. It returns the length of the decoded buffer or an error
    /// code if there is a decoder failure or the destination stream is too
    /// short. The number of read bytes in the source stream is assigned to
    /// `read_len`.
    ///
    /// The mode flag of the codec picks the escaped or the non-escaped
    /// decoder; the contract of the chosen one holds, stated here over the
    /// model of either mode.
    pub fn decode(
        &self,
        source_stream: &[u8],
        dest_stream: &mut [u8],
        read_len: &mut usize,
    ) -> (r: Result<usize, DleError>)
        ensures
            final(dest_stream)@.len() == old(dest_stream)@.len(),
            ({
                let m = decode_model(*self, source_stream@, old(dest_stream)@.len() as int);
                &&& *final(read_len) == m.read
                &&& match m.result {
                    Ok(decoded) => (r matches Ok(n) && n == decoded.len()
                        && final(dest_stream)@.subrange(0, n as int) == decoded
                        && final(dest_stream)@.skip(n as int) == old(dest_stream)@.skip(n as int)),
                    Err(e) => r == Err::<usize, DleError>(e),
                }
            }),
    {
        if self.escape_stx_etx {
            self.decode_escaped(source_stream, dest_stream, read_len)
        } else {
            self.decode_non_escaped(source_stream, dest_stream, read_len)
        }
    }

    /// This method decodes a given byte stream which was encoded with a ASCII
    /// DLE encoder. It explicitely does so in the escaped mode, which is the
    /// default mode. It returns the length of the decoded buffer or an error
    /// code if there is a decoder failure or the destination stream is too
    /// short. The number of read bytes in the source stream is assigned to
    /// `read_len`.
    ///
    /// The whole behaviour — which payload comes out, which error is
    /// reported, and how many bytes count as read — is the one
    /// `decode_escaped_model` gives for this input and output capacity.
    pub fn decode_escaped(
        &self,
        source_stream: &[u8],
        dest_stream: &mut [u8],
        read_len: &mut usize,
    ) -> (r: Result<usize, DleError>)
        ensures
            final(dest_stream)@.len() == old(dest_stream)@.len(),
            ({
                let m = decode_escaped_model(*self, source_stream@, old(dest_stream)@.len() as int);
                &&& *final(read_len) == m.read
                &&& match m.result {
                    Ok(decoded) => (r matches Ok(n) && n == decoded.len()
                        && final(dest_stream)@.subrange(0, n as int) == decoded
                        && final(dest_stream)@.skip(n as int) == old(dest_stream)@.skip(n as int)),
                    Err(e) => r == Err::<usize, DleError>(e),
                }
            }),
    {
        let ghost src: Seq<u8> = source_stream@;
        let mut encoded_idx: usize = 0;
        let mut decoded_idx: usize = 0;
        let source_stream_len = source_stream.len();
        let dest_stream_len = dest_stream.len();
        *read_len = 0;
        if dest_stream_len < 1 {
            return Err(DleError::StreamTooShort);
        }
        if source_stream_len == 0 {
            return Err(DleError::DecodingError);
        }
        if source_stream[encoded_idx] != STX_CHAR {
            return Err(DleError::DecodingError);
        }
        encoded_idx += 1;
        proof {
            assert(dest_stream@.subrange(0, 0) + escaped_scan(*self, src, 1).decoded =~= escaped_scan(
                *self,
                src,
                1,
            ).decoded);
        }
        while encoded_idx < source_stream_len - 1 && decoded_idx < dest_stream_len
            && source_stream[encoded_idx] != ETX_CHAR && source_stream[encoded_idx] != STX_CHAR
            invariant
                src == source_stream@,
                source_stream_len == src.len(),
                1 <= source_stream_len,
                src[0] == STX_CHAR,
                dest_stream_len == dest_stream@.len(),
                dest_stream@.len() == old(dest_stream)@.len(),
                1 <= dest_stream_len,
                1 <= encoded_idx <= source_stream_len,
                decoded_idx <= dest_stream_len,
                escaped_scan(*self, src, 1).event == escaped_scan(
                    *self,
                    src,
                    encoded_idx as int,
                ).event,
                escaped_scan(*self, src, 1).decoded == dest_stream@.subrange(0, decoded_idx as int)
                    + escaped_scan(*self, src, encoded_idx as int).decoded,
                forall|j: int|
                    decoded_idx as int <= j < dest_stream@.len() ==> dest_stream@[j] == old(
                        dest_stream,
                    )@[j],
            decreases src.len() - encoded_idx,
        {
            let ghost i0: usize = encoded_idx;
            let ghost dec0: usize = decoded_idx;
            let ghost d0: Seq<u8> = dest_stream@;
            let next = source_stream[encoded_idx];
            if next == DLE_CHAR {
                let next_byte = source_stream[encoded_idx + 1];
                if next_byte == DLE_CHAR {
                    dest_stream[decoded_idx] = next_byte;
                    encoded_idx += 1;
                } else if next_byte == STX_CHAR + 0x40 || next_byte == ETX_CHAR + 0x40 || (
                self.escape_cr && next_byte == CR_CHAR + 0x40) {
                    // Undo the shift that kept the control byte out of the
                    // encoded stream.
                    dest_stream[decoded_idx] = next_byte - 0x40;
                    encoded_idx += 1;
                } else {
                    // Report how many bytes were examined, the malformed
                    // pair included, so the caller can discard exactly the
                    // bad prefix.
                    *read_len = encoded_idx + 2;
                    return Err(DleError::DecodingError);
                }
            } else {
                dest_stream[decoded_idx] = next;
            }
            encoded_idx += 1;
            decoded_idx += 1;
            proof {
                assert(dest_stream@.subrange(0, decoded_idx as int) =~= d0.subrange(0, dec0 as int)
                    + seq![dest_stream@[dec0 as int]]);
                assert(escaped_scan(*self, src, i0 as int).decoded =~= seq![
                    dest_stream@[dec0 as int],
                ] + escaped_scan(*self, src, encoded_idx as int).decoded);
                assert(escaped_scan(*self, src, 1).decoded =~= dest_stream@.subrange(
                    0,
                    decoded_idx as int,
                ) + escaped_scan(*self, src, encoded_idx as int).decoded);
            }
        }
        if encoded_idx < source_stream_len && source_stream[encoded_idx] == ETX_CHAR {
            *read_len = encoded_idx + 1;
            proof {
                assert(escaped_scan(*self, src, 1).decoded =~= dest_stream@.subrange(
                    0,
                    decoded_idx as int,
                ));
                assert(dest_stream@.skip(decoded_idx as int) =~= old(dest_stream)@.skip(
                    decoded_idx as int,
                ));
            }
            Ok(decoded_idx)
        } else if decoded_idx == dest_stream_len {
            // The output filled before the end marker was reached. Nothing
            // is consumed: the caller may retry with a larger buffer.
            *read_len = 0;
            Err(DleError::StreamTooShort)
        } else if encoded_idx < source_stream_len && source_stream[encoded_idx] == STX_CHAR {
            // A second start marker: the current frame was truncated. It is
            // not consumed, so the caller can re-present it as the start of
            // the next frame.
            *read_len = encoded_idx;
            Err(DleError::DecodingError)
        } else {
            // The input ended before the end marker: nothing can be safely
            // discarded, more bytes must arrive.
            *read_len = source_stream_len;
            Err(DleError::DecodingError)
        }
    }

    /// This method decodes a given byte stream which was encoded with a ASCII
    /// DLE encoder. It explicitely does so in the non-escaped mode.
    /// It returns the length of the decoded buffer or an error code if
    /// there is a decoder failure or the destination stream is too short.
    /// The number of read bytes in the source stream is assigned to
    /// `read_len`.
    ///
    /// The whole behaviour — which payload comes out, which error is
    /// reported, and how many bytes count as read — is the one
    /// `decode_non_escaped_model` gives for this input and output capacity.
    pub fn decode_non_escaped(
        &self,
        source_stream: &[u8],
        dest_stream: &mut [u8],
        read_len: &mut usize,
    ) -> (r: Result<usize, DleError>)
        ensures
            final(dest_stream)@.len() == old(dest_stream)@.len(),
            ({
                let m = decode_non_escaped_model(
                    *self,
                    source_stream@,
                    old(dest_stream)@.len() as int,
                );
                &&& *final(read_len) == m.read
                &&& match m.result {
                    Ok(decoded) => (r matches Ok(n) && n == decoded.len()
                        && final(dest_stream)@.subrange(0, n as int) == decoded
                        && final(dest_stream)@.skip(n as int) == old(dest_stream)@.skip(n as int)),
                    Err(e) => r == Err::<usize, DleError>(e),
                }
            }),
    {
        let ghost src: Seq<u8> = source_stream@;
        let mut encoded_idx: usize = 0;
        let mut decoded_idx: usize = 0;
        let source_stream_len = source_stream.len();
        let dest_stream_len = dest_stream.len();
        *read_len = 0;
        if dest_stream_len < 2 {
            return Err(DleError::StreamTooShort);
        }
        if source_stream_len == 0 {
            return Err(DleError::DecodingError);
        }
        if source_stream[encoded_idx] != DLE_CHAR {
            return Err(DleError::DecodingError);
        }
        encoded_idx += 1;
        if source_stream_len == 1 {
            // A lone leading escape byte: it could still open a frame once
            // more bytes arrive, so nothing is consumed.
            return Err(DleError::DecodingError);
        }
        if source_stream[encoded_idx] != STX_CHAR {
            // Resynchronize past just the bad leading byte.
            *read_len = 1;
            return Err(DleError::DecodingError);
        }
        encoded_idx += 1;
        proof {
            assert(dest_stream@.subrange(0, 0) + non_escaped_scan(src, 2).decoded
                =~= non_escaped_scan(src, 2).decoded);
        }
        while encoded_idx < source_stream_len && decoded_idx < dest_stream_len
            invariant
                src == source_stream@,
                source_stream_len == src.len(),
                2 <= source_stream_len,
                src[0] == DLE_CHAR,
                src[1] == STX_CHAR,
                dest_stream_len == dest_stream@.len(),
                dest_stream@.len() == old(dest_stream)@.len(),
                2 <= dest_stream_len,
                2 <= encoded_idx <= source_stream_len,
                decoded_idx <= dest_stream_len,
                non_escaped_scan(src, 2).event == non_escaped_scan(src, encoded_idx as int).event,
                non_escaped_scan(src, 2).decoded == dest_stream@.subrange(0, decoded_idx as int)
                    + non_escaped_scan(src, encoded_idx as int).decoded,
                forall|j: int|
                    decoded_idx as int <= j < dest_stream@.len() ==> dest_stream@[j] == old(
                        dest_stream,
                    )@[j],
            decreases src.len() - encoded_idx,
        {
            let ghost i0: usize = encoded_idx;
            let ghost dec0: usize = decoded_idx;
            let ghost d0: Seq<u8> = dest_stream@;
            let next = source_stream[encoded_idx];
            if next == DLE_CHAR {
                if encoded_idx + 1 >= source_stream_len {
                    // The escape byte stands alone at the very end: a hard
                    // decode error; the escape byte itself is not consumed.
                    *read_len = encoded_idx;
                    return Err(DleError::DecodingError);
                }
                let next_byte = source_stream[encoded_idx + 1];
                if next_byte == STX_CHAR {
                    // Leave the escape and start pair unconsumed: it could
                    // be the start of another frame.
                    *read_len = encoded_idx;
                    return Err(DleError::DecodingError);
                } else if next_byte == DLE_CHAR {
                    dest_stream[decoded_idx] = next_byte;
                    encoded_idx += 1;
                } else if next_byte == ETX_CHAR {
                    // End of stream reached.
                    *read_len = encoded_idx + 2;
                    proof {
                        assert(non_escaped_scan(src, 2).decoded =~= dest_stream@.subrange(
                            0,
                            decoded_idx as int,
                        ));
                        assert(dest_stream@.skip(decoded_idx as int) =~= old(dest_stream)@.skip(
                            decoded_idx as int,
                        ));
                    }
                    return Ok(decoded_idx);
                } else {
                    *read_len = encoded_idx;
                    return Err(DleError::DecodingError);
                }
            } else {
                dest_stream[decoded_idx] = next;
            }
            encoded_idx += 1;
            decoded_idx += 1;
            proof {
                assert(dest_stream@.subrange(0, decoded_idx as int) =~= d0.subrange(0, dec0 as int)
                    + seq![dest_stream@[dec0 as int]]);
                assert(non_escaped_scan(src, i0 as int).decoded =~= seq![
                    dest_stream@[dec0 as int],
                ] + non_escaped_scan(src, encoded_idx as int).decoded);
                assert(non_escaped_scan(src, 2).decoded =~= dest_stream@.subrange(
                    0,
                    decoded_idx as int,
                ) + non_escaped_scan(src, encoded_idx as int).decoded);
            }
        }
        if decoded_idx == dest_stream_len {
            // So far nothing looked wrong: the output was simply too small,
            // so let the caller try again with a larger buffer.
            *read_len = 0;
            Err(DleError::StreamTooShort)
        } else {
            // The input ended before the closing pair.
            *read_len = encoded_idx;
            Err(DleError::DecodingError)
        }
    }
}

} // verus!
