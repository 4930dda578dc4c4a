use dle_encoder::DleEncoder;
use dle_encoder::DleError;
use dle_encoder::CR_CHAR;
use dle_encoder::DLE_CHAR;
use dle_encoder::ETX_CHAR;
use dle_encoder::STX_CHAR;

const TEST_ARRAY_0: [u8; 5] = [0, 0, 0, 0, 0];
const TEST_ARRAY_1: [u8; 3] = [0, DLE_CHAR, 5];
const TEST_ARRAY_2: [u8; 3] = [0, STX_CHAR, 5];
const TEST_ARRAY_3: [u8; 3] = [0, CR_CHAR, ETX_CHAR];
const TEST_ARRAY_4: [u8; 3] = [DLE_CHAR, ETX_CHAR, STX_CHAR];

const TEST_ARRAY_0_ENCODED_ESCPAED: &[u8] = &[STX_CHAR, 0, 0, 0, 0, 0, ETX_CHAR];
const TEST_ARRAY_0_ENCODED_NON_ESCPAED: &[u8] =
    &[DLE_CHAR, STX_CHAR, 0, 0, 0, 0, 0, DLE_CHAR, ETX_CHAR];

const TEST_ARRAY_1_ENCODED_ESCPAED: [u8; 6] = [STX_CHAR, 0, DLE_CHAR, DLE_CHAR, 5, ETX_CHAR];
const TEST_ARRAY_1_ENCODED_NON_ESCPAED: [u8; 8] = [
    DLE_CHAR, STX_CHAR, 0, DLE_CHAR, DLE_CHAR, 5, DLE_CHAR, ETX_CHAR,
];

const TEST_ARRAY_2_ENCODED_ESCPAED: &[u8] = &[STX_CHAR, 0, DLE_CHAR, STX_CHAR + 0x40, 5, ETX_CHAR];
const TEST_ARRAY_2_ENCODED_NON_ESCPAED: &[u8] =
    &[DLE_CHAR, STX_CHAR, 0, STX_CHAR, 5, DLE_CHAR, ETX_CHAR];

const TEST_ARRAY_3_ENCODED_ESCPAED: &[u8] =
    &[STX_CHAR, 0, CR_CHAR, DLE_CHAR, ETX_CHAR + 0x40, ETX_CHAR];
const TEST_ARRAY_3_ENCODED_NON_ESCPAED: &[u8] =
    &[DLE_CHAR, STX_CHAR, 0, CR_CHAR, ETX_CHAR, DLE_CHAR, ETX_CHAR];

const TEST_ARRAY_4_ENCODED_ESCPAED: &[u8] = &[
    STX_CHAR,
    DLE_CHAR,
    DLE_CHAR,
    DLE_CHAR,
    ETX_CHAR + 0x40,
    DLE_CHAR,
    STX_CHAR + 0x40,
    ETX_CHAR,
];
const TEST_ARRAY_4_ENCODED_NON_ESCPAED: [u8; 8] = [
    DLE_CHAR, STX_CHAR, DLE_CHAR, DLE_CHAR, ETX_CHAR, STX_CHAR, DLE_CHAR, ETX_CHAR,
];

#[test]
fn test_encoder() {
    let mut dle_encoder = DleEncoder::default();
    let mut buffer: [u8; 32] = [0; 32];
    let test_encode_closure = |dle_encoder: &DleEncoder,
                               buf_to_encode: &[u8],
                               expected_buf: &[u8],
                               buffer: &mut [u8]| {
        let encode_res = dle_encoder.encode(buf_to_encode, buffer);
        assert!(encode_res.is_ok());
        for (idx, byte) in expected_buf.iter().enumerate() {
            assert_eq!(buffer[idx], *byte);
        }
        assert_eq!(encode_res.unwrap(), expected_buf.len());
    };

    let test_faulty_encoding = |dle_encoder: &DleEncoder,
                                buf_to_encode: &[u8],
                                expected_buf: &[u8],
                                buffer: &mut [u8]| {
        for faulty_dest_size in 0..expected_buf.len() {
            let encode_res = dle_encoder.encode(buf_to_encode, &mut buffer[0..faulty_dest_size]);
            assert!(encode_res.is_err());
            assert_eq!(encode_res.unwrap_err(), DleError::StreamTooShort);
        }
    };

    test_encode_closure(
        &dle_encoder,
        &TEST_ARRAY_0,
        TEST_ARRAY_0_ENCODED_ESCPAED,
        &mut buffer,
    );
    test_encode_closure(
        &dle_encoder,
        &TEST_ARRAY_1,
        &TEST_ARRAY_1_ENCODED_ESCPAED,
        &mut buffer,
    );
    test_encode_closure(
        &dle_encoder,
        &TEST_ARRAY_2,
        TEST_ARRAY_2_ENCODED_ESCPAED,
        &mut buffer,
    );
    test_encode_closure(
        &dle_encoder,
        &TEST_ARRAY_3,
        TEST_ARRAY_3_ENCODED_ESCPAED,
        &mut buffer,
    );
    test_encode_closure(
        &dle_encoder,
        &TEST_ARRAY_4,
        TEST_ARRAY_4_ENCODED_ESCPAED,
        &mut buffer,
    );

    test_faulty_encoding(
        &dle_encoder,
        &TEST_ARRAY_0,
        TEST_ARRAY_0_ENCODED_ESCPAED,
        &mut buffer,
    );
    test_faulty_encoding(
        &dle_encoder,
        &TEST_ARRAY_1,
        &TEST_ARRAY_1_ENCODED_ESCPAED,
        &mut buffer,
    );
    test_faulty_encoding(
        &dle_encoder,
        &TEST_ARRAY_2,
        TEST_ARRAY_2_ENCODED_ESCPAED,
        &mut buffer,
    );
    test_faulty_encoding(
        &dle_encoder,
        &TEST_ARRAY_3,
        TEST_ARRAY_3_ENCODED_ESCPAED,
        &mut buffer,
    );
    test_faulty_encoding(
        &dle_encoder,
        &TEST_ARRAY_4,
        TEST_ARRAY_4_ENCODED_ESCPAED,
        &mut buffer,
    );

    dle_encoder.escape_stx_etx = false;
    test_encode_closure(
        &dle_encoder,
        &TEST_ARRAY_0,
        TEST_ARRAY_0_ENCODED_NON_ESCPAED,
        &mut buffer,
    );
    test_encode_closure(
        &dle_encoder,
        &TEST_ARRAY_1,
        &TEST_ARRAY_1_ENCODED_NON_ESCPAED,
        &mut buffer,
    );
    test_encode_closure(
        &dle_encoder,
        &TEST_ARRAY_2,
        TEST_ARRAY_2_ENCODED_NON_ESCPAED,
        &mut buffer,
    );
    test_encode_closure(
        &dle_encoder,
        &TEST_ARRAY_3,
        TEST_ARRAY_3_ENCODED_NON_ESCPAED,
        &mut buffer,
    );
    test_encode_closure(
        &dle_encoder,
        &TEST_ARRAY_4,
        &TEST_ARRAY_4_ENCODED_NON_ESCPAED,
        &mut buffer,
    );

    test_faulty_encoding(
        &dle_encoder,
        &TEST_ARRAY_0,
        TEST_ARRAY_0_ENCODED_ESCPAED,
        &mut buffer,
    );
    test_faulty_encoding(
        &dle_encoder,
        &TEST_ARRAY_1,
        &TEST_ARRAY_1_ENCODED_ESCPAED,
        &mut buffer,
    );
    test_faulty_encoding(
        &dle_encoder,
        &TEST_ARRAY_2,
        TEST_ARRAY_2_ENCODED_ESCPAED,
        &mut buffer,
    );
    test_faulty_encoding(
        &dle_encoder,
        &TEST_ARRAY_3,
        TEST_ARRAY_3_ENCODED_ESCPAED,
        &mut buffer,
    );
    test_faulty_encoding(
        &dle_encoder,
        &TEST_ARRAY_4,
        TEST_ARRAY_4_ENCODED_ESCPAED,
        &mut buffer,
    );
}

#[test]
fn test_decoder() {
    let mut dle_encoder = DleEncoder::default();
    let mut buffer: [u8; 32] = [0; 32];
    let test_decode_closure = |dle_encoder: &DleEncoder,
                               encoded_test_vec: &[u8],
                               expected_buf: &[u8],
                               buffer: &mut [u8]| {
        let mut read_len = 0;
        let decode_res = dle_encoder.decode(encoded_test_vec, buffer, &mut read_len);
        assert!(decode_res.is_ok());
        for (idx, byte) in expected_buf.iter().enumerate() {
            assert_eq!(buffer[idx], *byte);
        }
        assert_eq!(read_len, encoded_test_vec.len());
        assert_eq!(decode_res.unwrap(), expected_buf.len());
    };

    let test_faulty_decoding =
        |dle_encoder: &DleEncoder, faulty_encoded_buf: &[u8], buffer: &mut [u8]| {
            let mut read_len = 0;
            let decode_res = dle_encoder.decode(&faulty_encoded_buf, buffer, &mut read_len);
            assert!(decode_res.is_err());
            assert_eq!(decode_res.unwrap_err(), DleError::DecodingError);
        };

    test_decode_closure(
        &dle_encoder,
        TEST_ARRAY_0_ENCODED_ESCPAED,
        &TEST_ARRAY_0,
        &mut buffer,
    );
    test_decode_closure(
        &dle_encoder,
        &TEST_ARRAY_1_ENCODED_ESCPAED,
        &TEST_ARRAY_1,
        &mut buffer,
    );
    test_decode_closure(
        &dle_encoder,
        TEST_ARRAY_2_ENCODED_ESCPAED,
        &TEST_ARRAY_2,
        &mut buffer,
    );
    test_decode_closure(
        &dle_encoder,
        TEST_ARRAY_3_ENCODED_ESCPAED,
        &TEST_ARRAY_3,
        &mut buffer,
    );
    test_decode_closure(
        &dle_encoder,
        TEST_ARRAY_4_ENCODED_ESCPAED,
        &TEST_ARRAY_4,
        &mut buffer,
    );

    dle_encoder.escape_stx_etx = false;
    test_decode_closure(
        &dle_encoder,
        TEST_ARRAY_0_ENCODED_NON_ESCPAED,
        &TEST_ARRAY_0,
        &mut buffer,
    );
    test_decode_closure(
        &dle_encoder,
        &TEST_ARRAY_1_ENCODED_NON_ESCPAED,
        &TEST_ARRAY_1,
        &mut buffer,
    );
    test_decode_closure(
        &dle_encoder,
        TEST_ARRAY_2_ENCODED_NON_ESCPAED,
        &TEST_ARRAY_2,
        &mut buffer,
    );
    test_decode_closure(
        &dle_encoder,
        TEST_ARRAY_3_ENCODED_NON_ESCPAED,
        &TEST_ARRAY_3,
        &mut buffer,
    );
    test_decode_closure(
        &dle_encoder,
        &TEST_ARRAY_4_ENCODED_NON_ESCPAED,
        &TEST_ARRAY_4,
        &mut buffer,
    );

    let mut test_array_1_encoded_faulty = TEST_ARRAY_1_ENCODED_NON_ESCPAED.clone();
    let mut prev_val = test_array_1_encoded_faulty[0];
    test_array_1_encoded_faulty[0] = 0;
    test_faulty_decoding(&dle_encoder, &test_array_1_encoded_faulty, &mut buffer);

    test_array_1_encoded_faulty[0] = prev_val;
    prev_val = test_array_1_encoded_faulty[1];
    test_array_1_encoded_faulty[1] = 0;
    test_faulty_decoding(&dle_encoder, &test_array_1_encoded_faulty, &mut buffer);

    test_array_1_encoded_faulty[1] = prev_val;
    prev_val = test_array_1_encoded_faulty[6];
    test_array_1_encoded_faulty[6] = 0;
    test_faulty_decoding(&dle_encoder, &test_array_1_encoded_faulty, &mut buffer);

    test_array_1_encoded_faulty[6] = prev_val;
    test_array_1_encoded_faulty[7] = 0;
    test_faulty_decoding(&dle_encoder, &test_array_1_encoded_faulty, &mut buffer);

    let mut test_array_4_encoded_faulty = TEST_ARRAY_4_ENCODED_NON_ESCPAED.clone();
    test_array_4_encoded_faulty[3] = 0;
    test_faulty_decoding(&dle_encoder, &test_array_4_encoded_faulty, &mut buffer);

    dle_encoder.escape_stx_etx = true;
    let mut test_array_1_encoded_faulty = TEST_ARRAY_1_ENCODED_ESCPAED.clone();
    prev_val = test_array_1_encoded_faulty[3];
    test_array_1_encoded_faulty[3] = 0;
    test_faulty_decoding(&dle_encoder, &test_array_1_encoded_faulty, &mut buffer);

    test_array_1_encoded_faulty[3] = prev_val;
    prev_val = test_array_1_encoded_faulty[0];
    test_array_1_encoded_faulty[0] = 0;
    test_faulty_decoding(&dle_encoder, &test_array_1_encoded_faulty, &mut buffer);

    test_array_1_encoded_faulty[0] = prev_val;
    prev_val = test_array_1_encoded_faulty[5];
    test_array_1_encoded_faulty[5] = 0;
    test_faulty_decoding(&dle_encoder, &test_array_1_encoded_faulty, &mut buffer);

    test_array_1_encoded_faulty[5] = prev_val;
    test_array_1_encoded_faulty[2] = 0;
    test_faulty_decoding(&dle_encoder, &test_array_1_encoded_faulty, &mut buffer);

    let mut decoding_buffer: [u8; 16] = [0; 16];
    let encoded_array: [u8; 4] = [0x02, 0x10, 0x02 + 0x40, 0x03];
    let mut read_len = 0;
    let decode_result = dle_encoder.decode(&encoded_array, &mut decoding_buffer, &mut read_len);
    assert!(decode_result.is_ok());
    let decoded_len = decode_result.unwrap();
    assert_eq!(decoded_len, 1);
}
