//! Behavioural tests of the codec, the cost formula and the call-outcome
//! handling, using the library alone.

use canister_http::{
    decode_request, decode_response, encode_request, encode_response,
    http_request_required_cycles, interpret_call_result, prepare_http_request,
    required_cycles_for, CanisterHttpRequestArgument, HttpHeader, HttpMethod, HttpResponse,
    OutcallError, TransformContext, TransformFunc,
};

fn sample_request() -> CanisterHttpRequestArgument {
    CanisterHttpRequestArgument {
        url: "https://example.com/rates?base=ICP".to_string(),
        max_response_bytes: Some(4096),
        method: HttpMethod::POST,
        headers: vec![
            HttpHeader {
                name: "Content-Type".to_string(),
                value: "application/json".to_string(),
            },
            HttpHeader {
                name: "Accept".to_string(),
                value: "*/*".to_string(),
            },
        ],
        body: Some(vec![0x7b, 0x7d]),
        transform: Some(TransformContext {
            function: TransformFunc {
                principal: vec![0x01, 0x02, 0x03, 0x04],
                method: "transform_rate".to_string(),
            },
            context: vec![9, 8, 7],
        }),
    }
}

fn minimal_request(method: HttpMethod) -> CanisterHttpRequestArgument {
    CanisterHttpRequestArgument {
        url: String::new(),
        max_response_bytes: None,
        method,
        headers: vec![],
        body: None,
        transform: None,
    }
}

#[test]
fn round_trip_request_full() {
    let arg = sample_request();
    let bytes = encode_request(&arg).unwrap();
    let back = decode_request(&bytes).unwrap();
    assert_eq!(back, arg);
}

#[test]
fn round_trip_request_minimal() {
    let arg = minimal_request(HttpMethod::GET);
    let bytes = encode_request(&arg).unwrap();
    let back = decode_request(&bytes).unwrap();
    assert_eq!(back, arg);
}

#[test]
fn round_trip_response() {
    let resp = HttpResponse {
        status: 200,
        headers: vec![HttpHeader {
            name: "x-rate".to_string(),
            value: "1.23".to_string(),
        }],
        body: vec![1, 2, 3, 4, 5],
    };
    let bytes = encode_response(&resp);
    let back = decode_response(&bytes).unwrap();
    assert_eq!(back, resp);
}

#[test]
fn round_trip_response_empty() {
    let resp = HttpResponse {
        status: 0,
        headers: vec![],
        body: vec![],
    };
    let bytes = encode_response(&resp);
    let back = decode_response(&bytes).unwrap();
    assert_eq!(back, resp);
}

// The request head is 140 bytes; the first value byte is the empty URL's
// length, the next is the method variant's tag index.
const REQUEST_HEAD_LEN: usize = 140;

#[test]
fn method_tag_indices_on_wire() {
    let get = encode_request(&minimal_request(HttpMethod::GET)).unwrap();
    let head = encode_request(&minimal_request(HttpMethod::HEAD)).unwrap();
    let post = encode_request(&minimal_request(HttpMethod::POST)).unwrap();
    assert_eq!(get[REQUEST_HEAD_LEN], 0); // empty url
    assert_eq!(get[REQUEST_HEAD_LEN + 1], 0); // "get" sorts first
    assert_eq!(head[REQUEST_HEAD_LEN + 1], 1); // then "head"
    assert_eq!(post[REQUEST_HEAD_LEN + 1], 2); // then "post"
}

#[test]
fn method_tag_decodes_back() {
    for m in [HttpMethod::GET, HttpMethod::POST, HttpMethod::HEAD] {
        let bytes = encode_request(&minimal_request(m)).unwrap();
        assert_eq!(decode_request(&bytes).unwrap().method, m);
    }
}

#[test]
fn unknown_method_tag_is_decode_error() {
    let mut bytes = encode_request(&minimal_request(HttpMethod::GET)).unwrap();
    bytes[REQUEST_HEAD_LEN + 1] = 3;
    assert_eq!(decode_request(&bytes), Err(OutcallError::DecodingError));
}

#[test]
fn corrupt_head_is_decode_error() {
    let mut bytes = encode_request(&minimal_request(HttpMethod::GET)).unwrap();
    bytes[4] = 0xff;
    assert_eq!(decode_request(&bytes), Err(OutcallError::DecodingError));
}

#[test]
fn truncated_message_is_decode_error() {
    let resp = HttpResponse {
        status: 404,
        headers: vec![],
        body: vec![1, 2, 3],
    };
    let mut bytes = encode_response(&resp);
    bytes.pop();
    assert_eq!(decode_response(&bytes), Err(OutcallError::DecodingError));
}

#[test]
fn trailing_bytes_are_a_decode_error() {
    let resp = HttpResponse {
        status: 204,
        headers: vec![],
        body: vec![],
    };
    let mut bytes = encode_response(&resp);
    bytes.push(0);
    assert_eq!(decode_response(&bytes), Err(OutcallError::DecodingError));
}

#[test]
fn cost_formula_concrete_case() {
    // 400_000_000 + 100_000 * (100 + 12 + 2_097_152)
    assert_eq!(required_cycles_for(100, 2_097_152), 210_126_400_000u128);
}

#[test]
fn cost_of_request_matches_formula() {
    let arg = sample_request();
    let encoded_len = encode_request(&arg).unwrap().len() as u64;
    assert_eq!(
        http_request_required_cycles(&arg),
        required_cycles_for(encoded_len, 4096)
    );
}

#[test]
fn default_cap_is_two_mebibytes() {
    let arg = minimal_request(HttpMethod::GET);
    let encoded_len = encode_request(&arg).unwrap().len() as u64;
    assert_eq!(
        http_request_required_cycles(&arg),
        required_cycles_for(encoded_len, 2_097_152)
    );
}

#[test]
fn cost_computation_does_not_mutate_argument() {
    let arg = minimal_request(HttpMethod::GET);
    let _ = http_request_required_cycles(&arg);
    let _ = prepare_http_request(&arg).unwrap();
    assert_eq!(arg.max_response_bytes, None);
}

#[test]
fn function_reference_wire_form() {
    let mut arg = minimal_request(HttpMethod::GET);
    arg.transform = Some(TransformContext {
        function: TransformFunc {
            principal: vec![0xab, 0xcd],
            method: "t".to_string(),
        },
        context: vec![],
    });
    let bytes = encode_request(&arg).unwrap();
    let tail = &bytes[REQUEST_HEAD_LEN..];
    // url "", tag index 0, no cap, no body, then the transform: a present
    // function reference (1), a present principal id (1) of two bytes, the
    // method name "t", an empty context, and an empty header list.
    assert_eq!(
        tail,
        &[0, 0, 0, 0, 1, 1, 1, 2, 0xab, 0xcd, 1, b't', 0, 0]
    );
}

#[test]
fn oversized_principal_is_encoding_error() {
    let mut arg = minimal_request(HttpMethod::GET);
    arg.transform = Some(TransformContext {
        function: TransformFunc {
            principal: vec![0u8; 30],
            method: "t".to_string(),
        },
        context: vec![],
    });
    assert_eq!(encode_request(&arg), Err(OutcallError::EncodingError));
    assert_eq!(
        prepare_http_request(&arg),
        Err(OutcallError::EncodingError)
    );
}

#[test]
fn rejection_is_propagated_verbatim() {
    let outcome: Result<Vec<u8>, (u32, String)> =
        Err((4, "canister rejected the call".to_string()));
    assert_eq!(
        interpret_call_result(outcome),
        Err(OutcallError::CallError {
            code: 4,
            message: "canister rejected the call".to_string()
        })
    );
}

#[test]
fn reply_bytes_are_decoded() {
    let resp = HttpResponse {
        status: 200,
        headers: vec![],
        body: vec![42],
    };
    let outcome: Result<Vec<u8>, (u32, String)> = Ok(encode_response(&resp));
    assert_eq!(interpret_call_result(outcome), Ok(resp));
}

#[test]
fn garbage_reply_is_decoding_error() {
    let outcome: Result<Vec<u8>, (u32, String)> = Ok(vec![0xde, 0xad, 0xbe, 0xef]);
    assert_eq!(
        interpret_call_result(outcome),
        Err(OutcallError::DecodingError)
    );
}

#[test]
fn unicode_text_round_trips() {
    let mut arg = minimal_request(HttpMethod::GET);
    arg.url = "https://exämple.test/路径?q=🚀".to_string();
    arg.headers = vec![HttpHeader {
        name: "X-Größe".to_string(),
        value: "ümlaut".to_string(),
    }];
    let bytes = encode_request(&arg).unwrap();
    assert_eq!(decode_request(&bytes).unwrap(), arg);
}

#[test]
fn cost_at_maximal_cap() {
    assert_eq!(
        required_cycles_for(0, u64::MAX),
        1_844_674_407_370_955_562_700_000u128
    );
}

#[test]
fn large_status_round_trips() {
    let resp = HttpResponse {
        status: u128::MAX,
        headers: vec![],
        body: vec![],
    };
    let bytes = encode_response(&resp);
    assert_eq!(decode_response(&bytes).unwrap().status, u128::MAX);
}
