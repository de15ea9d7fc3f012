//! Compatibility tests against the candid crate: the library's encoders
//! must produce bytes that candid's derived codecs accept and reproduce,
//! and the library's decoders must read bytes that candid produced.

use candid::{decode_args, encode_args, Nat, Principal};
use ic_cdk::api::management_canister::http_request as ic_http;

use canister_http::{
    decode_request, decode_response, encode_request, encode_response,
    CanisterHttpRequestArgument, HttpHeader, HttpMethod, HttpResponse, TransformContext,
    TransformFunc,
};

fn my_request() -> CanisterHttpRequestArgument {
    CanisterHttpRequestArgument {
        url: "https://api.example.org/v1/rates".to_string(),
        max_response_bytes: Some(65536),
        method: HttpMethod::POST,
        headers: vec![
            HttpHeader {
                name: "Content-Type".to_string(),
                value: "application/json".to_string(),
            },
            HttpHeader {
                name: "Accept-Encoding".to_string(),
                value: "identity".to_string(),
            },
        ],
        body: Some(vec![1, 2, 3]),
        transform: Some(TransformContext {
            function: TransformFunc {
                principal: vec![0x01, 0x02, 0x03],
                method: "transform".to_string(),
            },
            context: vec![0xaa, 0xbb],
        }),
    }
}

fn ic_request() -> ic_http::CanisterHttpRequestArgument {
    ic_http::CanisterHttpRequestArgument {
        url: "https://api.example.org/v1/rates".to_string(),
        max_response_bytes: Some(65536),
        method: ic_http::HttpMethod::POST,
        headers: vec![
            ic_http::HttpHeader {
                name: "Content-Type".to_string(),
                value: "application/json".to_string(),
            },
            ic_http::HttpHeader {
                name: "Accept-Encoding".to_string(),
                value: "identity".to_string(),
            },
        ],
        body: Some(vec![1, 2, 3]),
        transform: Some(ic_http::TransformContext {
            function: ic_http::TransformFunc(candid::Func {
                principal: Principal::from_slice(&[0x01, 0x02, 0x03]),
                method: "transform".to_string(),
            }),
            context: vec![0xaa, 0xbb],
        }),
    }
}

fn my_response() -> HttpResponse {
    HttpResponse {
        status: 429,
        headers: vec![HttpHeader {
            name: "Retry-After".to_string(),
            value: "120".to_string(),
        }],
        body: vec![b'r', b'a', b't', b'e'],
    }
}

fn ic_response() -> ic_http::HttpResponse {
    ic_http::HttpResponse {
        status: Nat::from(429u32),
        headers: vec![ic_http::HttpHeader {
            name: "Retry-After".to_string(),
            value: "120".to_string(),
        }],
        body: vec![b'r', b'a', b't', b'e'],
    }
}

#[test]
fn request_bytes_match_candid() {
    let mine = encode_request(&my_request()).unwrap();
    let theirs = encode_args((ic_request(),)).unwrap();
    assert_eq!(mine, theirs);
}

#[test]
fn response_bytes_match_candid() {
    let mine = encode_response(&my_response());
    let theirs = encode_args((ic_response(),)).unwrap();
    assert_eq!(mine, theirs);
}

#[test]
fn candid_reads_encoded_request() {
    let mine = encode_request(&my_request()).unwrap();
    let (decoded,): (ic_http::CanisterHttpRequestArgument,) = decode_args(&mine).unwrap();
    assert_eq!(decoded, ic_request());
}

#[test]
fn candid_reads_encoded_response() {
    let mine = encode_response(&my_response());
    let (decoded,): (ic_http::HttpResponse,) = decode_args(&mine).unwrap();
    assert_eq!(decoded, ic_response());
}

#[test]
fn library_reads_candid_request() {
    let theirs = encode_args((ic_request(),)).unwrap();
    assert_eq!(decode_request(&theirs).unwrap(), my_request());
}

#[test]
fn library_reads_candid_response() {
    let theirs = encode_args((ic_response(),)).unwrap();
    assert_eq!(decode_response(&theirs).unwrap(), my_response());
}

#[test]
fn method_tags_agree_with_candid() {
    let pairs = [
        (HttpMethod::GET, ic_http::HttpMethod::GET),
        (HttpMethod::POST, ic_http::HttpMethod::POST),
        (HttpMethod::HEAD, ic_http::HttpMethod::HEAD),
    ];
    for (mine, theirs) in pairs {
        let mut arg = my_request();
        arg.method = mine;
        arg.transform = None;
        let bytes = encode_request(&arg).unwrap();
        let (decoded,): (ic_http::CanisterHttpRequestArgument,) = decode_args(&bytes).unwrap();
        assert_eq!(decoded.method, theirs);
    }
}

#[test]
fn function_reference_is_not_a_record() {
    // A transform context carries a function reference; decoding it as a
    // record of two plain fields must fail.
    let ctx = ic_http::TransformContext {
        function: ic_http::TransformFunc(candid::Func {
            principal: Principal::from_slice(&[7, 7, 7]),
            method: "transform".to_string(),
        }),
        context: vec![],
    };
    let bytes = encode_args((ctx,)).unwrap();
    let as_record: Result<((Vec<u8>, String),), _> = decode_args(&bytes);
    assert!(as_record.is_err());
}
