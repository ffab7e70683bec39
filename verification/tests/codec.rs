use base64::engine::general_purpose::URL_SAFE_NO_PAD;
use base64::Engine;

use remote_cache::decode;
use remote_cache::encode;
use remote_cache::DecodeError;

fn corpus() -> Vec<&'static str> {
    vec![
        "",
        "a",
        "ab",
        "abc",
        "https://example.com/a.png",
        "https://example.com/path/to/file.mp4?query=1&other=2",
        "http://host:8080/;,#fragment",
        "https://exämple.com/ü/ß?q=ü",
        "https://example.com/\u{4e2d}\u{6587}/\u{1f600}",
        "file with spaces and % signs",
        "\u{0}\u{7f}\u{80}\u{7ff}\u{800}\u{ffff}\u{10000}\u{10ffff}",
        "-_.~!*'();:@&=+$,/?#[]",
    ]
}

#[test]
fn encode_exact_values() {
    assert_eq!(encode("a"), "YQ");
    assert_eq!(encode("ab"), "YWI");
    assert_eq!(encode("abc"), "YWJj");
    assert_eq!(encode(""), "");
}

#[test]
fn decode_exact_values() {
    assert_eq!(decode("YQ"), Ok(String::from("a")));
    assert_eq!(decode("YWI"), Ok(String::from("ab")));
    assert_eq!(decode("YWJj"), Ok(String::from("abc")));
    assert_eq!(decode(""), Ok(String::from("")));
}

#[test]
fn round_trip_corpus() {
    for url in corpus() {
        let token = encode(url);
        assert_eq!(decode(&token), Ok(String::from(url)), "round trip failed for {:?}", url);
    }
}

#[test]
fn encode_matches_base64_crate() {
    for url in corpus() {
        let token = encode(url);
        let reference = URL_SAFE_NO_PAD.encode(url.as_bytes());
        assert_eq!(token, reference, "encoding differs for {:?}", url);
    }
}

#[test]
fn decode_matches_base64_crate() {
    for url in corpus() {
        let token = URL_SAFE_NO_PAD.encode(url.as_bytes());
        assert_eq!(decode(&token), Ok(String::from(url)));
    }
    // Tokens the base64 crate rejects are rejected here too.
    for bad in ["A", "YR", "ab!", "====", "zzz", "a b", ".DS_Store"] {
        assert!(URL_SAFE_NO_PAD.decode(bad).is_err(), "{:?}", bad);
        assert_eq!(decode(bad), Err(DecodeError::Malformed), "{:?}", bad);
    }
}

#[test]
fn injectivity_corpus() {
    let urls = corpus();
    for (i, u1) in urls.iter().enumerate() {
        for (j, u2) in urls.iter().enumerate() {
            if i != j {
                assert_ne!(encode(u1), encode(u2), "collision for {:?} and {:?}", u1, u2);
            }
        }
    }
}

#[test]
fn decode_rejects_stray_symbol() {
    assert_eq!(decode("abc!"), Err(DecodeError::Malformed));
    assert_eq!(decode("Y Q"), Err(DecodeError::Malformed));
    assert_eq!(decode("YWJj="), Err(DecodeError::Malformed));
}

#[test]
fn decode_rejects_lonely_trailing_symbol() {
    assert_eq!(decode("A"), Err(DecodeError::Malformed));
    assert_eq!(decode("YWJjY"), Err(DecodeError::Malformed));
}

#[test]
fn decode_rejects_nonzero_spare_bits() {
    // 'R' carries low bits that no encoding of one byte leaves set.
    assert_eq!(decode("YR"), Err(DecodeError::Malformed));
    // 'z' carries low bits that no encoding of two bytes leaves set.
    assert_eq!(decode("zzz"), Err(DecodeError::Malformed));
}

#[test]
fn decode_rejects_bytes_that_are_no_utf8() {
    // "_w" decodes to the single byte 0xff, which is not UTF-8.
    assert!(String::from_utf8(URL_SAFE_NO_PAD.decode("_w").unwrap()).is_err());
    assert_eq!(decode("_w"), Err(DecodeError::NotUtf8));
}

#[test]
fn decode_then_encode_gives_the_token_back() {
    for token in ["", "YQ", "YWI", "YWJj"] {
        let url = decode(token).unwrap();
        assert_eq!(encode(&url), token);
    }
    for url in corpus() {
        let token = URL_SAFE_NO_PAD.encode(url.as_bytes());
        let decoded = decode(&token).unwrap();
        assert_eq!(encode(&decoded), token);
    }
}

#[test]
fn tokens_are_filesystem_safe() {
    for url in corpus() {
        let token = encode(url);
        for c in token.chars() {
            assert!(
                c.is_ascii_alphanumeric() || c == '-' || c == '_',
                "unsafe character {:?} in token for {:?}",
                c,
                url
            );
        }
    }
}
