//! Rewriting documents.

use std::io::Write;

use boreas_core::decode::Decoder;
use boreas_core::fields::{field, Field};
use boreas_core::rewrite::{media_type, next_turn, prepare, RewriteError, Stage, Step, Turn};
use boreas_core::zstd::{within_ceiling, Zstd, MAX_DECODED_CHUNK_BYTES};
use boreas_core::{
    rewritable, BudgetError, Coding, CosmeticSource, HidingRules, NoCosmetics, NotRewritable,
    Rewritable, RewriteFailures, StreamBudget, Truncated, Undecodable,
};

fn headers(pairs: &[(&str, &str)]) -> Vec<Field> {
    pairs.iter().map(|(name, value)| field(name, value)).collect()
}

#[test]
fn a_budget_that_could_never_rewrite_is_refused_where_it_is_written() {
    assert_eq!(StreamBudget::new(0, 0).err(), Some(BudgetError::NoCeiling));
    assert_eq!(
        StreamBudget::new(1024, 4096).err(),
        Some(BudgetError::BufferExceedsCeiling {
            parsing: 4096,
            ceiling: 1024
        })
    );
    assert!(StreamBudget::new(1024, 1024).is_ok());

    let default = StreamBudget::default();
    assert!(
        StreamBudget::new(default.max_memory_bytes(), default.parsing_buffer_bytes()).is_ok(),
        "the default must be a budget its own constructor accepts"
    );
}

#[test]
fn only_a_whole_uncompressed_html_body_is_rewritable() {
    assert!(
        rewritable(
            200,
            &headers(&[("content-type", "text/html; charset=utf-8")])
        )
        .is_ok()
    );
    assert!(rewritable(200, &headers(&[("content-type", "text/html")])).is_ok());

    assert_eq!(
        rewritable(
            200,
            &headers(&[("content-type", "application/json")])
        ),
        Err(NotRewritable::NotHtml)
    );
    assert_eq!(
        rewritable(200, &Vec::new()),
        Err(NotRewritable::NotHtml),
        "an untyped body is not assumed to be a document"
    );
    for (label, expected) in [
        ("gzip", Coding::Gzip),
        ("x-gzip", Coding::Gzip),
        ("BR", Coding::Brotli),
        ("zstd", Coding::Zstd),
        ("deflate", Coding::Deflate),
        ("identity", Coding::Identity),
    ] {
        assert_eq!(
            rewritable(
                200,
                &headers(&[("content-type", "text/html"), ("content-encoding", label)])
            )
            .map(Rewritable::coding),
            Ok(expected),
            "{label}"
        );
    }
    for value in ["gzip, br", "compress", "br, gzip"] {
        assert_eq!(
            rewritable(
                200,
                &headers(&[("content-type", "text/html"), ("content-encoding", value)])
            ),
            Err(NotRewritable::ContentCoded),
            "{value}"
        );
    }
    assert_eq!(
        rewritable(
            206,
            &headers(&[("content-type", "text/html")])
        ),
        Err(NotRewritable::NoWholeBody),
        "a range is not a document"
    );
    assert_eq!(
        rewritable(
            304,
            &headers(&[("content-type", "text/html")])
        ),
        Err(NotRewritable::NoWholeBody)
    );
}

#[test]
fn unsupported_character_encodings_are_refused() {
    for charset in [
        "utf-16",
        "utf-16le",
        "utf-16be",
        "iso-2022-jp",
        "replacement",
    ] {
        assert_eq!(
            rewritable(
                200,
                &headers(&[("content-type", &format!("text/html; charset={charset}"))])
            ),
            Err(NotRewritable::UnsupportedCharset),
            "{charset}"
        );
    }
    assert_eq!(
        rewritable(
            200,
            &headers(&[("content-type", "text/html; charset=invented-9")])
        ),
        Err(NotRewritable::UnsupportedCharset)
    );
    for charset in ["utf-8", "\"windows-1252\"", "ISO-8859-1", "shift_jis"] {
        assert!(
            rewritable(
                200,
                &headers(&[("content-type", &format!("text/html; charset={charset}"))])
            )
            .is_ok(),
            "{charset}"
        );
    }
}

#[test]
fn the_hash_names_the_stylesheet_and_ignores_selector_order() {
    let one = HidingRules::compile(
        [".ad", "div[data-ad]", "#promo"]
            .into_iter()
            .map(str::to_owned)
            .collect(),
    )
    .unwrap();
    let other = HidingRules::compile(
        ["#promo", ".ad", "div[data-ad]"]
            .into_iter()
            .map(str::to_owned)
            .collect(),
    )
    .unwrap();

    assert_eq!(one.style(), other.style(), "order must not reach the bytes");
    assert_eq!(one.source(), other.source());
    assert_eq!(one.len(), 3);

    let expected = ring::digest::digest(&ring::digest::SHA256, one.style().as_bytes());
    assert_eq!(
        one.source(),
        format!("'sha256-{}'", base64::Engine::encode(&base64::engine::general_purpose::STANDARD, expected.as_ref()))
    );
}

#[test]
fn an_empty_or_unparseable_selector_set_compiles_to_nothing() {
    assert!(HidingRules::compile(Vec::new()).is_none());
    assert!(HidingRules::compile(vec![String::from("[[[not-a-selector")]).is_none());
}

#[test]
fn an_encoding_is_known_by_its_canonical_name() {
    let found = rewritable(200, &headers(&[("content-type", "text/html; charset=latin1")]));
    assert_eq!(found.map(|r| r.encoding), Ok(Some("windows-1252".to_owned())));
    let plain = rewritable(200, &headers(&[("content-type", "TEXT/HTML")]));
    assert_eq!(
        plain,
        Ok(Rewritable {
            encoding: None,
            coding: Coding::Identity
        })
    );
}

#[test]
fn a_coded_document_loses_the_headers_that_describe_its_coding() {
    let mut block = headers(&[
        ("content-type", "text/html"),
        ("content-encoding", "gzip"),
        ("content-length", "10"),
        ("server", "test"),
        ("content-security-policy", "style-src 'self'"),
    ]);
    let edit = prepare(200, &mut block, "'sha256-AAAA'").unwrap();
    assert!(edit.inject);
    assert_eq!(edit.rewritable.coding, Coding::Gzip);
    assert_eq!(
        block,
        headers(&[
            ("content-type", "text/html"),
            ("server", "test"),
            ("content-security-policy", "style-src 'self' 'sha256-AAAA'"),
        ])
    );

    let before = headers(&[("content-type", "image/png"), ("content-length", "10")]);
    let mut kept = before.clone();
    assert!(prepare(200, &mut kept, "'sha256-AAAA'").is_none());
    assert_eq!(kept, before);
}

#[test]
fn a_rewriter_that_stops_is_never_used_again() {
    let mut failures = RewriteFailures::new();
    let mut stage = Stage::Rewriting;
    assert_eq!(
        stage.take(Some(vec![1]), &mut failures),
        Ok(Step::Rewrite(vec![1]))
    );
    assert_eq!(stage.wrote(Err(RewriteError::MemoryLimit), &mut failures), Ok(()));
    assert_eq!(stage, Stage::Raw);
    assert_eq!(
        stage.take(Some(vec![2]), &mut failures),
        Ok(Step::Forward(vec![2]))
    );
    assert!(!stage.end());
    assert_eq!(stage, Stage::Ended);
    assert_eq!(failures.count(), 1);
    assert_eq!(next_turn(false, stage), Turn::Finish);
    assert_eq!(next_turn(true, stage), Turn::Emit);

    let mut ambiguous = Stage::Rewriting;
    assert_eq!(
        ambiguous.wrote(Err(RewriteError::Ambiguity), &mut failures),
        Err(Truncated)
    );
    assert_eq!(ambiguous, Stage::Ended);

    let mut undecodable = Stage::Rewriting;
    assert_eq!(undecodable.take(None, &mut failures), Err(Truncated));
    assert_eq!(undecodable, Stage::Ended);
    assert_eq!(failures.count(), 3);

    let mut whole = Stage::Rewriting;
    assert_eq!(whole.take_tail(Some(Vec::new()), &mut failures), Ok(Step::Idle));
    assert!(whole.end());
    assert_eq!(whole.closed(Err(RewriteError::ContentHandler), &mut failures), Ok(()));
    assert_eq!(failures.count(), 4);
    assert_eq!(next_turn(false, Stage::Raw), Turn::Read);
}

#[test]
fn nothing_is_hidden_without_rules() {
    assert!(NoCosmetics.rules("example.com").is_none());
}

fn compressed(plain: &[u8]) -> Vec<u8> {
    ruzstd::encoding::compress_to_vec(plain, ruzstd::encoding::CompressionLevel::Fastest)
}

#[test]
fn a_chunk_expanding_past_the_ceiling_is_refused() {
    let bomb = vec![b'a'; 2 * MAX_DECODED_CHUNK_BYTES];
    let mut decoder = Zstd::new();
    assert_eq!(decoder.push(&compressed(&bomb)), Err(Undecodable));
    assert_eq!(within_ceiling(bomb), Err(Undecodable));
    assert_eq!(within_ceiling(vec![1, 2]), Ok(vec![1, 2]));
}

#[test]
fn a_frame_is_decoded_one_byte_at_a_time() {
    let plain: Vec<u8> = b"<html><body><p>keep</p></body></html>".repeat(40);
    let mut decoder = Zstd::new();
    let mut out = Vec::new();
    for byte in compressed(&plain) {
        decoder.push(&[byte]).unwrap();
        out.extend(decoder.take_plain());
    }
    out.extend(decoder.finish().unwrap());
    assert_eq!(out, plain);
}

#[test]
fn a_frame_that_breaks_off_or_goes_on_is_refused() {
    let whole = compressed(b"a document");
    let mut short = Zstd::new();
    short.push(&whole[..whole.len() - 1]).unwrap();
    assert_eq!(short.finish(), Err(Undecodable));

    let mut twice = whole.clone();
    twice.extend_from_slice(&whole);
    let mut long = Zstd::new();
    assert_eq!(long.push(&twice), Err(Undecodable));

    let mut other = Zstd::new();
    assert_eq!(other.push(b"this is no frame at all"), Err(Undecodable));
    assert_eq!(Zstd::new().finish(), Err(Undecodable));
}

fn decoded(coding: Coding, body: &[u8], size: usize) -> Result<Vec<u8>, Undecodable> {
    let mut decoder = Decoder::new(coding);
    let mut plain = Vec::new();
    for chunk in body.chunks(size) {
        plain.extend(decoder.decode(chunk)?);
    }
    plain.extend(decoder.finish()?);
    Ok(plain)
}

fn gzip(plain: &[u8]) -> Vec<u8> {
    let mut encoder = flate2::write::GzEncoder::new(Vec::new(), flate2::Compression::default());
    encoder.write_all(plain).unwrap();
    encoder.finish().unwrap()
}

fn deflate(plain: &[u8]) -> Vec<u8> {
    let mut encoder = flate2::write::ZlibEncoder::new(Vec::new(), flate2::Compression::default());
    encoder.write_all(plain).unwrap();
    encoder.finish().unwrap()
}

/// "hello" in one uncompressed piece.
const BROTLI_HELLO: [u8; 9] = [0x0b, 0x02, 0x80, 0x68, 0x65, 0x6c, 0x6c, 0x6f, 0x03];

#[test]
fn every_coding_is_decoded_whatever_its_chunks() {
    let plain: Vec<u8> = b"<html><body><p>keep</p></body></html>".repeat(400);
    for size in [1, 7, 100_000] {
        assert_eq!(decoded(Coding::Identity, &plain, size), Ok(plain.clone()));
        assert_eq!(decoded(Coding::Gzip, &gzip(&plain), size), Ok(plain.clone()));
        assert_eq!(
            decoded(Coding::Deflate, &deflate(&plain), size),
            Ok(plain.clone())
        );
        assert_eq!(
            decoded(Coding::Zstd, &compressed(&plain), size),
            Ok(plain.clone())
        );
        assert_eq!(
            decoded(Coding::Brotli, &BROTLI_HELLO, size),
            Ok(b"hello".to_vec())
        );
    }
}

#[test]
fn a_coded_body_that_is_cut_short_or_no_body_at_all_is_refused() {
    let plain = b"a document".repeat(50);
    for (coding, body) in [
        (Coding::Gzip, gzip(&plain)),
        (Coding::Brotli, BROTLI_HELLO.to_vec()),
        (Coding::Zstd, compressed(&plain)),
    ] {
        assert_eq!(
            decoded(coding, &body[..body.len() - 1], 64),
            Err(Undecodable)
        );
    }
    let nonsense = [0xffu8; 64];
    for coding in [Coding::Gzip, Coding::Deflate, Coding::Brotli, Coding::Zstd] {
        assert_eq!(decoded(coding, &nonsense, 64), Err(Undecodable));
    }
}

#[test]
fn only_a_coded_body_has_a_ceiling() {
    let bomb = vec![b'a'; 2 * MAX_DECODED_CHUNK_BYTES];
    assert_eq!(
        Decoder::new(Coding::Gzip).decode(&gzip(&bomb)),
        Err(Undecodable)
    );
    let mut identity = Decoder::new(Coding::Identity);
    assert_eq!(identity.decode(&bomb).map(|plain| plain.len()), Ok(bomb.len()));
    assert_eq!(identity.finish(), Ok(Vec::new()));
    assert_eq!(identity.decode(b"more"), Err(Undecodable));
}

#[test]
fn selectors_that_nest_too_deep_compile_to_nothing() {
    let nested = |depth: usize| format!("{}a{}", "a:not(".repeat(depth), ")".repeat(depth));
    assert!(HidingRules::compile(vec![nested(256)]).is_some());
    assert!(HidingRules::compile(vec![nested(257)]).is_none());
    assert!(HidingRules::compile(vec![nested(20_000)]).is_none());
    // Unclosed functions of one selector reach into the next.
    let open: Vec<String> = (0..300).map(|n| format!("b{n}:not(a")).collect();
    assert!(HidingRules::compile(open).is_none());
}

#[test]
fn only_real_nesting_counts() {
    // What is quoted, escaped or commented out opens and closes nothing.
    let mut flat: Vec<String> = (0..800)
        .map(|n| format!("p{n}:not([x=\")/*'\"])"))
        .collect();
    flat.push("a[href=\"https://ads.example/(x\"]".to_owned());
    flat.push("a\\(b".to_owned());
    flat.push("q:not([x='\\'('])".to_owned());
    flat.push("c/* ( \" */".to_owned());
    let count = flat.len();
    assert_eq!(
        HidingRules::compile(flat).map(|rules| rules.len()),
        Some(count)
    );
}

#[test]
fn a_malformed_parameter_yields_no_charset() {
    let charset = |value: &str| {
        let chars: Vec<char> = value.chars().collect();
        media_type(&chars).1.map(|c| c.into_iter().collect::<String>())
    };
    assert_eq!(charset("text/html; charset=utf-8").as_deref(), Some("utf-8"));
    assert_eq!(charset("text/html; Charset=\"x y\"").as_deref(), Some("x y"));
    assert_eq!(charset("text/html; charset"), None);
    assert_eq!(charset("text/html; charset=\"utf-8"), None);
    assert_eq!(charset("text/html; charset=utf-8\""), None);
    assert_eq!(charset("text/html; charset=\"a\"b\""), None);
}
