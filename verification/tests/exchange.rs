//! What crosses the hop.

use boreas_core::exchange::{
    handling, percent_decode, steer_response, strip_hop_by_hop, take_request, take_response,
    Handling, RequestHead, RequestStep, ResponseStep, BAD_GATEWAY, FORBIDDEN,
};
use boreas_core::fields::{field, Field};
use boreas_core::{steer_alt_svc, AllowAll, AltSvc, FilterVerdict, RequestFilter};

fn block(pairs: &[(&str, &str)]) -> Vec<Field> {
    pairs.iter().map(|(name, value)| field(name, value)).collect()
}

#[test]
fn exchange_every_http3_alternative_is_withdrawn_and_nothing_else_is_touched() {
    for untouched in [
        "h2=\":443\"; ma=3600",
        "clear",
        "",
        "not a valid alt-svc value at all",
    ] {
        assert_eq!(steer_alt_svc(&[untouched]), AltSvc::Untouched, "{untouched}");
    }

    assert_eq!(
        steer_alt_svc(&["h3=\":443\"; ma=2592000, h3-29=\":443\", h2=\":443\"; ma=3600"]),
        AltSvc::Narrowed("h2=\":443\"; ma=3600".to_owned())
    );
    assert_eq!(
        steer_alt_svc(&["h%33=\":443\", h2=\":443\""]),
        AltSvc::Narrowed("h2=\":443\"".to_owned())
    );

    assert_eq!(steer_alt_svc(&["h3=\":443\"; ma=2592000"]), AltSvc::Cleared);
    assert_eq!(
        steer_alt_svc(&["h3=\":443\"", "h3-29=\":443\""]),
        AltSvc::Cleared
    );
    assert_eq!(
        steer_alt_svc(&["h3=\":443\"", "h2=\":443\""]),
        AltSvc::Narrowed("h2=\":443\"".to_owned())
    );

    assert_eq!(
        steer_alt_svc(&["h2=\":443\"; note=\"a,b\", h3=\":443\""]),
        AltSvc::Narrowed("h2=\":443\"; note=\"a,b\"".to_owned())
    );
}

#[test]
fn exchange_only_a_complete_offer_is_read_as_an_upgrade() {
    let offer = block(&[("connection", "keep-alive, Upgrade"), ("upgrade", "websocket")]);
    assert_eq!(handling(&offer), Handling::Upgrade);

    for incomplete in [
        block(&[("upgrade", "websocket")]),
        block(&[("connection", "Upgrade")]),
        block(&[("connection", "keep-alive")]),
        block(&[]),
    ] {
        assert_eq!(handling(&incomplete), Handling::Ordinary);
    }

    let mut ordinary = block(&[
        ("connection", "close, x-custom"),
        ("x-custom", "1"),
        ("upgrade", "h2c"),
    ]);
    strip_hop_by_hop(&mut ordinary, Handling::Ordinary);
    assert!(ordinary.is_empty(), "{ordinary:?}");

    let mut offered = block(&[
        ("connection", "Upgrade"),
        ("upgrade", "websocket"),
        ("te", "trailers"),
    ]);
    strip_hop_by_hop(&mut offered, Handling::Upgrade);
    assert_eq!(offered.len(), 2);
    assert_eq!(
        offered,
        block(&[("connection", "Upgrade"), ("upgrade", "websocket")])
    );
}

#[test]
fn exchange_dropping_a_field_leaves_the_order_of_the_rest() {
    let mut headers = block(&[
        ("host", "example.test"),
        ("user-agent", "boreas-test"),
        ("content-length", "4"),
        ("accept", "text/html"),
        ("cookie", "a=1"),
    ]);
    strip_hop_by_hop(&mut headers, Handling::Ordinary);
    let names: Vec<&[u8]> = headers.iter().map(|(name, _)| name.as_slice()).collect();
    assert_eq!(
        names,
        [b"host".as_slice(), b"user-agent", b"accept", b"cookie"]
    );

    let mut untouched = headers.clone();
    strip_hop_by_hop(&mut untouched, Handling::Ordinary);
    assert_eq!(untouched, headers);
}

#[test]
fn every_hop_by_hop_field_stays_behind() {
    for name in [
        "keep-alive",
        "proxy-authenticate",
        "proxy-authorization",
        "te",
        "trailer",
        "transfer-encoding",
        "content-length",
        "connection",
        "upgrade",
    ] {
        let mut fields = block(&[("accept", "*/*"), (name, "value")]);
        strip_hop_by_hop(&mut fields, Handling::Ordinary);
        assert_eq!(fields, block(&[("accept", "*/*")]), "{name}");
    }
}

#[test]
fn a_response_goes_on_without_its_http3_advertisement() {
    let mut narrowed = block(&[
        ("alt-svc", "h3=\":443\"; ma=2592000, h2=\":443\""),
        ("server", "test"),
    ]);
    steer_response(&mut narrowed);
    assert_eq!(
        narrowed,
        block(&[("server", "test"), ("alt-svc", "h2=\":443\"")])
    );

    let mut cleared = block(&[("alt-svc", "h3=\":443\"")]);
    steer_response(&mut cleared);
    assert_eq!(cleared, block(&[("alt-svc", "clear")]));

    let mut kept = block(&[("alt-svc", "h2=\":443\"")]);
    steer_response(&mut kept);
    assert_eq!(kept, block(&[("alt-svc", "h2=\":443\"")]));
}

#[test]
fn escapes_are_decoded_and_malformed_ones_kept() {
    let decode = |text: &str| percent_decode(text.as_bytes()).into_iter().collect::<String>();
    assert_eq!(decode("h%33"), "h3");
    assert_eq!(decode("%48%33"), "H3");
    assert_eq!(decode("h%3"), "h%3");
    assert_eq!(decode("h%zz"), "h%zz");
    assert_eq!(decode("%+3"), "%+3");
}

#[test]
fn a_request_is_refused_or_sent_and_its_answer_returned_or_spliced() {
    let head = RequestHead {
        method: "GET".to_owned(),
        target: "/".to_owned(),
        fields: block(&[("te", "trailers")]),
    };
    assert_eq!(AllowAll.decide("example.test", &head), FilterVerdict::Allow);

    let mut fields = head.fields.clone();
    assert_eq!(
        take_request(FilterVerdict::Block, &mut fields),
        RequestStep::Refuse(FORBIDDEN)
    );
    assert_eq!(fields, head.fields);
    assert_eq!(
        take_request(FilterVerdict::Allow, &mut fields),
        RequestStep::Send(Handling::Ordinary)
    );
    assert!(fields.is_empty());

    let answer = block(&[("connection", "upgrade"), ("upgrade", "websocket")]);
    let mut response = answer.clone();
    assert_eq!(
        take_response(Handling::Upgrade, Some(101), &mut response),
        ResponseStep::Splice
    );
    assert_eq!(response, answer);
    assert_eq!(
        take_response(Handling::Ordinary, Some(101), &mut response),
        ResponseStep::Return
    );
    assert!(response.is_empty());
    assert_eq!(
        take_response(Handling::Ordinary, None, &mut response),
        ResponseStep::Fail(BAD_GATEWAY)
    );
}
