use rate_alert::alert::alert_decision;
use rate_alert::alert::build_alert;
use rate_alert::alert::body_line;
use rate_alert::alert::request_url;
use rate_alert::alert::subject_line;
use rate_alert::alert::Decision;
use rate_alert::alert::NotifyError;
use rate_alert::decimal::parse_decimal;
use rate_alert::decimal::Decimal;
use rate_alert::json::fetch_from_body;
use rate_alert::json::parse_rates_body;
use rate_alert::json::rate_for;
use rate_alert::json::FetchError;

fn dec(s: &str) -> Decimal {
    parse_decimal(s.as_bytes()).unwrap()
}

#[test]
fn fetch_returns_mapped_value() {
    let body = b"{\"rates\":{\"USD\":1.08,\"BRL\":5.1234}}";
    let got = fetch_from_body(body, b"BRL").unwrap();
    assert_eq!(got, dec("5.1234"));
    let got_usd = fetch_from_body(body, b"USD").unwrap();
    assert_eq!(got_usd, dec("1.08"));
}

#[test]
fn fetch_missing_target_is_target_not_found() {
    let body = b"{\"rates\":{\"USD\":1.08}}";
    let r = fetch_from_body(body, b"BRL");
    assert!(matches!(r, Err(FetchError::TargetNotFound)));
}

#[test]
fn fetch_empty_rates_is_target_not_found() {
    let body = b"{\"rates\":{}}";
    let r = fetch_from_body(body, b"BRL");
    assert!(matches!(r, Err(FetchError::TargetNotFound)));
}

#[test]
fn fetch_malformed_body_is_decode() {
    assert!(matches!(fetch_from_body(b"not json", b"BRL"), Err(FetchError::Decode)));
    assert!(matches!(fetch_from_body(b"", b"BRL"), Err(FetchError::Decode)));
    assert!(matches!(fetch_from_body(b"{\"rates\":[]}", b"BRL"), Err(FetchError::Decode)));
    assert!(matches!(fetch_from_body(b"{}", b"BRL"), Err(FetchError::Decode)));
    assert!(matches!(
        fetch_from_body(b"{\"base\":\"EUR\"}", b"BRL"),
        Err(FetchError::Decode)
    ));
    assert!(matches!(
        fetch_from_body(b"{\"rates\":{\"BRL\":5.0}}x", b"BRL"),
        Err(FetchError::Decode)
    ));
}

#[test]
fn fetch_skips_whitespace() {
    let body = b"{ \"rates\" : { \"BRL\" : 5.0 , \"USD\" : 1.08 } }";
    assert_eq!(fetch_from_body(body, b"BRL").unwrap(), dec("5.0"));
    let body2 = b"{\n\t\"rates\":\n{\"BRL\": 4.50}\r\n}\n";
    assert_eq!(fetch_from_body(body2, b"BRL").unwrap(), dec("4.50"));
}

#[test]
fn fetch_ignores_other_members() {
    let body = b"{\"base\":\"EUR\",\"date\":\"2024-01-01\",\"rates\":{\"BRL\":5.1234},\"time_last_updated\":1704067200,\"ok\":true,\"note\":null}";
    assert_eq!(fetch_from_body(body, b"BRL").unwrap(), dec("5.1234"));
    let escaped = b"{\"motd\":\"a \\\" quote\",\"rates\":{\"BRL\":2.5}}";
    assert_eq!(fetch_from_body(escaped, b"BRL").unwrap(), dec("2.5"));
    let exp_member = b"{\"stamp\":-1.5e-3,\"rates\":{\"BRL\":2.5}}";
    assert_eq!(fetch_from_body(exp_member, b"BRL").unwrap(), dec("2.5"));
}

#[test]
fn fetch_rejects_duplicate_rates_member() {
    let body = b"{\"rates\":{\"BRL\":1.0},\"rates\":{\"BRL\":2.0}}";
    assert!(matches!(fetch_from_body(body, b"BRL"), Err(FetchError::Decode)));
}

#[test]
fn fetch_rounds_long_fractions() {
    // the thirteenth fraction digit rounds half up onto the 10^-12 grid
    let down = b"{\"rates\":{\"BRL\":5.1234567890123}}";
    assert_eq!(fetch_from_body(down, b"BRL").unwrap(), dec("5.123456789012"));
    let up = b"{\"rates\":{\"BRL\":5.1234567890125}}";
    assert_eq!(fetch_from_body(up, b"BRL").unwrap(), dec("5.123456789013"));
}

#[test]
fn fetch_rejects_rate_numbers_outside_the_grammar() {
    // no integer digit
    assert!(matches!(
        fetch_from_body(b"{\"rates\":{\"BRL\":.5}}", b"BRL"),
        Err(FetchError::Decode)
    ));
    // negative
    assert!(matches!(
        fetch_from_body(b"{\"rates\":{\"BRL\":-1.0}}", b"BRL"),
        Err(FetchError::Decode)
    ));
    // exponent notation
    assert!(matches!(
        fetch_from_body(b"{\"rates\":{\"BRL\":1e3}}", b"BRL"),
        Err(FetchError::Decode)
    ));
    // trailing point
    assert!(matches!(
        fetch_from_body(b"{\"rates\":{\"BRL\":5.}}", b"BRL"),
        Err(FetchError::Decode)
    ));
}

#[test]
fn fetch_duplicate_code_last_wins() {
    let body = b"{\"rates\":{\"BRL\":1.5,\"BRL\":2.5}}";
    let got = fetch_from_body(body, b"BRL").unwrap();
    assert_eq!(got, dec("2.5"));
}

#[test]
fn parse_rates_body_keeps_order() {
    let body = b"{\"rates\":{\"USD\":1.08,\"BRL\":5.1234,\"JPY\":161.2}}";
    let t = parse_rates_body(body).unwrap();
    assert_eq!(t.pairs.len(), 3);
    assert_eq!(t.pairs[0].0, b"USD".to_vec());
    assert_eq!(t.pairs[1].0, b"BRL".to_vec());
    assert_eq!(t.pairs[2].0, b"JPY".to_vec());
    assert_eq!(rate_for(&t, b"JPY").unwrap(), dec("161.2"));
    assert!(rate_for(&t, b"GBP").is_none());
}

#[test]
fn decision_at_threshold_triggers() {
    let d = alert_decision(&Ok(dec("5.00")), &dec("5.00"));
    assert_eq!(d, Decision::SendAlert);
}

#[test]
fn decision_below_threshold_triggers() {
    let d = alert_decision(&Ok(dec("4.50")), &dec("5.00"));
    assert_eq!(d, Decision::SendAlert);
}

#[test]
fn decision_above_threshold_no_alert() {
    let d = alert_decision(&Ok(dec("5.50")), &dec("5.00"));
    assert_eq!(d, Decision::NoAlert);
}

#[test]
fn decision_after_failed_fetch_never_alerts() {
    let t = dec("5.00");
    let network: Result<Decimal, FetchError> = Err(FetchError::Network("unreachable".to_string()));
    assert_eq!(alert_decision(&network, &t), Decision::FetchFailed);
    let missing: Result<Decimal, FetchError> = Err(FetchError::TargetNotFound);
    assert_eq!(alert_decision(&missing, &t), Decision::FetchFailed);
    let decode: Result<Decimal, FetchError> = Err(FetchError::Decode);
    assert_eq!(alert_decision(&decode, &t), Decision::FetchFailed);
}

#[test]
fn alert_message_is_formatted_exactly() {
    let m = build_alert("EUR", "BRL", &dec("5.1234"), "alerts@example.com", "ops@example.com")
        .unwrap();
    assert_eq!(m.subject, "Currency Alert: EUR to BRL Exchange Rate");
    assert_eq!(m.body, "The EUR to BRL exchange rate has reached 5.12!");
    assert_eq!(m.from, "alerts@example.com");
    assert_eq!(m.to, "ops@example.com");
}

#[test]
fn alert_body_carries_two_decimal_rate() {
    let b = body_line("EUR", "BRL", &dec("4.50"));
    assert!(b.contains("4.50"));
    assert_eq!(b, "The EUR to BRL exchange rate has reached 4.50!");
    let s = subject_line("USD", "JPY");
    assert_eq!(s, "Currency Alert: USD to JPY Exchange Rate");
}

#[test]
fn malformed_sender_is_invalid_address() {
    let r = build_alert("EUR", "BRL", &dec("4.50"), "not-an-address", "ops@example.com");
    assert!(matches!(r, Err(NotifyError::InvalidAddress)));
}

#[test]
fn malformed_recipient_is_invalid_address() {
    let r = build_alert("EUR", "BRL", &dec("4.50"), "alerts@example.com", "@missing-user");
    assert!(matches!(r, Err(NotifyError::InvalidAddress)));
}

#[test]
fn valid_addresses_are_accepted() {
    let r = build_alert("EUR", "BRL", &dec("4.50"), "alerts@example.com", "ops@example.com");
    assert!(r.is_ok());
}

#[test]
fn threshold_parses_plain_decimals() {
    assert!(parse_decimal(b"5.00").is_some());
    assert!(parse_decimal(b"0").is_some());
    assert_eq!(parse_decimal(b"5"), parse_decimal(b"5.000"));
    assert_eq!(parse_decimal(b"07.5"), parse_decimal(b"7.50"));
    // the bare-point forms a float parse accepts
    assert_eq!(parse_decimal(b"5."), parse_decimal(b"5"));
    assert_eq!(parse_decimal(b".5"), parse_decimal(b"0.5"));
}

#[test]
fn threshold_rejects_what_is_not_a_decimal() {
    assert!(parse_decimal(b"").is_none());
    assert!(parse_decimal(b".").is_none());
    assert!(parse_decimal(b"abc").is_none());
    assert!(parse_decimal(b"5.0.0").is_none());
    assert!(parse_decimal(b"-1").is_none());
    assert!(parse_decimal(b"1e3").is_none());
    assert!(parse_decimal(b" 5").is_none());
}

#[test]
fn decimal_size_limits() {
    // twenty integer digits parse, twenty-one do not
    assert!(parse_decimal(b"99999999999999999999").is_some());
    assert!(parse_decimal(b"999999999999999999999").is_none());
    // fractions past the twelfth digit round onto the grid
    assert!(parse_decimal(b"1.000000000001").is_some());
    assert_eq!(parse_decimal(b"1.0000000000001"), parse_decimal(b"1"));
    assert_eq!(parse_decimal(b"1.0000000000005"), parse_decimal(b"1.000000000001"));
}

#[test]
fn rate_renders_to_two_places() {
    assert_eq!(dec("0").fmt_2dp(), "0.00");
    assert_eq!(dec("4.5").fmt_2dp(), "4.50");
    assert_eq!(dec("5.1234").fmt_2dp(), "5.12");
    assert_eq!(dec("123.456").fmt_2dp(), "123.46");
    // half rounds away from zero
    assert_eq!(dec("1.005").fmt_2dp(), "1.01");
    assert_eq!(dec("2.675").fmt_2dp(), "2.68");
}

#[test]
fn rate_comparison_is_exact() {
    assert!(dec("4.50").le(&dec("5.00")));
    assert!(dec("5.00").le(&dec("5.00")));
    assert!(!dec("5.50").le(&dec("5.00")));
    assert!(dec("4.999999999999").le(&dec("5.00")));
    assert!(!dec("5.000000000001").le(&dec("5.00")));
}

#[test]
fn request_url_joins_with_a_slash() {
    let u = request_url("https://api.example.com/latest", "EUR");
    assert_eq!(u, "https://api.example.com/latest/EUR");
}
