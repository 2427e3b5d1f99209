use weather::{
    interpret_response, normalize, normalize_temp, parse_decimal, request_url, Decimal,
    JSON_Master, JSON_Temps, JSON_Weather, Weather, WeatherError,
};

fn kelvin(text: &str) -> Decimal {
    parse_decimal(text.as_bytes()).expect("a decimal number")
}

fn celsius(text: &str) -> i64 {
    normalize_temp(&kelvin(text))
}

fn clear_sky() -> JSON_Weather {
    JSON_Weather { main: "Clear".to_string(), description: "clear sky".to_string() }
}

fn sample_temps() -> JSON_Temps {
    JSON_Temps::from_text(b"300.15", b"299.5", b"298.0", b"302.0").expect("readable temperatures")
}

#[test]
fn parse_plain_decimal() {
    assert_eq!(parse_decimal(b"300.005"), Some(Decimal { mantissa: 300005, scale: 3 }));
    assert_eq!(parse_decimal(b"300"), Some(Decimal { mantissa: 300, scale: 0 }));
    assert_eq!(parse_decimal(b"-12.5"), Some(Decimal { mantissa: -125, scale: 1 }));
    assert_eq!(parse_decimal(b"007.50"), Some(Decimal { mantissa: 750, scale: 2 }));
}

#[test]
fn parse_rejects_malformed_text() {
    for text in ["", "-", "3.", ".5", "3.4.5", "abc", "1e5", "+3", "3 ", "-.5", "--3"] {
        assert_eq!(parse_decimal(text.as_bytes()), None, "{text:?}");
    }
}

#[test]
fn parse_rejects_numbers_that_do_not_fit() {
    assert_eq!(
        parse_decimal(b"9999999999999999"),
        Some(Decimal { mantissa: 9999999999999999, scale: 0 })
    );
    assert_eq!(parse_decimal(b"10000000000000000"), None);
    assert_eq!(parse_decimal(b"1000000000000.0000"), None);
    assert_eq!(
        parse_decimal(b"0.000000000000000001"),
        Some(Decimal { mantissa: 1, scale: 18 })
    );
    assert_eq!(parse_decimal(b"0.0000000000000000001"), None);
}

#[test]
fn normalize_exact_value() {
    assert_eq!(celsius("300.0"), 2685);
    assert_eq!(celsius("300"), 2685);
}

#[test]
fn normalize_rounds_up_at_hundredths() {
    assert_eq!(celsius("300.005"), 2686);
    assert_eq!(celsius("300.151"), 2701);
    assert_eq!(celsius("300.1500001"), 2701);
}

#[test]
fn normalize_below_freezing() {
    assert_eq!(celsius("273"), -15);
    assert_eq!(celsius("273.145"), 0);
    assert_eq!(celsius("0"), -27315);
    assert_eq!(celsius("273.15"), 0);
}

#[test]
fn normalize_edges_of_the_range() {
    assert_eq!(celsius("9999999999999999"), 999999999999999900 - 27315);
    assert_eq!(celsius("-9999999999999999"), -999999999999999900 - 27315);
    assert_eq!(celsius("0.000000000000000001"), -27314);
}

#[test]
fn empty_condition_sequence_is_a_format_error() {
    let raw = JSON_Master { weather: vec![], temp: sample_temps() };
    assert!(matches!(normalize(&raw), Err(WeatherError::ResponseFormatError)));
    assert!(matches!(
        interpret_response(Some(200), Some(raw)),
        Err(WeatherError::ResponseFormatError)
    ));
}

#[test]
fn failed_status_or_unreachable_host_is_a_connection_error() {
    let raw = JSON_Master { weather: vec![clear_sky()], temp: sample_temps() };
    assert!(matches!(interpret_response(None, None), Err(WeatherError::ConnectionError)));
    assert!(matches!(
        interpret_response(Some(404), Some(raw.clone())),
        Err(WeatherError::ConnectionError)
    ));
    assert!(matches!(
        interpret_response(Some(500), None),
        Err(WeatherError::ConnectionError)
    ));
    assert!(matches!(
        interpret_response(Some(199), Some(raw.clone())),
        Err(WeatherError::ConnectionError)
    ));
    assert!(matches!(
        interpret_response(Some(300), Some(raw)),
        Err(WeatherError::ConnectionError)
    ));
}

#[test]
fn unreadable_body_is_a_format_error() {
    assert!(matches!(
        interpret_response(Some(200), None),
        Err(WeatherError::ResponseFormatError)
    ));
    assert!(JSON_Temps::from_text(b"300.15", b"warm", b"298.0", b"302.0").is_none());
    assert!(JSON_Temps::from_text(b"", b"299.5", b"298.0", b"302.0").is_none());
}

#[test]
fn end_to_end_clear_sky() {
    let raw = JSON_Master {
        weather: vec![
            clear_sky(),
            JSON_Weather { main: "Rain".to_string(), description: "light rain".to_string() },
        ],
        temp: sample_temps(),
    };
    let w = interpret_response(Some(200), Some(raw)).ok().expect("a reading");
    assert_eq!(w.name, "Clear");
    assert_eq!(w.description, "clear sky");
    assert_eq!(w.temp, 2700);
    assert_eq!(w.feels_like, 2635);
    assert_eq!(w.temp_min, 2485);
    assert_eq!(w.temp_max, 2885);
}

#[test]
fn temperatures_read_from_text() {
    let t = sample_temps();
    assert_eq!(t.temp, Decimal { mantissa: 30015, scale: 2 });
    assert_eq!(t.feels_like, Decimal { mantissa: 2995, scale: 1 });
    assert_eq!(t.temp_min, Decimal { mantissa: 2980, scale: 1 });
    assert_eq!(t.temp_max, Decimal { mantissa: 3020, scale: 1 });
}

#[test]
fn weather_new_keeps_its_fields() {
    let w = Weather::new("Rain", "light rain", 1, 2, 3, 4);
    assert_eq!(w.name, "Rain");
    assert_eq!(w.description, "light rain");
    assert_eq!((w.temp, w.temp_max, w.temp_min, w.feels_like), (1, 2, 3, 4));
}

#[test]
fn request_url_embeds_location_and_key() {
    assert_eq!(
        request_url("London", "abc123"),
        "https://api.openweathermap.org/data/2.5/weather?q=London&APPID=abc123"
    );
}
