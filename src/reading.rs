//! The service's answer, the weather reading made from it, and the two
//! ways a lookup fails.
use vstd::prelude::*;
use crate::decimal::{parse_decimal, parse_spec, Decimal};
use crate::temperature::{celsius_hundredths, normalize_temp};

verus! {

/// One condition entry of the answer ("Clear", "clear sky").
#[allow(non_camel_case_types)]
#[derive(Clone, Debug)]
pub struct JSON_Weather {
    pub main: String,
    pub description: String,
}

/// The temperature block of the answer, in Kelvin.
#[allow(non_camel_case_types)]
#[derive(Clone, Copy, Debug, PartialEq, Eq, Structural)]
pub struct JSON_Temps {
    pub temp: Decimal,
    pub feels_like: Decimal,
    pub temp_min: Decimal,
    pub temp_max: Decimal,
}

/// The answer of the weather service: its condition entries, in order, and
/// its temperature block.
#[allow(non_camel_case_types)]
#[derive(Clone, Debug)]
pub struct JSON_Master {
    pub weather: Vec<JSON_Weather>,
    pub temp: JSON_Temps,
}

/// A weather reading: the first condition of the answer, and its four
/// temperatures in hundredths of a degree Celsius.
#[derive(Clone, Debug)]
pub struct Weather {
    pub name: String,
    pub description: String,
    pub temp: i64,
    pub temp_max: i64,
    pub temp_min: i64,
    pub feels_like: i64,
}

/// Why a lookup gave no reading.
#[derive(Clone, Copy, Debug, PartialEq, Eq, Structural)]
pub enum WeatherError {
    /// The service could not be reached, or did not answer with success.
    ConnectionError,
    /// The answer could not be read as a weather report.
    ResponseFormatError,
}

impl JSON_Temps {
    pub open spec fn wf(self) -> bool {
        self.temp.wf() && self.feels_like.wf() && self.temp_min.wf() && self.temp_max.wf()
    }

    /// Reads the four Kelvin readings from their decimal text; `None` when
    /// any of them is not a decimal number that [`parse_decimal`] accepts.
    pub fn from_text(temp: &[u8], feels_like: &[u8], temp_min: &[u8], temp_max: &[u8]) -> (r:
        Option<JSON_Temps>)
        ensures
            r is Some <==> (parse_spec(temp@) is Some && parse_spec(feels_like@) is Some
                && parse_spec(temp_min@) is Some && parse_spec(temp_max@) is Some),
            r matches Some(t) ==> {
                &&& t.wf()
                &&& parse_spec(temp@) == Some(t.temp)
                &&& parse_spec(feels_like@) == Some(t.feels_like)
                &&& parse_spec(temp_min@) == Some(t.temp_min)
                &&& parse_spec(temp_max@) == Some(t.temp_max)
            },
    {
        match (
            parse_decimal(temp),
            parse_decimal(feels_like),
            parse_decimal(temp_min),
            parse_decimal(temp_max),
        ) {
            (Some(temp), Some(feels_like), Some(temp_min), Some(temp_max)) => Some(
                JSON_Temps { temp, feels_like, temp_min, temp_max },
            ),
            _ => None,
        }
    }
}

impl Weather {
    pub fn new(
        name: &str,
        description: &str,
        temp: i64,
        temp_max: i64,
        temp_min: i64,
        feels_like: i64,
    ) -> (r: Weather)
        ensures
            r.name@ == name@,
            r.description@ == description@,
            r.temp == temp,
            r.temp_max == temp_max,
            r.temp_min == temp_min,
            r.feels_like == feels_like,
    {
        Weather {
            name: name.to_owned(),
            description: description.to_owned(),
            temp,
            temp_max,
            temp_min,
            feels_like,
        }
    }
}

/// `w` holds the first condition of `raw` and its temperatures in Celsius.
pub open spec fn reads_as(w: Weather, raw: JSON_Master) -> bool {
    &&& raw.weather@.len() > 0
    &&& w.name@ == raw.weather@[0].main@
    &&& w.description@ == raw.weather@[0].description@
    &&& w.temp == celsius_hundredths(raw.temp.temp)
    &&& w.feels_like == celsius_hundredths(raw.temp.feels_like)
    &&& w.temp_min == celsius_hundredths(raw.temp.temp_min)
    &&& w.temp_max == celsius_hundredths(raw.temp.temp_max)
}

/// What [`normalize`] gives for `raw`: the reading made from its first
/// condition, or `ResponseFormatError` when it has none.
pub open spec fn normalized(raw: JSON_Master, r: Result<Weather, WeatherError>) -> bool {
    if raw.weather@.len() == 0 {
        r == Err::<Weather, WeatherError>(WeatherError::ResponseFormatError)
    } else {
        r matches Ok(w) && reads_as(w, raw)
    }
}

/// A 2xx status.
pub open spec fn is_success(status: u16) -> bool {
    200 <= status < 300
}

/// The reading that the answer `raw` gives: the first condition entry and
/// the four temperatures, converted to Celsius and rounded up to hundredths.
/// An answer without condition entries is a `ResponseFormatError`.
pub fn normalize(raw: &JSON_Master) -> (r: Result<Weather, WeatherError>)
    requires
        raw.temp.wf(),
    ensures
        normalized(*raw, r),
{
    if raw.weather.len() == 0 {
        return Err(WeatherError::ResponseFormatError);
    }
    let first = &raw.weather[0];
    Ok(
        Weather::new(
            first.main.as_str(),
            first.description.as_str(),
            normalize_temp(&raw.temp.temp),
            normalize_temp(&raw.temp.temp_max),
            normalize_temp(&raw.temp.temp_min),
            normalize_temp(&raw.temp.feels_like),
        ),
    )
}

/// The outcome of one request: `status` is `None` when the host could not
/// be reached, and `body` is `None` when the answer could not be read into
/// the shape of a weather report.
///
/// A missing or non-2xx status is a `ConnectionError`; a 2xx answer that
/// could not be read is a `ResponseFormatError`; any other answer is
/// normalized.
pub fn interpret_response(status: Option<u16>, body: Option<JSON_Master>) -> (r: Result<
    Weather,
    WeatherError,
>)
    requires
        body matches Some(raw) ==> raw.temp.wf(),
    ensures
        !(status matches Some(s) && is_success(s)) ==> r == Err::<Weather, WeatherError>(
            WeatherError::ConnectionError,
        ),
        status matches Some(s) && is_success(s) ==> match body {
            None => r == Err::<Weather, WeatherError>(WeatherError::ResponseFormatError),
            Some(raw) => normalized(raw, r),
        },
{
    match status {
        Some(s) if 200 <= s && s < 300 => {},
        _ => return Err(WeatherError::ConnectionError),
    }
    match body {
        None => Err(WeatherError::ResponseFormatError),
        Some(raw) => normalize(&raw),
    }
}

/// The address of the current-weather query for `location` and `api_key`.
pub open spec fn url_spec(location: Seq<char>, api_key: Seq<char>) -> Seq<char> {
    "https://api.openweathermap.org/data/2.5/weather?q="@ + location + "&APPID="@ + api_key
}

/// The address to send the query for `location` to, with `api_key`.
pub fn request_url(location: &str, api_key: &str) -> (r: String)
    ensures
        r@ == url_spec(location@, api_key@),
{
    let mut url = String::from_str("https://api.openweathermap.org/data/2.5/weather?q=");
    url.append(location);
    url.append("&APPID=");
    url.append(api_key);
    url
}

} // verus!
