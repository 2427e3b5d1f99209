//! Weather lookup: the logic between an HTTP response and a weather reading.
//!
//! Temperatures arrive from the weather service in Kelvin, as decimal text.
//! They are read exactly as decimals ([`decimal`]), converted to Celsius and
//! rounded up to hundredths of a degree ([`temperature`]), and gathered with
//! the first condition entry into a [`Weather`] ([`reading`]).
pub mod decimal;
pub mod temperature;
pub mod reading;

pub use decimal::{parse_decimal, Decimal};
pub use reading::{
    interpret_response, normalize, request_url, JSON_Master, JSON_Temps, JSON_Weather, Weather,
    WeatherError,
};
pub use temperature::normalize_temp;
