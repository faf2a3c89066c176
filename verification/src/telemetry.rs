//! Settings of the metrics export.
use vstd::prelude::*;
use crate::text::{chars_of, parse_u64_spec, parse_unsigned};

verus! {

/// The export interval, in seconds, for the value of
/// `TELEMETRY_EXPORT_INTERVAL_SECS`: the number it holds, or 60 when it is
/// unset or not a `u64`.
pub open spec fn export_interval_spec(v: Option<Seq<char>>) -> u64 {
    match v {
        Some(s) => match parse_u64_spec(s) {
            Some(n) => n,
            None => 60,
        },
        None => 60,
    }
}

/// The OTLP endpoint for the value of `NEW_RELIC_OTLP_ENDPOINT`: that value,
/// or New Relic's endpoint when it is unset.
pub open spec fn otlp_endpoint_spec(v: Option<Seq<char>>) -> Seq<char> {
    match v {
        Some(s) => s,
        None => "https://otlp.nr-data.net:4318"@,
    }
}

/// The export interval, in seconds, given the value of
/// `TELEMETRY_EXPORT_INTERVAL_SECS` if it is set.
pub fn export_interval_secs(v: Option<&str>) -> (r: u64)
    ensures
        r == export_interval_spec(match v {
            Some(s) => Some(s@),
            None => None,
        }),
{
    match v {
        Some(s) => {
            let chars = chars_of(s);
            match parse_unsigned(&chars, u64::MAX) {
                Some(n) => n,
                None => 60,
            }
        },
        None => 60,
    }
}

/// The OTLP endpoint, given the value of `NEW_RELIC_OTLP_ENDPOINT` if it is set.
pub fn otlp_endpoint(v: Option<String>) -> (r: String)
    ensures
        r@ == otlp_endpoint_spec(match v {
            Some(s) => Some(s@),
            None => None,
        }),
{
    match v {
        Some(s) => s,
        None => String::from_str("https://otlp.nr-data.net:4318"),
    }
}

} // verus!
