use vstd::prelude::*;
use crate::domain::decimal::FixedDecimal;

verus! {

/// Closed set of geographic pricing zones.
#[derive(Debug, Clone, Copy, PartialEq, Eq, Structural)]
pub enum GeoZone {
    Peninsula,
    Canarias,
    Baleares,
    Ceuta,
    Melilla,
}

/// A normalized electricity spot-price observation.
///
/// `datetime` is the observation moment in whole seconds since the Unix
/// epoch (UTC, second precision); `value` is the fixed-point price; the pair
/// (`datetime`, `geo_zone`) is the natural key under which observations are
/// stored; `meta_tags` is an optional free-form annotation that no current
/// producer fills.
#[derive(Debug)]
pub struct ElectricityPrice {
    pub datetime: i64,
    pub value: FixedDecimal,
    pub geo_zone: GeoZone,
    pub meta_tags: Option<String>,
}

impl Clone for ElectricityPrice {
    fn clone(&self) -> (res: Self)
        ensures
            res == *self,
    {
        ElectricityPrice {
            datetime: self.datetime,
            value: self.value,
            geo_zone: self.geo_zone,
            meta_tags: match &self.meta_tags {
                Some(t) => Some(t.clone()),
                None => None,
            },
        }
    }
}

impl ElectricityPrice {
    /// A price counts as expensive strictly above 150 whole currency units
    /// (mantissa `150 * PRICE_SCALE`).
    pub fn is_expensive(&self) -> (r: bool)
        ensures
            r == (self.value.mantissa > 150000000),
    {
        self.value.mantissa > 150000000
    }
}

/// A UTC calendar day, counted in whole days from the Unix epoch
/// (1970-01-01 is day 0; earlier days are negative).
#[derive(Debug, Clone, Copy, PartialEq, Eq, Structural)]
pub struct CalendarDate {
    pub days_from_epoch: i64,
}

/// The UTC calendar day a timestamp falls on: floor division by the 86400
/// seconds of a day.
pub open spec fn day_index(ts: int) -> int {
    ts / 86400
}

/// For positive `n` and `d`, floor of `-n / d` equals the negated ceiling of
/// `n / d`.
proof fn lemma_floor_div_neg(n: int, d: int)
    requires
        n > 0,
        d > 0,
    ensures
        (-n) / d == -((n + d - 1) / d),
{
    let q = (n + d - 1) / d;
    let r = (n + d - 1) % d;
    vstd::arithmetic::div_mod::lemma_fundamental_div_mod(n + d - 1, d);
    vstd::arithmetic::div_mod::lemma_mod_bound(n + d - 1, d);
    assert(-n == (-q) * d + (d - 1 - r)) by (nonlinear_arith)
        requires
            n + d - 1 == d * q + r,
    ;
    vstd::arithmetic::div_mod::lemma_fundamental_div_mod_converse(-n, d, -q, d - 1 - r);
}

/// The UTC calendar day `ts` falls on.
pub fn day_of_timestamp(ts: i64) -> (d: i64)
    ensures
        d as int == day_index(ts as int),
{
    if ts >= 0 {
        ((ts as u64) / 86400u64) as i64
    } else {
        let neg: u128 = (-(ts as i128)) as u128;
        let q: u128 = (neg + 86399) / 86400;
        proof {
            lemma_floor_div_neg(-(ts as int), 86400);
        }
        -(q as i64)
    }
}

/// The storage string for each zone.
pub open spec fn spec_zone_str(z: GeoZone) -> Seq<char> {
    match z {
        GeoZone::Peninsula => "Peninsula"@,
        GeoZone::Canarias => "Canarias"@,
        GeoZone::Baleares => "Baleares"@,
        GeoZone::Ceuta => "Ceuta"@,
        GeoZone::Melilla => "Melilla"@,
    }
}

/// The zone a storage string denotes; anything unrecognized falls back to
/// `Peninsula`, as the read path of the original storage schema does.
pub open spec fn spec_zone_of(s: Seq<char>) -> GeoZone {
    if s == "Canarias"@ {
        GeoZone::Canarias
    } else if s == "Baleares"@ {
        GeoZone::Baleares
    } else if s == "Ceuta"@ {
        GeoZone::Ceuta
    } else if s == "Melilla"@ {
        GeoZone::Melilla
    } else {
        GeoZone::Peninsula
    }
}

/// Writes a zone as its storage string.
pub fn zone_as_str(z: &GeoZone) -> (r: &'static str)
    ensures
        r@ == spec_zone_str(*z),
{
    match z {
        GeoZone::Peninsula => "Peninsula",
        GeoZone::Canarias => "Canarias",
        GeoZone::Baleares => "Baleares",
        GeoZone::Ceuta => "Ceuta",
        GeoZone::Melilla => "Melilla",
    }
}

/// Reads a zone back from its storage string.
pub fn zone_of_str(s: &str) -> (z: GeoZone)
    ensures
        z == spec_zone_of(s@),
{
    let owned = String::from_str(s);
    if owned == String::from_str("Canarias") {
        GeoZone::Canarias
    } else if owned == String::from_str("Baleares") {
        GeoZone::Baleares
    } else if owned == String::from_str("Ceuta") {
        GeoZone::Ceuta
    } else if owned == String::from_str("Melilla") {
        GeoZone::Melilla
    } else {
        GeoZone::Peninsula
    }
}

/// Law: every supported zone, written as its storage string and read back,
/// yields the identical zone.
pub proof fn lemma_zone_round_trip(z: GeoZone)
    ensures
        spec_zone_of(spec_zone_str(z)) == z,
{
    reveal_strlit("Peninsula");
    reveal_strlit("Canarias");
    reveal_strlit("Baleares");
    reveal_strlit("Ceuta");
    reveal_strlit("Melilla");
    assert("Peninsula"@.len() == 9);
    assert("Canarias"@.len() == 8);
    assert("Baleares"@.len() == 8);
    assert("Ceuta"@.len() == 5);
    assert("Melilla"@.len() == 7);
    assert("Canarias"@[0] == 'C');
    assert("Baleares"@[0] == 'B');
}

} // verus!
