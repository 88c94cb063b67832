//! The flight record, the plain values it is read from, and the fixed sample
//! record.
use vstd::prelude::*;
use vstd::string::*;

verus! {

/// Whether `year` is a leap year of the proleptic Gregorian calendar.
pub open spec fn is_leap_year(year: int) -> bool {
    year % 4 == 0 && (year % 100 != 0 || year % 400 == 0)
}

/// The number of days in a month (1 to 12) of `year`.
pub open spec fn days_in_month(year: int, month: int) -> int {
    if month == 2 {
        if is_leap_year(year) {
            29
        } else {
            28
        }
    } else if month == 4 || month == 6 || month == 9 || month == 11 {
        30
    } else {
        31
    }
}

/// A calendar date as year, month (1 to 12) and day of the month.
#[derive(Clone, Copy, Debug, PartialEq, Eq)]
pub struct Date {
    pub year: i32,
    pub month: u32,
    pub day: u32,
}

impl Date {
    pub open spec fn wf(self) -> bool {
        1 <= self.month <= 12 && 1 <= self.day <= days_in_month(self.year as int, self.month as int)
    }

    /// Chronological order: by year, then month, then day.
    pub open spec fn precedes(self, other: Date) -> bool {
        ||| self.year < other.year
        ||| self.year == other.year && self.month < other.month
        ||| self.year == other.year && self.month == other.month && self.day < other.day
    }
}

/// One flight of the catalogue.
#[derive(Clone, Debug, PartialEq, Eq)]
pub struct Flight {
    /// The record's identifier, as the 128-bit value of its UUID.
    pub uuid: u128,
    pub date: Date,
    pub origin: String,
    pub destination: String,
    pub airline: String,
    pub time: String,
    pub duration: String,
    pub flight_type: String,
    /// Price in the smallest currency unit.
    pub price_inr: u32,
    pub origin_country: String,
    pub destination_country: String,
    /// Chance of rain, in percent (0 to 100).
    pub rain_probability: u8,
}

/// The fields of one source entry, each as found: `None` where the entry lacks
/// the field or holds a value of another type there.
#[derive(Clone, Debug, PartialEq, Eq)]
pub struct RawEntry {
    pub uuid: Option<u128>,
    pub date: Option<Date>,
    pub origin: Option<String>,
    pub destination: Option<String>,
    pub airline: Option<String>,
    pub time: Option<String>,
    pub duration: Option<String>,
    pub flight_type: Option<String>,
    pub price_inr: Option<u64>,
    pub origin_country: Option<String>,
    pub destination_country: Option<String>,
    pub rain_probability: Option<u64>,
}

impl RawEntry {
    /// Every field is present, the price fits a `u32` and the rain
    /// probability is a percentage.
    pub open spec fn complete(self) -> bool {
        &&& self.uuid is Some
        &&& self.date is Some
        &&& self.origin is Some
        &&& self.destination is Some
        &&& self.airline is Some
        &&& self.time is Some
        &&& self.duration is Some
        &&& self.flight_type is Some
        &&& self.price_inr is Some && self.price_inr->0 <= u32::MAX
        &&& self.origin_country is Some
        &&& self.destination_country is Some
        &&& self.rain_probability is Some && self.rain_probability->0 <= 100
    }
}

impl Flight {
    /// `self` holds exactly the values of the complete entry `e`.
    pub open spec fn built_from(self, e: RawEntry) -> bool {
        &&& Some(self.uuid) == e.uuid
        &&& Some(self.date) == e.date
        &&& Some(self.origin) == e.origin
        &&& Some(self.destination) == e.destination
        &&& Some(self.airline) == e.airline
        &&& Some(self.time) == e.time
        &&& Some(self.duration) == e.duration
        &&& Some(self.flight_type) == e.flight_type
        &&& Some(self.price_inr as u64) == e.price_inr
        &&& Some(self.origin_country) == e.origin_country
        &&& Some(self.destination_country) == e.destination_country
        &&& Some(self.rain_probability as u64) == e.rain_probability
    }

    /// A field-by-field copy.
    pub fn duplicate(&self) -> (r: Flight)
        ensures
            r == *self,
    {
        Flight {
            uuid: self.uuid,
            date: self.date,
            origin: self.origin.clone(),
            destination: self.destination.clone(),
            airline: self.airline.clone(),
            time: self.time.clone(),
            duration: self.duration.clone(),
            flight_type: self.flight_type.clone(),
            price_inr: self.price_inr,
            origin_country: self.origin_country.clone(),
            destination_country: self.destination_country.clone(),
            rain_probability: self.rain_probability,
        }
    }

    /// The record an entry describes, or `None` where a field is missing or
    /// does not fit.
    pub fn from_entry(e: &RawEntry) -> (r: Option<Flight>)
        ensures
            r is Some <==> e.complete(),
            r is Some ==> r->0.built_from(*e),
    {
        let (
            Some(uuid),
            Some(date),
            Some(origin),
            Some(destination),
            Some(airline),
            Some(time),
            Some(duration),
            Some(flight_type),
            Some(price),
            Some(origin_country),
            Some(destination_country),
            Some(rain),
        ) = (
            &e.uuid,
            &e.date,
            &e.origin,
            &e.destination,
            &e.airline,
            &e.time,
            &e.duration,
            &e.flight_type,
            &e.price_inr,
            &e.origin_country,
            &e.destination_country,
            &e.rain_probability,
        ) else {
            return None;
        };
        if *price > u32::MAX as u64 || *rain > 100 {
            return None;
        }
        Some(
            Flight {
                uuid: *uuid,
                date: *date,
                origin: origin.clone(),
                destination: destination.clone(),
                airline: airline.clone(),
                time: time.clone(),
                duration: duration.clone(),
                flight_type: flight_type.clone(),
                price_inr: *price as u32,
                origin_country: origin_country.clone(),
                destination_country: destination_country.clone(),
                rain_probability: *rain as u8,
            },
        )
    }

    /// `self` holds the values of the fixed sample record.
    pub open spec fn is_sample(self) -> bool {
        &&& self.uuid == 0x39173ac0_bbf4_4b2f_8b89_7f15c3614937u128
        &&& self.date == (Date { year: 2026, month: 1, day: 4 })
        &&& self.origin@ == "Ho Chi Minh City"@
        &&& self.destination@ == "Ahmedabad"@
        &&& self.airline@ == "Singapore Airlines"@
        &&& self.time@ == "19:50 - 21:50"@
        &&& self.duration@ == "27h 30m"@
        &&& self.flight_type@ == "1 Stop"@
        &&& self.price_inr == 31260
        &&& self.origin_country@ == "Vietnam"@
        &&& self.destination_country@ == "India"@
        &&& self.rain_probability == 0
    }

    /// The record served when no source is available.
    pub fn sample() -> (r: Flight)
        ensures
            r.is_sample(),
    {
        Flight {
            uuid: 0x39173ac0_bbf4_4b2f_8b89_7f15c3614937u128,
            date: Date { year: 2026, month: 1, day: 4 },
            origin: String::from_str("Ho Chi Minh City"),
            destination: String::from_str("Ahmedabad"),
            airline: String::from_str("Singapore Airlines"),
            time: String::from_str("19:50 - 21:50"),
            duration: String::from_str("27h 30m"),
            flight_type: String::from_str("1 Stop"),
            price_inr: 31260,
            origin_country: String::from_str("Vietnam"),
            destination_country: String::from_str("India"),
            rain_probability: 0,
        }
    }
}

} // verus!
