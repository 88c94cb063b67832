//! Building the data set from JSON text: each array entry becomes a record
//! when all of its fields are present and well typed, and is skipped
//! otherwise.
use vstd::prelude::*;
use crate::flight::{Date, Flight, RawEntry};
use chrono::Datelike;

verus! {

#[verifier::external_type_specification]
#[verifier::external_body]
pub struct ExValue(serde_json::Value);

#[verifier::external_type_specification]
#[verifier::external_body]
pub struct ExJsonError(serde_json::Error);

/// The value that `serde_json::from_str` parses from a text, `None` where the
/// text is not JSON.
pub uninterp spec fn json_of(text: Seq<char>) -> Option<serde_json::Value>;

/// The elements of a JSON value that is an array, `None` for any other value.
pub uninterp spec fn array_of(v: serde_json::Value) -> Option<Seq<serde_json::Value>>;

/// The string a JSON object holds under `key`, `None` where `v` is not an
/// object, lacks the key or holds another kind of value there.
pub uninterp spec fn text_field_of(v: serde_json::Value, key: Seq<char>) -> Option<Seq<char>>;

/// The non-negative integer a JSON object holds under `key`, `None` where `v`
/// is not an object, lacks the key or holds anything else there.
pub uninterp spec fn number_field_of(v: serde_json::Value, key: Seq<char>) -> Option<u64>;

/// Relies on `serde_json::Value::as_array`: the elements of an array value,
/// `None` for any other value.
pub assume_specification[ serde_json::Value::as_array ](v: &serde_json::Value) -> (r: Option<
    &Vec<serde_json::Value>,
>)
    ensures
        match r {
            Some(a) => array_of(*v) == Some(a@),
            None => array_of(*v) is None,
        },
;

/// What `uuid::Uuid::parse_str` makes of a text, as the UUID's 128-bit value.
pub uninterp spec fn uuid_of(s: Seq<char>) -> Option<u128>;

/// What chrono's `NaiveDate` parser makes of a text, as year, month and day.
pub uninterp spec fn date_of(s: Seq<char>) -> Option<(i32, u32, u32)>;

/// Why a source could not be loaded.
#[derive(Clone, Copy, Debug, PartialEq, Eq)]
pub enum LoadError {
    /// The text is not JSON.
    InvalidJson,
}

/// Relies on `serde_json::from_str`: parses JSON text into a value, which
/// depends on the text alone.
#[verifier::external_body]
fn parse_json(text: &str) -> (r: Result<serde_json::Value, serde_json::Error>)
    ensures
        match r {
            Ok(v) => json_of(text@) == Some(v),
            Err(_) => json_of(text@) is None,
        },
{
    serde_json::from_str(text)
}

/// Relies on `serde_json::Value::get` and `serde_json::Value::as_str`: the
/// text stored under `key` when `v` is an object holding a string there.
#[verifier::external_body]
fn field_text(v: &serde_json::Value, key: &str) -> (r: Option<String>)
    ensures
        match r {
            Some(s) => text_field_of(*v, key@) == Some(s@),
            None => text_field_of(*v, key@) is None,
        },
{
    v.get(key).and_then(serde_json::Value::as_str).map(str::to_string)
}

/// Relies on `serde_json::Value::get` and `serde_json::Value::as_u64`: the
/// number stored under `key` when `v` is an object holding a non-negative
/// integer there.
#[verifier::external_body]
fn field_number(v: &serde_json::Value, key: &str) -> (r: Option<u64>)
    ensures
        r == number_field_of(*v, key@),
{
    v.get(key).and_then(serde_json::Value::as_u64)
}

/// Relies on `uuid::Uuid::parse_str` and `uuid::Uuid::as_u128`: the value of
/// a UUID written as text, which depends on the text alone.
#[verifier::external_body]
fn parse_uuid(s: &str) -> (r: Option<u128>)
    ensures
        r == uuid_of(s@),
{
    uuid::Uuid::parse_str(s).ok().map(|u| u.as_u128())
}

/// Relies on chrono's `FromStr` for `NaiveDate`, whose values are always
/// calendar dates, and on `Datelike::year`, `month` and `day`.
#[verifier::external_body]
fn parse_date(s: &str) -> (r: Option<Date>)
    ensures
        match r {
            Some(d) => date_of(s@) == Some((d.year, d.month, d.day)) && d.wf(),
            None => date_of(s@) is None,
        },
{
    s.parse::<chrono::NaiveDate>().ok().map(
        |d| Date { year: d.year(), month: d.month(), day: d.day() },
    )
}

/// The fields of a record, as read from a source entry.
#[derive(Clone, Copy, Debug, PartialEq, Eq)]
pub enum Field {
    Uuid,
    Date,
    Origin,
    Destination,
    Airline,
    Time,
    Duration,
    FlightType,
    Price,
    OriginCountry,
    DestinationCountry,
    RainProbability,
}

/// The key under which a source entry holds each field: four of them are
/// written in camel case in the source.
pub open spec fn key_of(f: Field) -> Seq<char> {
    match f {
        Field::Uuid => "uuid"@,
        Field::Date => "date"@,
        Field::Origin => "origin"@,
        Field::Destination => "destination"@,
        Field::Airline => "airline"@,
        Field::Time => "time"@,
        Field::Duration => "duration"@,
        Field::FlightType => "flightType"@,
        Field::Price => "price_inr"@,
        Field::OriginCountry => "originCountry"@,
        Field::DestinationCountry => "destinationCountry"@,
        Field::RainProbability => "rainProbability"@,
    }
}

/// The source key of a field.
pub fn source_key(f: Field) -> (k: &'static str)
    ensures
        k@ == key_of(f),
{
    match f {
        Field::Uuid => "uuid",
        Field::Date => "date",
        Field::Origin => "origin",
        Field::Destination => "destination",
        Field::Airline => "airline",
        Field::Time => "time",
        Field::Duration => "duration",
        Field::FlightType => "flightType",
        Field::Price => "price_inr",
        Field::OriginCountry => "originCountry",
        Field::DestinationCountry => "destinationCountry",
        Field::RainProbability => "rainProbability",
    }
}

pub open spec fn text_of(o: Option<String>) -> Option<Seq<char>> {
    match o {
        Some(s) => Some(s@),
        None => None,
    }
}

pub open spec fn date_parts(o: Option<Date>) -> Option<(i32, u32, u32)> {
    match o {
        Some(d) => Some((d.year, d.month, d.day)),
        None => None,
    }
}

/// The text a field's key holds in `v`.
pub open spec fn text_at(v: serde_json::Value, f: Field) -> Option<Seq<char>> {
    text_field_of(v, key_of(f))
}

/// `e` holds what the entry `v` has under each field's key: texts and numbers
/// as found, the UUID and the date parsed from the text there.
pub open spec fn read_from(e: RawEntry, v: serde_json::Value) -> bool {
    &&& e.uuid == match text_at(v, Field::Uuid) {
        Some(s) => uuid_of(s),
        None => None,
    }
    &&& date_parts(e.date) == match text_at(v, Field::Date) {
        Some(s) => date_of(s),
        None => None,
    }
    &&& e.date is Some ==> e.date->0.wf()
    &&& text_of(e.origin) == text_at(v, Field::Origin)
    &&& text_of(e.destination) == text_at(v, Field::Destination)
    &&& text_of(e.airline) == text_at(v, Field::Airline)
    &&& text_of(e.time) == text_at(v, Field::Time)
    &&& text_of(e.duration) == text_at(v, Field::Duration)
    &&& text_of(e.flight_type) == text_at(v, Field::FlightType)
    &&& e.price_inr == number_field_of(v, key_of(Field::Price))
    &&& text_of(e.origin_country) == text_at(v, Field::OriginCountry)
    &&& text_of(e.destination_country) == text_at(v, Field::DestinationCountry)
    &&& e.rain_probability == number_field_of(v, key_of(Field::RainProbability))
}

fn text_field(v: &serde_json::Value, f: Field) -> (r: Option<String>)
    ensures
        text_of(r) == text_at(*v, f),
{
    field_text(v, source_key(f))
}

/// The fields of one entry, each under its source key.
pub fn read_entry(v: &serde_json::Value) -> (r: RawEntry)
    ensures
        read_from(r, *v),
{
    let uuid = match text_field(v, Field::Uuid) {
        Some(s) => parse_uuid(s.as_str()),
        None => None,
    };
    let date = match text_field(v, Field::Date) {
        Some(s) => parse_date(s.as_str()),
        None => None,
    };
    RawEntry {
        uuid,
        date,
        origin: text_field(v, Field::Origin),
        destination: text_field(v, Field::Destination),
        airline: text_field(v, Field::Airline),
        time: text_field(v, Field::Time),
        duration: text_field(v, Field::Duration),
        flight_type: text_field(v, Field::FlightType),
        price_inr: field_number(v, source_key(Field::Price)),
        origin_country: text_field(v, Field::OriginCountry),
        destination_country: text_field(v, Field::DestinationCountry),
        rain_probability: field_number(v, source_key(Field::RainProbability)),
    }
}

/// `es` holds, in order, what each entry of `a` gives.
pub open spec fn read_all(a: Seq<serde_json::Value>, es: Seq<RawEntry>) -> bool {
    es.len() == a.len() && forall|i: int| 0 <= i < a.len() ==> read_from(#[trigger] es[i], a[i])
}

pub open spec fn is_complete() -> spec_fn(RawEntry) -> bool {
    |e: RawEntry| e.complete()
}

/// `r` holds one record for each complete entry of `entries`, in order.
pub open spec fn collected(entries: Seq<RawEntry>, r: Seq<Flight>) -> bool {
    let kept = entries.filter(is_complete());
    &&& r.len() == kept.len()
    &&& forall|i: int| 0 <= i < r.len() ==> #[trigger] r[i].built_from(kept[i])
}

/// The records of the complete entries, in order; the others are skipped.
pub fn collect_flights(entries: &Vec<RawEntry>) -> (r: Vec<Flight>)
    ensures
        collected(entries@, r@),
{
    let mut out: Vec<Flight> = Vec::new();
    let mut i: usize = 0;
    while i < entries.len()
        invariant
            i <= entries@.len(),
            collected(entries@.take(i as int), out@),
        decreases entries@.len() - i,
    {
        let ghost before = out@;
        proof {
            reveal(Seq::filter);
            assert(entries@.take(i + 1).drop_last() =~= entries@.take(i as int));
        }
        match Flight::from_entry(&entries[i]) {
            Some(f) => {
                out.push(f);
                assert forall|j: int| 0 <= j < out@.len() implies #[trigger] out@[j].built_from(
                    entries@.take(i + 1).filter(is_complete())[j],
                ) by {
                    if j < before.len() {
                        assert(out@[j] == before[j]);
                    }
                }
            },
            None => {},
        }
        i += 1;
    }
    assert(entries@.take(i as int) =~= entries@);
    out
}

/// The data set: the sample record alone when there is no source text; an
/// error when the text is not JSON; no records when it holds another kind of
/// value than an array; otherwise the records of the array's complete entries.
pub fn load_flights(source: Option<String>) -> (r: Result<Vec<Flight>, LoadError>)
    ensures
        source is None ==> r is Ok && r->Ok_0@.len() == 1 && r->Ok_0@[0].is_sample(),
        source is Some ==> (r is Err <==> json_of(source->0@) is None),
        source is Some && json_of(source->0@) is Some ==> match array_of(json_of(source->0@)->0) {
            None => r is Ok && r->Ok_0@.len() == 0,
            Some(a) => r is Ok && exists|es: Seq<RawEntry>| #[trigger] read_all(a, es) && collected(
                es,
                r->Ok_0@,
            ),
        },
        r is Ok ==> forall|i: int|
            0 <= i < r->Ok_0@.len() ==> (#[trigger] r->Ok_0@[i]).date.wf() && r->Ok_0@[i].rain_probability
                <= 100,
{
    match source {
        None => Ok(vec![Flight::sample()]),
        Some(text) => {
            let v = match parse_json(text.as_str()) {
                Ok(v) => v,
                Err(_) => {
                    return Err(LoadError::InvalidJson);
                },
            };
            match v.as_array() {
                None => Ok(Vec::new()),
                Some(items) => {
                    let mut entries: Vec<RawEntry> = Vec::new();
                    let mut i: usize = 0;
                    while i < items.len()
                        invariant
                            i <= items@.len(),
                            read_all(items@.take(i as int), entries@),
                        decreases items@.len() - i,
                    {
                        entries.push(read_entry(&items[i]));
                        i += 1;
                        assert forall|j: int| 0 <= j < i implies read_from(
                            #[trigger] entries@[j],
                            items@.take(i as int)[j],
                        ) by {
                            assert(items@.take(i as int)[j] == items@[j]);
                            if j < i - 1 {
                                assert(items@.take(i - 1)[j] == items@[j]);
                            }
                        }
                    }
                    assert(items@.take(i as int) =~= items@);
                    let flights = collect_flights(&entries);
                    proof {
                        assert forall|j: int| 0 <= j < flights@.len() implies (
                        #[trigger] flights@[j]).date.wf() && flights@[j].rain_probability <= 100 by {
                            let kept = entries@.filter(is_complete());
                            entries@.lemma_filter_len(is_complete());
                            lemma_kept_within(entries@, j);
                            entries@.lemma_filter_pred(is_complete(), j);
                            assert(is_complete()(kept[j]));
                            let k = choose|k: int| 0 <= k < entries@.len() && entries@[k] == kept[j];
                            assert(read_from(entries@[k], items@[k]));
                            assert(flights@[j].built_from(kept[j]));
                        }
                    }
                    let r: Result<Vec<Flight>, LoadError> = Ok(flights);
                    assert(collected(entries@, r->Ok_0@));
                    assert(read_all(array_of(json_of(text@)->0)->0, entries@));
                    r
                },
            }
        },
    }
}

proof fn lemma_kept_within(entries: Seq<RawEntry>, j: int)
    requires
        0 <= j < entries.filter(is_complete()).len(),
    ensures
        exists|k: int| 0 <= k < entries.len() && entries[k] == entries.filter(is_complete())[j],
    decreases entries.len(),
{
    reveal(Seq::filter);
    let sub = entries.drop_last().filter(is_complete());
    if j < sub.len() {
        lemma_kept_within(entries.drop_last(), j);
        let k = choose|k: int| 0 <= k < entries.drop_last().len() && entries.drop_last()[k] == sub[j];
        assert(entries[k] == sub[j]);
    } else {
        assert(entries[entries.len() - 1] == entries.filter(is_complete())[j]);
    }
}

/// Some record of `r` holds the values of the entry `e`.
pub open spec fn has_record_of(r: Seq<Flight>, e: RawEntry) -> bool {
    exists|j: int| 0 <= j < r.len() && r[j].built_from(e)
}

/// Some complete entry of `entries` gives the record `f`.
pub open spec fn comes_from(entries: Seq<RawEntry>, f: Flight) -> bool {
    exists|i: int| 0 <= i < entries.len() && entries[i].complete() && f.built_from(entries[i])
}

/// Loading keeps one record for every complete entry and for nothing else: an
/// entry with a missing or ill-typed field gives no record, and each complete
/// sibling still gives its own.
pub proof fn lemma_complete_entries_kept(entries: Seq<RawEntry>, r: Seq<Flight>)
    requires
        collected(entries, r),
    ensures
        forall|i: int|
            0 <= i < entries.len() && (#[trigger] entries[i]).complete() ==> has_record_of(
                r,
                entries[i],
            ),
        forall|j: int| 0 <= j < r.len() ==> comes_from(entries, #[trigger] r[j]),
{
    let kept = entries.filter(is_complete());
    assert forall|i: int| 0 <= i < entries.len() && (#[trigger] entries[i]).complete() implies has_record_of(
        r,
        entries[i],
    ) by {
        entries.lemma_filter_contains(is_complete(), i);
        let j = choose|j: int| 0 <= j < kept.len() && kept[j] == entries[i];
        assert(r[j].built_from(kept[j]));
    }
    assert forall|j: int| 0 <= j < r.len() implies comes_from(entries, #[trigger] r[j]) by {
        lemma_kept_within(entries, j);
        entries.lemma_filter_pred(is_complete(), j);
        let i = choose|i: int| 0 <= i < entries.len() && entries[i] == kept[j];
        assert(is_complete()(kept[j]));
        assert(entries[i].complete() && r[j].built_from(entries[i]));
    }
}

/// `a` and `b` hold the same values, texts compared by their characters.
pub open spec fn same_values(a: Flight, b: Flight) -> bool {
    &&& a.uuid == b.uuid
    &&& a.date == b.date
    &&& a.origin@ == b.origin@
    &&& a.destination@ == b.destination@
    &&& a.airline@ == b.airline@
    &&& a.time@ == b.time@
    &&& a.duration@ == b.duration@
    &&& a.flight_type@ == b.flight_type@
    &&& a.price_inr == b.price_inr
    &&& a.origin_country@ == b.origin_country@
    &&& a.destination_country@ == b.destination_country@
    &&& a.rain_probability == b.rain_probability
}

/// Two entries hold the same values, texts compared by their characters.
pub open spec fn same_entry(a: RawEntry, b: RawEntry) -> bool {
    &&& a.uuid == b.uuid
    &&& a.date == b.date
    &&& text_of(a.origin) == text_of(b.origin)
    &&& text_of(a.destination) == text_of(b.destination)
    &&& text_of(a.airline) == text_of(b.airline)
    &&& text_of(a.time) == text_of(b.time)
    &&& text_of(a.duration) == text_of(b.duration)
    &&& text_of(a.flight_type) == text_of(b.flight_type)
    &&& a.price_inr == b.price_inr
    &&& text_of(a.origin_country) == text_of(b.origin_country)
    &&& text_of(a.destination_country) == text_of(b.destination_country)
    &&& a.rain_probability == b.rain_probability
}

proof fn lemma_read_same(e1: RawEntry, e2: RawEntry, v: serde_json::Value)
    requires
        read_from(e1, v),
        read_from(e2, v),
    ensures
        same_entry(e1, e2),
        e1.complete() == e2.complete(),
{
    if e1.date is Some {
        assert(e1.date->0 == e2.date->0);
    }
}

proof fn lemma_kept_same(es1: Seq<RawEntry>, es2: Seq<RawEntry>)
    requires
        es1.len() == es2.len(),
        forall|i: int|
            0 <= i < es1.len() ==> same_entry(#[trigger] es1[i], es2[i]) && es1[i].complete()
                == es2[i].complete(),
    ensures
        es1.filter(is_complete()).len() == es2.filter(is_complete()).len(),
        forall|k: int|
            0 <= k < es1.filter(is_complete()).len() ==> same_entry(
                #[trigger] es1.filter(is_complete())[k],
                es2.filter(is_complete())[k],
            ),
    decreases es1.len(),
{
    reveal(Seq::filter);
    if es1.len() > 0 {
        lemma_kept_same(es1.drop_last(), es2.drop_last());
        let k1 = es1.filter(is_complete());
        let k2 = es2.filter(is_complete());
        let s1 = es1.drop_last().filter(is_complete());
        let s2 = es2.drop_last().filter(is_complete());
        assert(es1.last().complete() == es2.last().complete());
        assert forall|k: int| 0 <= k < k1.len() implies same_entry(#[trigger] k1[k], k2[k]) by {
            if k < s1.len() {
                assert(k1[k] == s1[k] && k2[k] == s2[k]);
            }
        }
    }
}

/// Loading the same array twice gives the same records: equal in number, and
/// equal in every value, position by position.
pub proof fn lemma_load_repeatable(a: Seq<serde_json::Value>, r1: Seq<Flight>, r2: Seq<Flight>)
    requires
        exists|es: Seq<RawEntry>| #[trigger] read_all(a, es) && collected(es, r1),
        exists|es: Seq<RawEntry>| #[trigger] read_all(a, es) && collected(es, r2),
    ensures
        r1.len() == r2.len(),
        forall|i: int| 0 <= i < r1.len() ==> same_values(#[trigger] r1[i], r2[i]),
{
    let es1 = choose|es: Seq<RawEntry>| #[trigger] read_all(a, es) && collected(es, r1);
    let es2 = choose|es: Seq<RawEntry>| #[trigger] read_all(a, es) && collected(es, r2);
    assert forall|i: int| 0 <= i < es1.len() implies same_entry(#[trigger] es1[i], es2[i])
        && es1[i].complete() == es2[i].complete() by {
        lemma_read_same(es1[i], es2[i], a[i]);
    }
    lemma_kept_same(es1, es2);
    assert forall|i: int| 0 <= i < r1.len() implies same_values(#[trigger] r1[i], r2[i]) by {
        let k1 = es1.filter(is_complete());
        let k2 = es2.filter(is_complete());
        assert(r1[i].built_from(k1[i]) && r2[i].built_from(k2[i]));
        assert(same_entry(k1[i], k2[i]));
    }
}

} // verus!
