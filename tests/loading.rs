use flight_listing::loader::{source_key, Field};
use flight_listing::{collect_flights, load_flights, Date, Flight, LoadError, RawEntry};

const FULL: &str = r#"{"uuid": "39173ac0-bbf4-4b2f-8b89-7f15c3614937", "date": "2026-02-10",
    "origin": "Hanoi", "destination": "Delhi", "airline": "Vietjet", "time": "10:00 - 14:00",
    "duration": "4h 0m", "flightType": "Direct", "price_inr": 12000, "originCountry": "Vietnam",
    "destinationCountry": "India", "rainProbability": 30}"#;

fn load(text: &str) -> Result<Vec<Flight>, LoadError> {
    load_flights(Some(text.to_string()))
}

#[test]
fn missing_source_gives_sample() {
    let d = load_flights(None).unwrap();
    assert_eq!(d.len(), 1);
    let f = &d[0];
    assert_eq!(f.uuid, 0x39173ac0_bbf4_4b2f_8b89_7f15c3614937);
    assert_eq!(f.price_inr, 31260);
    assert_eq!(f.rain_probability, 0);
    assert_eq!(f.date, Date { year: 2026, month: 1, day: 4 });
    assert_eq!(f.origin, "Ho Chi Minh City");
    assert_eq!(f.airline, "Singapore Airlines");
}

#[test]
fn complete_entry_is_read_with_renamed_fields() {
    let d = load(&format!("[{}]", FULL)).unwrap();
    assert_eq!(d.len(), 1);
    let f = &d[0];
    assert_eq!(f.uuid, 0x39173ac0_bbf4_4b2f_8b89_7f15c3614937);
    assert_eq!(f.date, Date { year: 2026, month: 2, day: 10 });
    assert_eq!(f.flight_type, "Direct");
    assert_eq!(f.origin_country, "Vietnam");
    assert_eq!(f.destination_country, "India");
    assert_eq!(f.price_inr, 12000);
    assert_eq!(f.rain_probability, 30);
}

#[test]
fn entry_missing_price_is_skipped() {
    let no_price = FULL.replace(r#""price_inr": 12000,"#, "");
    let other = FULL.replace("Hanoi", "Da Nang");
    let d = load(&format!("[{}, {}, {}]", FULL, no_price, other)).unwrap();
    assert_eq!(d.len(), 2);
    assert_eq!(d[0].origin, "Hanoi");
    assert_eq!(d[1].origin, "Da Nang");
}

#[test]
fn ill_typed_entries_are_skipped() {
    let cases = [
        FULL.replace("12000", "\"12000\""),
        FULL.replace("12000", "4294967296"),
        FULL.replace("12000", "-5"),
        FULL.replace(": 30", ": 256"),
        FULL.replace(": 30", ": 101"),
        FULL.replace(": 30", ": -1"),
        FULL.replace("2026-02-10", "2026-02-30"),
        FULL.replace("2026-02-10", "2025-02-29"),
        FULL.replace("39173ac0-", "zz173ac0-"),
        FULL.replace("\"Vietjet\"", "7"),
    ];
    for c in cases.iter() {
        assert_eq!(load(&format!("[{}]", c)).unwrap().len(), 0, "{}", c);
    }
    assert_eq!(load(&format!("[{}]", FULL.replace("12000", "4294967295"))).unwrap().len(), 1);
}

#[test]
fn rain_probability_is_a_percentage() {
    let kept = load(&format!("[{}]", FULL.replace(": 30", ": 100"))).unwrap();
    assert_eq!(kept.len(), 1);
    assert_eq!(kept[0].rain_probability, 100);
    assert_eq!(load(&format!("[{}]", FULL.replace(": 30", ": 101"))).unwrap().len(), 0);
}

#[test]
fn unknown_keys_are_ignored() {
    let extra = FULL.replace("{", r#"{"note": 1, "flight_type": 5, "#);
    let plain = load(&format!("[{}]", FULL)).unwrap();
    let with_extra = load(&format!("[{}]", extra)).unwrap();
    assert_eq!(plain, with_extra);
}

#[test]
fn snake_case_keys_do_not_stand_for_camel_case_ones() {
    let renamed = FULL.replace("flightType", "flight_type");
    assert_eq!(load(&format!("[{}]", renamed)).unwrap().len(), 0);
}

#[test]
fn non_array_gives_empty_data_set() {
    assert_eq!(load(FULL).unwrap().len(), 0);
    assert_eq!(load("{}").unwrap().len(), 0);
    assert_eq!(load("null").unwrap().len(), 0);
    assert_eq!(load("42").unwrap().len(), 0);
}

#[test]
fn text_that_is_not_json_is_an_error() {
    assert_eq!(load("[{"), Err(LoadError::InvalidJson));
    assert_eq!(load("not json"), Err(LoadError::InvalidJson));
}

#[test]
fn incomplete_raw_entries_give_no_record() {
    let full = RawEntry {
        uuid: Some(7),
        date: Some(Date { year: 2026, month: 5, day: 6 }),
        origin: Some("A".to_string()),
        destination: Some("B".to_string()),
        airline: Some("C".to_string()),
        time: Some("t".to_string()),
        duration: Some("d".to_string()),
        flight_type: Some("f".to_string()),
        price_inr: Some(5),
        origin_country: Some("X".to_string()),
        destination_country: Some("Y".to_string()),
        rain_probability: Some(100),
    };
    let mut no_price = full.clone();
    no_price.price_inr = None;
    let mut wet = full.clone();
    wet.rain_probability = Some(101);
    let mut second = full.clone();
    second.uuid = Some(8);
    let r = collect_flights(&vec![full, no_price, wet, second]);
    assert_eq!(r.iter().map(|f| f.uuid).collect::<Vec<_>>(), vec![7, 8]);
    assert_eq!(Flight::from_entry(&r_entry_none()), None);
}

fn r_entry_none() -> RawEntry {
    RawEntry {
        uuid: None,
        date: None,
        origin: None,
        destination: None,
        airline: None,
        time: None,
        duration: None,
        flight_type: None,
        price_inr: None,
        origin_country: None,
        destination_country: None,
        rain_probability: None,
    }
}

#[test]
fn source_keys_of_renamed_fields() {
    assert_eq!(source_key(Field::FlightType), "flightType");
    assert_eq!(source_key(Field::Price), "price_inr");
    assert_eq!(source_key(Field::OriginCountry), "originCountry");
    assert_eq!(source_key(Field::DestinationCountry), "destinationCountry");
    assert_eq!(source_key(Field::RainProbability), "rainProbability");
    assert_eq!(source_key(Field::Origin), "origin");
}
