use flight_listing::text::{contains_text, split_on_commas};
use flight_listing::{
    count_pages, filter_flights, list_flights, paginate, sort_flights, sort_order, Date, Flight,
    FlightParams, SortKey,
};

fn flight(id: u128, price: u32, airline: &str, date: (i32, u32, u32)) -> Flight {
    Flight {
        uuid: id,
        date: Date { year: date.0, month: date.1, day: date.2 },
        origin: "New York City".to_string(),
        destination: "Paris".to_string(),
        airline: airline.to_string(),
        time: "08:00 - 20:00".to_string(),
        duration: "12h 00m".to_string(),
        flight_type: "Direct".to_string(),
        price_inr: price,
        origin_country: "USA".to_string(),
        destination_country: "France".to_string(),
        rain_probability: 10,
    }
}

fn prices(v: &[Flight]) -> Vec<u32> {
    v.iter().map(|f| f.price_inr).collect()
}

fn ids(v: &[Flight]) -> Vec<u128> {
    v.iter().map(|f| f.uuid).collect()
}

#[test]
fn page_count_rounds_up() {
    assert_eq!(count_pages(0), 0);
    assert_eq!(count_pages(1), 1);
    assert_eq!(count_pages(20), 1);
    assert_eq!(count_pages(21), 2);
    assert_eq!(count_pages(40), 2);
    assert_eq!(count_pages(41), 3);
}

#[test]
fn page_beyond_last_is_empty() {
    let d = vec![flight(1, 100, "A", (2026, 1, 1)), flight(2, 50, "B", (2026, 1, 2))];
    let params = FlightParams { page: Some(5), ..Default::default() };
    let r = list_flights(&d, params);
    assert!(r.data.is_empty());
    assert_eq!(r.page, 5);
    assert_eq!(r.total_items, 2);
    assert_eq!(r.total_pages, 1);
}

#[test]
fn page_zero_is_empty() {
    let d = vec![flight(1, 100, "A", (2026, 1, 1))];
    let r = list_flights(&d, FlightParams { page: Some(0), ..Default::default() });
    assert!(r.data.is_empty());
    assert_eq!(r.page, 0);
    assert_eq!(r.total_items, 1);
    assert_eq!(r.total_pages, 1);
}

#[test]
fn no_parameters_sorts_by_price() {
    let d = vec![
        flight(1, 100, "A", (2026, 1, 1)),
        flight(2, 50, "B", (2026, 1, 2)),
        flight(3, 200, "C", (2026, 1, 3)),
    ];
    let r = list_flights(&d, FlightParams::default());
    assert_eq!(prices(&r.data), vec![50, 100, 200]);
    assert_eq!(r.page, 1);
    assert_eq!(r.total_items, 3);
    assert_eq!(r.total_pages, 1);
}

#[test]
fn airline_list_matches_any_piece() {
    let d = vec![
        flight(1, 100, "Delta Air Lines", (2026, 1, 1)),
        flight(2, 110, "United Airlines", (2026, 1, 1)),
        flight(3, 120, "American Airlines", (2026, 1, 1)),
        flight(4, 130, "DELTA Connection", (2026, 1, 1)),
        flight(5, 140, "Emirates", (2026, 1, 1)),
    ];
    let params = FlightParams { airline: Some("Delta, United".to_string()), ..Default::default() };
    let r = list_flights(&d, params);
    assert_eq!(ids(&r.data), vec![1, 2, 4]);
    assert_eq!(r.total_items, 3);
}

#[test]
fn max_price_is_exclusive() {
    let d = vec![flight(1, 100, "A", (2026, 1, 1)), flight(2, 99, "A", (2026, 1, 1))];
    let params = FlightParams { max_price: Some(100), ..Default::default() };
    let r = list_flights(&d, params);
    assert_eq!(ids(&r.data), vec![2]);
}

#[test]
fn max_rain_is_exclusive() {
    let mut wet = flight(1, 100, "A", (2026, 1, 1));
    wet.rain_probability = 40;
    let mut dry = flight(2, 100, "A", (2026, 1, 1));
    dry.rain_probability = 39;
    let r = list_flights(&vec![wet, dry], FlightParams { max_rain: Some(40), ..Default::default() });
    assert_eq!(ids(&r.data), vec![2]);
}

#[test]
fn origin_and_destination_ignore_case() {
    let mut other = flight(2, 100, "A", (2026, 1, 1));
    other.origin = "Boston".to_string();
    let mut elsewhere = flight(3, 100, "A", (2026, 1, 1));
    elsewhere.destination = "Rome".to_string();
    let d = vec![flight(1, 100, "A", (2026, 1, 1)), other, elsewhere];
    let params = FlightParams {
        origin: Some("new YORK".to_string()),
        destination: Some("PAR".to_string()),
        ..Default::default()
    };
    assert_eq!(ids(&list_flights(&d, params).data), vec![1]);
}

#[test]
fn filter_keeps_exactly_matching_records_in_order() {
    let d = vec![
        flight(1, 300, "Delta", (2026, 1, 1)),
        flight(2, 100, "United", (2026, 1, 1)),
        flight(3, 200, "Delta", (2026, 1, 1)),
        flight(4, 500, "Delta", (2026, 1, 1)),
    ];
    let params = FlightParams {
        airline: Some("delta".to_string()),
        max_price: Some(400),
        ..Default::default()
    };
    let r = filter_flights(&d, &params);
    assert_eq!(ids(&r), vec![1, 3]);
    assert!(r.iter().all(|f| d.contains(f)));
}

#[test]
fn sort_by_date_is_stable() {
    let d = vec![
        flight(1, 10, "A", (2026, 3, 1)),
        flight(2, 20, "A", (2025, 12, 31)),
        flight(3, 30, "A", (2026, 3, 1)),
        flight(4, 40, "A", (2026, 2, 28)),
    ];
    let params = FlightParams { sort_by: Some("date".to_string()), ..Default::default() };
    assert_eq!(ids(&list_flights(&d, params).data), vec![2, 4, 1, 3]);
}

#[test]
fn sort_by_price_keeps_ties_in_order() {
    let d = vec![
        flight(1, 20, "A", (2026, 1, 1)),
        flight(2, 10, "A", (2026, 1, 1)),
        flight(3, 20, "A", (2026, 1, 1)),
        flight(4, 10, "A", (2026, 1, 1)),
    ];
    assert_eq!(sort_order(&d, SortKey::Price), vec![1, 3, 0, 2]);
    assert_eq!(ids(&sort_flights(&d, SortKey::Price)), vec![2, 4, 1, 3]);
}

#[test]
fn unknown_sort_key_orders_by_price() {
    let d = vec![flight(1, 30, "A", (2020, 1, 1)), flight(2, 10, "A", (2030, 1, 1))];
    let params = FlightParams { sort_by: Some("airline".to_string()), ..Default::default() };
    assert_eq!(ids(&list_flights(&d, params).data), vec![2, 1]);
}

#[test]
fn pages_hold_twenty_records() {
    let d: Vec<Flight> = (0..45u32).map(|i| flight(i as u128, i, "A", (2026, 1, 1))).collect();
    let second = paginate(&d, 2);
    assert_eq!(second.data.len(), 20);
    assert_eq!(second.data[0].price_inr, 20);
    assert_eq!(second.total_pages, 3);
    assert_eq!(second.total_items, 45);
    let third = list_flights(&d, FlightParams { page: Some(3), ..Default::default() });
    assert_eq!(prices(&third.data), vec![40, 41, 42, 43, 44]);
}

#[test]
fn empty_data_set_has_no_pages() {
    let r = list_flights(&Vec::new(), FlightParams::default());
    assert!(r.data.is_empty());
    assert_eq!(r.total_items, 0);
    assert_eq!(r.total_pages, 0);
}

#[test]
fn substring_search() {
    assert!(contains_text("singapore airlines", "air"));
    assert!(contains_text("abc", ""));
    assert!(!contains_text("abc", "abcd"));
    assert!(!contains_text("abc", "ac"));
}

#[test]
fn comma_split_keeps_empty_pieces() {
    assert_eq!(split_on_commas("a, b,,c"), vec!["a", " b", "", "c"]);
    assert_eq!(split_on_commas(""), vec![""]);
}
