//! A read-only flight catalogue: loading records from JSON text and answering
//! listing queries with filtering, ordering and pagination.

pub mod flight;
pub mod loader;
pub mod query;
pub mod text;

pub use flight::{Date, Flight, RawEntry};
pub use loader::{collect_flights, load_flights, LoadError};
pub use query::{
    count_pages, filter_flights, list_flights, paginate, sort_flights, sort_order, FlightParams,
    PaginatedResponse, SortKey,
};
