//! Extraction of country records from a listing page, with tolerant field
//! coercion and a model of the keyed upsert that persists them.
pub mod coerce;
pub mod country;
pub mod store;
pub mod extract;
