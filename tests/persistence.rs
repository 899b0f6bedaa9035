use country_scraper::coerce::Decimal;
use country_scraper::country::Country;
use country_scraper::store::{rows_to_store, CountryTable};

fn country(name: &str, capital: &str, population: Option<i32>, area: Option<&str>) -> Country {
    Country {
        name: name.to_string(),
        capital: capital.to_string(),
        population,
        area: area.map(|a| Decimal { literal: a.to_string() }),
    }
}

fn batch() -> Vec<Country> {
    vec![
        country("Andorra", "Andorra la Vella", Some(84000), Some("468.0")),
        country("Canada", "Ottawa", Some(33679000), None),
        country("", "Nowhere", Some(1), None),
        country("Atlantis", "", None, None),
        country("Mexico", "Mexico City", None, Some("1972550.0")),
    ]
}

#[test]
fn upsert_overwrites_the_row_of_the_same_name() {
    let mut t = CountryTable::new();
    t.upsert(country("Andorra", "X", Some(1), Some("2.0")));
    t.upsert(country("Andorra", "Andorra la Vella", Some(84000), Some("468.0")));
    assert_eq!(t.len(), 1);
    let a = t.get("Andorra").unwrap();
    assert_eq!(a.capital, "Andorra la Vella");
    assert_eq!(a.population, Some(84000));
    assert_eq!(a.area.as_ref().unwrap().as_str().parse::<f64>().unwrap(), 468.0);
}

#[test]
fn storing_twice_leaves_one_row_per_name() {
    let mut t = CountryTable::new();
    t.store_countries(&batch());
    assert_eq!(t.len(), 3);
    t.store_countries(&batch());
    assert_eq!(t.len(), 3);
    assert_eq!(t.get("Canada").unwrap().capital, "Ottawa");
    assert_eq!(t.get("Mexico").unwrap().population, None);
}

#[test]
fn invalid_records_are_never_stored() {
    let mut t = CountryTable::new();
    t.store_countries(&batch());
    assert!(t.get("").is_none());
    assert!(t.get("Atlantis").is_none());
    t.upsert(country("  ", "Capital", None, None));
    t.upsert(country("Narnia", "\n", None, None));
    assert_eq!(t.len(), 3);
    assert!(t.get("Narnia").is_none());
}

#[test]
fn empty_table_has_no_rows() {
    let t = CountryTable::new();
    assert_eq!(t.len(), 0);
    assert!(t.get("Andorra").is_none());
}

#[test]
fn rows_to_store_keeps_valid_records_in_order() {
    let rows = rows_to_store(batch());
    let names: Vec<&str> = rows.iter().map(|c| c.name.as_str()).collect();
    assert_eq!(names, vec!["Andorra", "Canada", "Mexico"]);
    assert!(rows_to_store(Vec::new()).is_empty());
}

#[test]
fn duplicate_and_is_valid() {
    let c = country("Andorra", "Andorra la Vella", Some(84000), Some("468.0"));
    let d = c.duplicate();
    assert_eq!(d.name, c.name);
    assert_eq!(d.capital, c.capital);
    assert_eq!(d.population, c.population);
    assert_eq!(d.area.unwrap().as_str(), "468.0");
    assert!(c.is_valid());
    assert!(!country("Andorra", " ", None, None).is_valid());
}
