use country_scraper::coerce::{parse_float, parse_int, text_eq};
use country_scraper::country::{country_from_texts, Country};
use country_scraper::extract::{extract_countries, PipelineError, Selectors};

fn container(name: &str, capital: &str, population: &str, area: &str) -> String {
    format!(
        "<div class=\"col-md-4 country\">\n<h3 class=\"country-name\">\n<i class=\"flag-icon\"></i>\n{}\n</h3>\n<div class=\"country-info\">\n<strong>Capital:</strong> <span class=\"country-capital\">{}</span><br>\n<strong>Population:</strong> <span class=\"country-population\">{}</span><br>\n<strong>Area (km<sup>2</sup>):</strong> <span class=\"country-area\">{}</span><br>\n</div>\n</div>\n",
        name, capital, population, area
    )
}

fn page(containers: &[String]) -> String {
    let mut body = String::from("<!doctype html><html><head><title>Countries</title></head><body><section id=\"countries\"><div class=\"container\">");
    for c in containers {
        body.push_str(c);
    }
    body.push_str("</div></section></body></html>");
    body
}

fn reference_page() -> String {
    let mut cs = vec![
        container("Andorra", "Andorra la Vella", "84000", "468.0"),
        container("Canada", "Ottawa", "33679000", "9984670.0"),
        container("Mexico", "Mexico City", "112468855", "1972550.0"),
        container("United States", "Washington", "310232863", "9629091.0"),
    ];
    for i in 4..250 {
        cs.push(container(&format!("Country {}", i), &format!("Capital {}", i), "1000", "10.5"));
    }
    page(&cs)
}

fn area_of(c: &Country) -> Option<f64> {
    c.area.as_ref().map(|d| d.as_str().parse::<f64>().unwrap())
}

#[test]
fn test_scrape_countries() {
    let countries = extract_countries(&reference_page()).unwrap();
    let country_names: Vec<String> = countries.iter().map(|c| c.name.clone()).collect();
    let expected_countries = vec![
        "Canada".to_string(),
        "United States".to_string(),
        "Mexico".to_string(),
    ];
    let andorra = countries
        .into_iter()
        .find(|c| c.name == "Andorra")
        .expect("Andorra was not found in the scraped countries");
    for expected in expected_countries {
        assert!(
            country_names.contains(&expected),
            "Expected country '{}' not found in the scraped results",
            expected
        );
    }
    assert_eq!(country_names.len(), 250, "Expected 250 countries, but found {}", country_names.len());
    assert_eq!(andorra.capital, "Andorra la Vella");
    assert_eq!(andorra.population, Some(84000));
    assert_eq!(area_of(&andorra), Some(468.0));
}

#[test]
fn malformed_population_is_none_and_extraction_goes_on() {
    let html = page(&[
        container("Aland", "Mariehamn", "about 26000", "1580.0"),
        container("Albania", "Tirana", "2986952", "28748.0"),
    ]);
    let countries = extract_countries(&html).unwrap();
    assert_eq!(countries.len(), 2);
    assert_eq!(countries[0].name, "Aland");
    assert_eq!(countries[0].population, None);
    assert_eq!(area_of(&countries[0]), Some(1580.0));
    assert_eq!(countries[1].name, "Albania");
    assert_eq!(countries[1].population, Some(2986952));
}

#[test]
fn missing_fields_give_empty_text_or_none() {
    let html = page(&[String::from("<div class=\"country\"><span class=\"country-area\">x</span></div>")]);
    let countries = extract_countries(&html).unwrap();
    assert_eq!(countries.len(), 1);
    assert_eq!(countries[0].name, "");
    assert_eq!(countries[0].capital, "");
    assert_eq!(countries[0].population, None);
    assert!(countries[0].area.is_none());
}

#[test]
fn fields_are_taken_within_their_container() {
    let html = page(&[
        String::from("<div class=\"country\"><h3 class=\"country-name\">Alpha</h3></div>"),
        container("Beta", "B-town", "5", "6"),
    ]);
    let countries = extract_countries(&html).unwrap();
    assert_eq!(countries.len(), 2);
    assert_eq!(countries[0].name, "Alpha");
    assert_eq!(countries[0].capital, "");
    assert_eq!(countries[1].name, "Beta");
    assert_eq!(countries[1].capital, "B-town");
}

#[test]
fn page_without_containers_gives_no_records() {
    let countries = extract_countries("<html><body><p>nothing here</p></body></html>").unwrap();
    assert!(countries.is_empty());
    assert!(extract_countries("").unwrap().is_empty());
}

#[test]
fn selectors_compile() {
    assert!(Selectors::new().is_ok());
    assert_ne!(PipelineError::SelectorError, PipelineError::NetworkError);
}

#[test]
fn parse_int_accepts_trimmed_literals() {
    assert_eq!(parse_int("42"), Some(42));
    assert_eq!(parse_int("  84000\n"), Some(84000));
    assert_eq!(parse_int("\u{a0}7\u{3000}"), Some(7));
    assert_eq!(parse_int("+7"), Some(7));
    assert_eq!(parse_int("-15"), Some(-15));
    assert_eq!(parse_int("0"), Some(0));
    assert_eq!(parse_int("2147483647"), Some(2147483647));
    assert_eq!(parse_int("-2147483648"), Some(-2147483648));
}

#[test]
fn parse_int_rejects_what_is_no_literal() {
    assert_eq!(parse_int(""), None);
    assert_eq!(parse_int("   "), None);
    assert_eq!(parse_int("-"), None);
    assert_eq!(parse_int("+"), None);
    assert_eq!(parse_int("12a"), None);
    assert_eq!(parse_int("1 2"), None);
    assert_eq!(parse_int("1,000"), None);
    assert_eq!(parse_int("3.0"), None);
    assert_eq!(parse_int("--1"), None);
    assert_eq!(parse_int("2147483648"), None);
    assert_eq!(parse_int("-2147483649"), None);
    assert_eq!(parse_int("99999999999999999999"), None);
}

#[test]
fn parse_float_keeps_trimmed_literal() {
    assert_eq!(parse_float(" 468.0 ").unwrap().as_str(), "468.0");
    assert_eq!(parse_float("468").unwrap().as_str(), "468");
    assert_eq!(parse_float(".5").unwrap().as_str(), ".5");
    assert_eq!(parse_float("5.").unwrap().as_str(), "5.");
    assert_eq!(parse_float("-2.5E-3").unwrap().as_str(), "-2.5E-3");
    assert_eq!(parse_float("1e3").unwrap().as_str(), "1e3");
    assert_eq!(parse_float("+0.25").unwrap().as_str().parse::<f64>().unwrap(), 0.25);
}

#[test]
fn parse_float_rejects_what_is_no_number() {
    assert!(parse_float("").is_none());
    assert!(parse_float(".").is_none());
    assert!(parse_float("-.").is_none());
    assert!(parse_float("1e").is_none());
    assert!(parse_float("1e+").is_none());
    assert!(parse_float("e5").is_none());
    assert!(parse_float("1.2.3").is_none());
    assert!(parse_float("12 km").is_none());
    assert!(parse_float("abc").is_none());
}

#[test]
fn country_from_texts_trims_and_coerces() {
    let c = country_from_texts(
        Some(" Andorra\n".to_string()),
        Some("\tAndorra la Vella ".to_string()),
        Some(" 84000 ".to_string()),
        Some(" 468.0".to_string()),
    );
    assert_eq!(c.name, "Andorra");
    assert_eq!(c.capital, "Andorra la Vella");
    assert_eq!(c.population, Some(84000));
    assert_eq!(area_of(&c), Some(468.0));
    let d = country_from_texts(None, None, Some("n/a".to_string()), Some("big".to_string()));
    assert_eq!(d.name, "");
    assert_eq!(d.capital, "");
    assert_eq!(d.population, None);
    assert!(d.area.is_none());
}

#[test]
fn text_eq_compares_texts() {
    assert!(text_eq("Andorra", "Andorra"));
    assert!(!text_eq("Andorra", "andorra"));
    assert!(!text_eq("Andorra", "Andorr"));
    assert!(text_eq("", ""));
}

#[test]
fn non_finite_areas_are_none() {
    assert!(parse_float("inf").is_none());
    assert!(parse_float("-infinity").is_none());
    assert!(parse_float("NaN").is_none());
}

#[test]
fn records_follow_container_order() {
    let html = page(&[
        container("Zeta", "Z", "1", "1.0"),
        container("Alpha", "A", "2", "2.0"),
        container("Mu", "M", "3", "3.0"),
    ]);
    let countries = extract_countries(&html).unwrap();
    let names: Vec<&str> = countries.iter().map(|c| c.name.as_str()).collect();
    assert_eq!(names, vec!["Zeta", "Alpha", "Mu"]);
    let capitals: Vec<&str> = countries.iter().map(|c| c.capital.as_str()).collect();
    assert_eq!(capitals, vec!["Z", "A", "M"]);
}
