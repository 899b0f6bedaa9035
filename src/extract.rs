//! The extractor: country containers of a listing page, and the four fields
//! within each.
use vstd::prelude::*;
use scraper::Selector;
use crate::country::{Country, country_from, country_from_texts, text_view};

verus! {

#[verifier::external_type_specification]
#[verifier::external_body]
pub struct ExSelector(Selector);

/// Whether the CSS selector list `s` is well formed.
pub uninterp spec fn selector_parses(s: Seq<char>) -> bool;

/// The texts of one container's fields: name, capital, population, area, each
/// missing where no element within the container matches.
pub type FieldTexts = (Option<Seq<char>>, Option<Seq<char>>, Option<Seq<char>>, Option<Seq<char>>);

/// For each `.country` element of the page `html`, in document order, the
/// joined text of the first `.country-name`, `.country-capital`,
/// `.country-population` and `.country-area` element among its descendants.
pub uninterp spec fn listing_fields(html: Seq<char>) -> Seq<FieldTexts>;

/// Relies on `scraper::Selector::parse`: succeeds exactly on well-formed
/// selector lists, which depends on the text alone. Its parser recurses into
/// nested selectors without limit, so the text is kept short.
#[verifier::external_body]
fn parse_selector(text: &str) -> (r: Option<Selector>)
    requires
        text@.len() <= 64,
    ensures
        r is Some == selector_parses(text@),
{
    Selector::parse(text).ok()
}

pub open spec fn texts_view(
    t: (Option<String>, Option<String>, Option<String>, Option<String>),
) -> FieldTexts {
    (text_view(t.0), text_view(t.1), text_view(t.2), text_view(t.3))
}

/// Relies on `scraper::Html::parse_document` (which recovers from any input),
/// `Html::select`, `ElementRef::select` and `ElementRef::text`: the field texts
/// of each container, in document order. `Selectors::new` alone makes `s`, so
/// these are the listing's selectors and the result depends on `html` alone.
#[verifier::external_body]
fn listing_texts(html: &str, s: &Selectors) -> (r: Vec<
    (Option<String>, Option<String>, Option<String>, Option<String>),
>)
    ensures
        r@.map_values(|t: (Option<String>, Option<String>, Option<String>, Option<String>)|
            texts_view(t)) == listing_fields(html@),
{
    let doc = scraper::Html::parse_document(html);
    let first = |c: &scraper::ElementRef, f: &Selector|
        c.select(f).next().map(|e| e.text().collect::<String>());
    doc.select(&s.country).map(|c| (
        first(&c, &s.name),
        first(&c, &s.capital),
        first(&c, &s.population),
        first(&c, &s.area),
    )).collect()
}

/// The failures of the pipeline that stop it.
#[derive(Debug, PartialEq, Eq, Structural)]
pub enum PipelineError {
    NetworkError,
    SelectorError,
    StorageError,
}

/// The compiled selectors of the listing's markup; only `new` makes one.
pub struct Selectors {
    country: Selector,
    name: Selector,
    capital: Selector,
    population: Selector,
    area: Selector,
}

/// Whether all selectors of the listing's markup are well formed.
pub open spec fn selectors_parse() -> bool {
    &&& selector_parses(".country"@)
    &&& selector_parses(".country-name"@)
    &&& selector_parses(".country-capital"@)
    &&& selector_parses(".country-population"@)
    &&& selector_parses(".country-area"@)
}

impl Selectors {
    /// Compiles the selectors; `SelectorError` where one is malformed.
    pub fn new() -> (r: Result<Selectors, PipelineError>)
        ensures
            r is Ok == selectors_parse(),
            r is Err ==> r == Err::<Selectors, PipelineError>(PipelineError::SelectorError),
    {
        proof {
            reveal_strlit(".country");
            reveal_strlit(".country-name");
            reveal_strlit(".country-capital");
            reveal_strlit(".country-population");
            reveal_strlit(".country-area");
        }
        let country = parse_selector(".country");
        let name = parse_selector(".country-name");
        let capital = parse_selector(".country-capital");
        let population = parse_selector(".country-population");
        let area = parse_selector(".country-area");
        match (country, name, capital, population, area) {
            (Some(country), Some(name), Some(capital), Some(population), Some(area)) => Ok(
                Selectors { country, name, capital, population, area },
            ),
            _ => Err(PipelineError::SelectorError),
        }
    }
}

/// The record that the `i`-th container of the page gives.
pub open spec fn listing_country(html: Seq<char>, i: int) -> crate::country::CountryView {
    let t = listing_fields(html)[i];
    country_from(t.0, t.1, t.2, t.3)
}

fn copy_text(t: &Option<String>) -> (r: Option<String>)
    ensures
        text_view(r) == text_view(*t),
{
    match t {
        Some(s) => Some(s.clone()),
        None => None,
    }
}

/// The records of a listing page, one per container, in document order, each
/// built from its own container's fields. Fails only where a selector is
/// malformed.
pub fn extract_countries(html: &str) -> (r: Result<Vec<Country>, PipelineError>)
    ensures
        r is Ok == selectors_parse(),
        r is Err ==> r == Err::<Vec<Country>, PipelineError>(PipelineError::SelectorError),
        r matches Ok(v) ==> {
            &&& v.len() == listing_fields(html@).len()
            &&& forall|i: int|
                0 <= i < v.len() ==> (#[trigger] v@[i])@ == listing_country(html@, i)
                    && v@[i].wf()
        },
{
    let s = match Selectors::new() {
        Ok(s) => s,
        Err(e) => {
            return Err(e);
        },
    };
    let texts = listing_texts(html, &s);
    let ghost fields = listing_fields(html@);
    assert(texts@.len() == fields.len());
    let mut out: Vec<Country> = Vec::new();
    let mut i: usize = 0;
    while i < texts.len()
        invariant
            0 <= i <= texts.len(),
            out.len() == i,
            fields == listing_fields(html@),
            texts@.map_values(|t: (Option<String>, Option<String>, Option<String>, Option<String>)|
                texts_view(t)) == fields,
            forall|j: int|
                0 <= j < i ==> (#[trigger] out@[j])@ == listing_country(html@, j)
                    && out@[j].wf(),
        decreases texts.len() - i,
    {
        let t = &texts[i];
        assert(texts_view(*t) == fields[i as int]);
        let c = country_from_texts(copy_text(&t.0), copy_text(&t.1), copy_text(&t.2), copy_text(&t.3));
        out.push(c);
        i = i + 1;
    }
    Ok(out)
}

} // verus!
