//! The country record and how it is built from the texts of its fields.
use vstd::prelude::*;
use crate::coerce::{Decimal, decimal_of, int_of, parse_float, parse_int, trim, trimmed};

verus! {

/// One country, as extracted from the listing.
pub struct Country {
    pub name: String,
    pub capital: String,
    pub population: Option<i32>,
    pub area: Option<Decimal>,
}

/// The mathematical value of a `Country`.
pub ghost struct CountryView {
    pub name: Seq<char>,
    pub capital: Seq<char>,
    pub population: Option<i32>,
    pub area: Option<Seq<char>>,
}

pub open spec fn decimal_view(d: Option<Decimal>) -> Option<Seq<char>> {
    match d {
        Some(x) => Some(x.literal@),
        None => None,
    }
}

pub open spec fn text_view(t: Option<String>) -> Option<Seq<char>> {
    match t {
        Some(s) => Some(s@),
        None => None,
    }
}

impl View for Country {
    type V = CountryView;

    open spec fn view(&self) -> CountryView {
        CountryView {
            name: self.name@,
            capital: self.capital@,
            population: self.population,
            area: decimal_view(self.area),
        }
    }
}

impl Country {
    /// Every area it holds is a decimal literal.
    pub open spec fn wf(&self) -> bool {
        match self.area {
            Some(d) => d.wf(),
            None => true,
        }
    }

    /// A field-for-field copy.
    pub fn duplicate(&self) -> (r: Country)
        ensures
            r@ == self@,
            r.wf() == self.wf(),
    {
        Country {
            name: self.name.clone(),
            capital: self.capital.clone(),
            population: self.population,
            area: match &self.area {
                Some(d) => Some(Decimal { literal: d.literal.clone() }),
                None => None,
            },
        }
    }

    /// Both name and capital hold more than white space.
    pub fn is_valid(&self) -> (r: bool)
        ensures
            r == is_valid(self@),
    {
        let n = trim(self.name.as_str());
        let c = trim(self.capital.as_str());
        !n.as_str().is_empty() && !c.as_str().is_empty()
    }
}

/// Only such a record is ever written to the store.
pub open spec fn is_valid(c: CountryView) -> bool {
    trimmed(c.name).len() > 0 && trimmed(c.capital).len() > 0
}

/// A name or capital field: its trimmed text, or empty where the field is missing.
pub open spec fn text_field(t: Option<Seq<char>>) -> Seq<char> {
    match t {
        Some(s) => trimmed(s),
        None => Seq::empty(),
    }
}

/// The record that the four field texts give, a missing field being `None`.
pub open spec fn country_from(
    name: Option<Seq<char>>,
    capital: Option<Seq<char>>,
    population: Option<Seq<char>>,
    area: Option<Seq<char>>,
) -> CountryView {
    CountryView {
        name: text_field(name),
        capital: text_field(capital),
        population: match population {
            Some(p) => int_of(p),
            None => None,
        },
        area: match area {
            Some(a) => decimal_of(a),
            None => None,
        },
    }
}

fn text_from(t: Option<String>) -> (r: String)
    ensures
        r@ == text_field(text_view(t)),
{
    match t {
        Some(s) => trim(s.as_str()),
        None => String::new(),
    }
}

/// Builds a record from the texts of its fields. A population or area that
/// does not parse is `None`: it never fails.
pub fn country_from_texts(
    name: Option<String>,
    capital: Option<String>,
    population: Option<String>,
    area: Option<String>,
) -> (r: Country)
    ensures
        r@ == country_from(text_view(name), text_view(capital), text_view(population), text_view(area)),
        r.wf(),
{
    let population = match population {
        Some(p) => parse_int(p.as_str()),
        None => None,
    };
    let area = match area {
        Some(a) => parse_float(a.as_str()),
        None => None,
    };
    Country { name: text_from(name), capital: text_from(capital), population, area }
}

} // verus!
