//! Persistence semantics: a keyed upsert on the country name, which skips
//! invalid records, modelled as a map from name to record.
use vstd::prelude::*;
use crate::coerce::text_eq;
use crate::country::{Country, CountryView, is_valid};

verus! {

/// The rows of a store, keyed by name.
pub type Rows = Map<Seq<char>, CountryView>;

/// One upsert: a valid record is inserted under its name, overwriting any row
/// of that name; an invalid one changes nothing.
pub open spec fn upsert(m: Rows, c: CountryView) -> Rows {
    if is_valid(c) {
        m.insert(c.name, c)
    } else {
        m
    }
}

/// The upserts of all records of `s`, in order.
pub open spec fn store_all(m: Rows, s: Seq<CountryView>) -> Rows
    decreases s.len(),
{
    if s.len() == 0 {
        m
    } else {
        upsert(store_all(m, s.drop_last()), s.last())
    }
}

/// The last valid record of `s` named `k`, if any.
pub open spec fn last_named(s: Seq<CountryView>, k: Seq<char>) -> Option<CountryView>
    decreases s.len(),
{
    if s.len() == 0 {
        None
    } else if is_valid(s.last()) && s.last().name == k {
        Some(s.last())
    } else {
        last_named(s.drop_last(), k)
    }
}

/// Every row is valid and stored under its own name.
pub open spec fn rows_valid(m: Rows) -> bool {
    forall|k: Seq<char>| #[trigger] m.contains_key(k) ==> is_valid(m[k]) && m[k].name == k
}

/// After a batch, the row named `k` is the batch's last valid record of that
/// name, or the earlier row where the batch has none.
pub proof fn lemma_store_all_at(m: Rows, s: Seq<CountryView>, k: Seq<char>)
    ensures
        store_all(m, s).contains_key(k) == (last_named(s, k) is Some || m.contains_key(k)),
        last_named(s, k) is Some ==> store_all(m, s)[k] == last_named(s, k)->0,
        last_named(s, k) is None && m.contains_key(k) ==> store_all(m, s)[k] == m[k],
    decreases s.len(),
{
    if s.len() > 0 {
        lemma_store_all_at(m, s.drop_last(), k);
    }
}

/// Storing the same batch twice leaves the same rows as storing it once: one
/// row per distinct name, with the same values.
pub proof fn lemma_store_twice(m: Rows, s: Seq<CountryView>)
    ensures
        store_all(store_all(m, s), s) == store_all(m, s),
{
    let once = store_all(m, s);
    let twice = store_all(once, s);
    assert forall|k: Seq<char>| #[trigger] twice.contains_key(k) == once.contains_key(k) && (
    twice.contains_key(k) ==> twice[k] == once[k]) by {
        lemma_store_all_at(m, s, k);
        lemma_store_all_at(once, s, k);
    }
    assert(twice =~= once);
}

/// A record with an empty name or capital is never written: starting from
/// valid rows, every row after a batch is valid.
pub proof fn lemma_only_valid_stored(m: Rows, s: Seq<CountryView>)
    requires
        rows_valid(m),
    ensures
        rows_valid(store_all(m, s)),
    decreases s.len(),
{
    if s.len() > 0 {
        lemma_only_valid_stored(m, s.drop_last());
    }
}

/// The records of a batch that are written, in order.
pub open spec fn to_write(s: Seq<CountryView>) -> Seq<CountryView> {
    s.filter(|c: CountryView| is_valid(c))
}

/// Writing only the valid records, each by plain upsert, gives the same rows.
pub proof fn lemma_to_write_same_rows(m: Rows, s: Seq<CountryView>)
    ensures
        store_all(m, to_write(s)) == store_all(m, s),
    decreases s.len(),
{
    reveal(Seq::filter);
    if s.len() > 0 {
        lemma_to_write_same_rows(m, s.drop_last());
        assert(to_write(s) == if is_valid(s.last()) {
            to_write(s.drop_last()).push(s.last())
        } else {
            to_write(s.drop_last())
        });
        if is_valid(s.last()) {
            assert(to_write(s).drop_last() =~= to_write(s.drop_last()));
        }
    }
}

/// The records of a batch that are to be written, in order: those whose name
/// and capital are not empty.
pub fn rows_to_store(countries: Vec<Country>) -> (r: Vec<Country>)
    ensures
        r@.map_values(|c: Country| c@) == to_write(countries@.map_values(|c: Country| c@)),
        (forall|i: int| 0 <= i < countries.len() ==> #[trigger] countries@[i].wf()) ==> (forall|
            j: int,
        | 0 <= j < r.len() ==> #[trigger] r@[j].wf()),
{
    let ghost s = countries@.map_values(|c: Country| c@);
    let mut out: Vec<Country> = Vec::new();
    let mut i: usize = 0;
    while i < countries.len()
        invariant
            0 <= i <= countries.len(),
            s == countries@.map_values(|c: Country| c@),
            out@.map_values(|c: Country| c@) == to_write(s.subrange(0, i as int)),
            (forall|k: int| 0 <= k < countries.len() ==> #[trigger] countries@[k].wf()) ==> (forall|
                j: int,
            | 0 <= j < out.len() ==> #[trigger] out@[j].wf()),
        decreases countries.len() - i,
    {
        let c = countries[i].duplicate();
        proof {
            reveal(Seq::filter);
            let p = s.subrange(0, i as int + 1);
            assert(p.drop_last() =~= s.subrange(0, i as int));
            assert(p.last() == c@);
        }
        if c.is_valid() {
            out.push(c);
            assert(out@.map_values(|c: Country| c@) =~= to_write(s.subrange(0, i as int)).push(
                s[i as int],
            ));
        }
        i = i + 1;
    }
    assert(s.subrange(0, i as int) =~= s);
    out
}

/// A table of countries keyed by name, with upsert semantics.
pub struct CountryTable {
    rows: Vec<Country>,
    model: Ghost<Rows>,
}

impl View for CountryTable {
    type V = Rows;

    closed spec fn view(&self) -> Rows {
        self.model@
    }
}

impl CountryTable {
    /// One row per name, each valid, and the rows are exactly the model.
    pub closed spec fn wf(&self) -> bool {
        &&& forall|i: int|
            0 <= i < self.rows.len() ==> {
                &&& (#[trigger] self.rows@[i]).wf()
                &&& self.model@.contains_key(self.rows@[i]@.name)
                &&& self.model@[self.rows@[i]@.name] == self.rows@[i]@
            }
        &&& forall|i: int, j: int|
            0 <= i < j < self.rows.len() ==> (#[trigger] self.rows@[i])@.name != (
            #[trigger] self.rows@[j])@.name
        &&& forall|k: Seq<char>| #[trigger]
            self.model@.contains_key(k) ==> exists|i: int|
                0 <= i < self.rows.len() && (#[trigger] self.rows@[i])@.name == k
        &&& rows_valid(self.model@)
    }

    /// An empty table.
    pub fn new() -> (r: CountryTable)
        ensures
            r.wf(),
            r@ == Rows::empty(),
    {
        CountryTable { rows: Vec::new(), model: Ghost(Rows::empty()) }
    }

    /// How many rows the table holds: one per name.
    pub fn len(&self) -> (r: usize)
        requires
            self.wf(),
        ensures
            r == self@.len(),
    {
        proof {
            let names = self.rows@.map_values(|c: Country| c@.name);
            assert(names.no_duplicates()) by {
                assert forall|i: int, j: int|
                    0 <= i < names.len() && 0 <= j < names.len() && i != j implies names[i]
                    != names[j] by {
                    if i < j {
                        assert(self.rows@[i]@.name != self.rows@[j]@.name);
                    } else {
                        assert(self.rows@[j]@.name != self.rows@[i]@.name);
                    }
                }
            }
            names.unique_seq_to_set();
            assert forall|k: Seq<char>| self@.dom().contains(k) <==> names.to_set().contains(k) by {
                if self@.dom().contains(k) {
                    let i = choose|i: int| 0 <= i < self.rows.len() && (#[trigger] self.rows@[i])@.name == k;
                    assert(names[i] == k);
                }
                if names.to_set().contains(k) {
                    let i = choose|i: int| 0 <= i < names.len() && names[i] == k;
                    assert(self.rows@[i]@.name == k);
                }
            }
            assert(self@.dom() =~= names.to_set());
        }
        self.rows.len()
    }

    /// The row named `name`.
    pub fn get(&self, name: &str) -> (r: Option<&Country>)
        requires
            self.wf(),
        ensures
            match r {
                Some(c) => self@.contains_key(name@) && self@[name@] == c@ && c.wf(),
                None => !self@.contains_key(name@),
            },
    {
        let mut i: usize = 0;
        while i < self.rows.len()
            invariant
                self.wf(),
                0 <= i <= self.rows.len(),
                forall|j: int| 0 <= j < i ==> (#[trigger] self.rows@[j])@.name != name@,
            decreases self.rows.len() - i,
        {
            if text_eq(self.rows[i].name.as_str(), name) {
                return Some(&self.rows[i]);
            }
            i = i + 1;
        }
        None
    }

    /// Upserts one record: a valid one is inserted, or overwrites the row of
    /// its name; an invalid one is skipped.
    pub fn upsert(&mut self, c: Country)
        requires
            old(self).wf(),
            c.wf(),
        ensures
            final(self).wf(),
            final(self)@ == upsert(old(self)@, c@),
    {
        if !c.is_valid() {
            return;
        }
        let mut i: usize = 0;
        while i < self.rows.len()
            invariant
                self.wf(),
                0 <= i <= self.rows.len(),
                forall|j: int| 0 <= j < i ==> (#[trigger] self.rows@[j])@.name != c@.name,
            ensures
                0 <= i <= self.rows.len(),
                forall|j: int| 0 <= j < i ==> (#[trigger] self.rows@[j])@.name != c@.name,
                i < self.rows.len() ==> self.rows@[i as int]@.name == c@.name,
            decreases self.rows.len() - i,
        {
            if self.rows[i].name == c.name {
                break;
            }
            i = i + 1;
        }
        let ghost m = self.model@.insert(c@.name, c@);
        let ghost old_rows = self.rows@;
        let ghost old_model = self.model@;
        let ghost at = i as int;
        if i < self.rows.len() {
            self.rows.set(i, c);
        } else {
            self.rows.push(c);
        }
        self.model = Ghost(m);
        proof {
            let rows = self.rows@;
            assert(rows[at]@ == c@);
            assert forall|j: int| 0 <= j < rows.len() && j != at implies rows[j] == old_rows[j]
                && rows[j]@.name != c@.name by {
                if at < old_rows.len() {
                    if j < at {
                        assert(old_rows[j]@.name != old_rows[at]@.name);
                    } else {
                        assert(old_rows[at]@.name != old_rows[j]@.name);
                    }
                }
            }
            assert forall|j: int| 0 <= j < rows.len() implies {
                &&& (#[trigger] rows[j]).wf()
                &&& m.contains_key(rows[j]@.name)
                &&& m[rows[j]@.name] == rows[j]@
            } by {
                if j != at {
                    assert(old_rows[j]@.name != c@.name);
                }
            }
            assert forall|k: Seq<char>| #[trigger] m.contains_key(k) implies exists|j: int|
                0 <= j < rows.len() && (#[trigger] rows[j])@.name == k by {
                if k == c@.name {
                    assert(rows[at]@.name == k);
                } else {
                    assert(old_model.contains_key(k));
                    let j = choose|j: int| 0 <= j < old_rows.len() && (#[trigger] old_rows[j])@.name == k;
                    assert(rows[j]@.name == k);
                }
            }
            assert forall|a: int, b: int|
                0 <= a < b < rows.len() implies (#[trigger] rows[a])@.name != (
                #[trigger] rows[b])@.name by {
                if a != at && b != at {
                    assert(old_rows[a]@.name != old_rows[b]@.name);
                }
            }
        }
    }

    /// Upserts each record of the batch in order, skipping invalid ones.
    pub fn store_countries(&mut self, countries: &Vec<Country>)
        requires
            old(self).wf(),
            forall|i: int| 0 <= i < countries.len() ==> #[trigger] countries@[i].wf(),
        ensures
            final(self).wf(),
            final(self)@ == store_all(old(self)@, countries@.map_values(|c: Country| c@)),
    {
        let ghost s = countries@.map_values(|c: Country| c@);
        let ghost start = self@;
        let mut i: usize = 0;
        while i < countries.len()
            invariant
                self.wf(),
                0 <= i <= countries.len(),
                s == countries@.map_values(|c: Country| c@),
                forall|k: int| 0 <= k < countries.len() ==> #[trigger] countries@[k].wf(),
                self@ == store_all(start, s.subrange(0, i as int)),
            decreases countries.len() - i,
        {
            let c = countries[i].duplicate();
            self.upsert(c);
            proof {
                let p = s.subrange(0, i as int + 1);
                assert(p.drop_last() =~= s.subrange(0, i as int));
            }
            i = i + 1;
        }
        assert(s.subrange(0, i as int) =~= s);
    }
}

} // verus!
