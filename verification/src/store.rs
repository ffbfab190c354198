use vstd::prelude::*;
use crate::record::{views, Country, CountryView};

verus! {

/// Why a country was not taken into a [`CountryStore`].
#[derive(Clone, Copy, Debug, PartialEq, Eq, Structural)]
pub enum StoreError {
    /// The country has no name to be found by.
    EmptyName,
}

/// The countries of one data set, each found by its name.
///
/// The store keeps the countries in the order in which their names first
/// came in; no name occurs twice and none is empty.
pub struct CountryStore {
    countries: Vec<Country>,
}

/// Whether some country of `countries` is called `name`.
pub open spec fn has_name(countries: Seq<CountryView>, name: Seq<char>) -> bool {
    exists|i: int| 0 <= i < countries.len() && (#[trigger] countries[i]).name == name
}

/// The place of the country called `name` in `countries`.
pub open spec fn place_of(countries: Seq<CountryView>, name: Seq<char>) -> int {
    choose|i: int| 0 <= i < countries.len() && (#[trigger] countries[i]).name == name
}

/// Whether no name is empty and no two countries of `countries` share one.
pub open spec fn distinct_names(countries: Seq<CountryView>) -> bool {
    &&& forall|i: int| 0 <= i < countries.len() ==> (#[trigger] countries[i]).name.len() > 0
    &&& forall|i: int, j: int|
        0 <= i < j < countries.len() ==> (#[trigger] countries[i]).name != (
        #[trigger] countries[j]).name
}

/// The countries as a mapping from names to countries.
pub open spec fn mapping(countries: Seq<CountryView>) -> Map<Seq<char>, CountryView> {
    Map::new(
        |name: Seq<char>| has_name(countries, name),
        |name: Seq<char>| countries[place_of(countries, name)],
    )
}

/// The countries after `country` was put among them under its name: in the
/// place of the one that had the name, or else behind the others.
pub open spec fn put(countries: Seq<CountryView>, country: CountryView) -> Seq<CountryView> {
    if has_name(countries, country.name) {
        countries.update(place_of(countries, country.name), country)
    } else {
        countries.push(country)
    }
}

/// In a sequence of distinct names, a name is found at one place only.
pub proof fn lemma_place_is_unique(countries: Seq<CountryView>, i: int)
    requires
        distinct_names(countries),
        0 <= i < countries.len(),
    ensures
        has_name(countries, countries[i].name),
        place_of(countries, countries[i].name) == i,
        mapping(countries).get(countries[i].name) == Some(countries[i]),
{
    let name = countries[i].name;
    let p = place_of(countries, name);
    if p < i {
        assert(countries[p].name != countries[i].name);
    } else if i < p {
        assert(countries[i].name != countries[p].name);
    }
}

/// Putting a named country among countries of distinct names keeps the
/// names distinct, and changes the mapping as an insertion under that name
/// does.
pub proof fn lemma_put(countries: Seq<CountryView>, country: CountryView)
    requires
        distinct_names(countries),
        country.name.len() > 0,
    ensures
        distinct_names(put(countries, country)),
        mapping(put(countries, country)) == mapping(countries).insert(country.name, country),
{
    let after = put(countries, country);
    let known = has_name(countries, country.name);
    let at = if known {
        place_of(countries, country.name)
    } else {
        countries.len() as int
    };
    assert(after.len() > at && after[at] == country);
    assert forall|i: int| 0 <= i < after.len() implies (#[trigger] after[i]).name.len() > 0 by {
        if i != at {
            assert(after[i] == countries[i]);
        }
    }
    assert forall|i: int, j: int| 0 <= i < j < after.len() implies (#[trigger] after[i]).name != (
    #[trigger] after[j]).name by {
        if i != at && j != at {
            assert(countries[i].name != countries[j].name);
        } else if known {
            if i == at {
                assert(countries[i].name != countries[j].name);
            } else {
                assert(countries[i].name != countries[j].name);
            }
        } else {
            assert(countries[i].name != country.name);
        }
    }
    assert forall|name: Seq<char>| has_name(after, name) <==> (has_name(countries, name) || name
        == country.name) by {
        if has_name(after, name) {
            let i = place_of(after, name);
            if i != at {
                assert(countries[i].name == name);
            }
        }
        if has_name(countries, name) {
            let i = place_of(countries, name);
            if i != at {
                assert(after[i].name == name);
            }
        }
    }
    assert forall|name: Seq<char>| has_name(after, name) implies #[trigger] mapping(after)[name]
        == mapping(countries).insert(country.name, country)[name] by {
        let i = place_of(after, name);
        lemma_place_is_unique(after, i);
        if name != country.name {
            assert(after[i] == countries[i]);
            lemma_place_is_unique(countries, i);
        } else {
            lemma_place_is_unique(after, at);
        }
    }
    assert(mapping(after) =~= mapping(countries).insert(country.name, country));
}

impl View for CountryStore {
    type V = Seq<CountryView>;

    closed spec fn view(&self) -> Seq<CountryView> {
        views(self.countries@)
    }
}

impl CountryStore {
    /// The invariant of the store: names are present and unique.
    pub open spec fn wf(&self) -> bool {
        distinct_names(self@)
    }

    /// The store as a mapping from names to countries.
    pub open spec fn as_map(&self) -> Map<Seq<char>, CountryView> {
        mapping(self@)
    }

    /// A store without countries.
    pub fn new() -> (store: CountryStore)
        ensures
            store.wf(),
            store@ == Seq::<CountryView>::empty(),
    {
        let store = CountryStore { countries: Vec::new() };
        assert(store@ =~= Seq::<CountryView>::empty());
        store
    }

    /// The number of countries.
    pub fn len(&self) -> (n: usize)
        ensures
            n == self@.len(),
    {
        self.countries.len()
    }

    /// Whether the store holds no country.
    pub fn is_empty(&self) -> (empty: bool)
        ensures
            empty == (self@.len() == 0),
    {
        self.countries.len() == 0
    }

    /// The countries in the order of the store.
    pub fn countries(&self) -> (all: &Vec<Country>)
        ensures
            views(all@) == self@,
    {
        &self.countries
    }

    /// Takes `country` into the store under its name.
    ///
    /// A country without a name is refused and the store stays as it was.
    /// Where the store already has a country of that name, the new one takes
    /// its place and the earlier one is handed back; otherwise the new one
    /// comes last and nothing is handed back.
    pub fn insert(&mut self, country: Country) -> (outcome: Result<Option<Country>, StoreError>)
        requires
            old(self).wf(),
        ensures
            final(self).wf(),
            match outcome {
                Err(error) => {
                    &&& error == StoreError::EmptyName
                    &&& country@.name.len() == 0
                    &&& final(self)@ == old(self)@
                },
                Ok(earlier) => {
                    &&& country@.name.len() > 0
                    &&& final(self)@ == put(old(self)@, country@)
                    &&& final(self).as_map() == old(self).as_map().insert(
                        country@.name,
                        country@,
                    )
                    &&& match earlier {
                        Some(one) => old(self).as_map().get(country@.name) == Some(one@),
                        None => old(self).as_map().get(country@.name) is None,
                    }
                },
            },
    {
        if country.country_name.as_str().is_empty() {
            return Err(StoreError::EmptyName);
        }
        let ghost before = self@;
        let ghost added = country@;
        proof {
            lemma_put(before, added);
        }
        match self.position(&country.country_name) {
            Some(i) => {
                proof {
                    lemma_place_is_unique(before, i as int);
                }
                self.countries.push(country);
                let earlier = self.countries.swap_remove(i);
                assert(self@ =~= before.update(i as int, added));
                assert(earlier@ == before[i as int]);
                Ok(Some(earlier))
            },
            None => {
                self.countries.push(country);
                assert(self@ =~= before.push(added));
                Ok(None)
            },
        }
    }

    /// The first place at which a country called `name` stands, if the
    /// store has one.
    pub fn position(&self, name: &String) -> (found: Option<usize>)
        ensures
            found is Some <==> has_name(self@, name@),
            found is Some ==> {
                &&& found->0 < self@.len()
                &&& self@[found->0 as int].name == name@
                &&& forall|k: int| 0 <= k < found->0 ==> (#[trigger] self@[k]).name != name@
            },
    {
        let n: usize = self.countries.len();
        let mut i: usize = 0;
        while i < n
            invariant
                n == self.countries@.len(),
                n == self@.len(),
                i <= n,
                forall|k: int| 0 <= k < i ==> (#[trigger] self@[k]).name != name@,
            decreases n - i,
        {
            assert(self@[i as int] == self.countries@[i as int]@);
            if self.countries[i].country_name == *name {
                return Some(i);
            }
            i += 1;
        }
        None
    }

    /// The country called `name`, if the store has one.
    pub fn get(&self, name: &String) -> (found: Option<&Country>)
        requires
            self.wf(),
        ensures
            match found {
                Some(country) => self.as_map().get(name@) == Some(country@),
                None => self.as_map().get(name@) is None,
            },
    {
        match self.position(name) {
            Some(i) => {
                proof {
                    lemma_place_is_unique(self@, i as int);
                }
                Some(&self.countries[i])
            },
            None => None,
        }
    }
}

} // verus!
