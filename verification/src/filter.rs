//! The country filter: a set of country codes plus an include/exclude flag.

use crate::text::{split_on, split_str, str_eq, views_of};
use vstd::prelude::*;

verus! {

/// A record passes iff `excluding XOR (country IN countries)`.
#[derive(Clone, Debug)]
pub struct CountryFilter {
    pub countries: Vec<String>,
    pub excluding: bool,
}

pub open spec fn country_views(cs: Seq<String>) -> Seq<Seq<char>> {
    cs.map_values(|c: String| c@)
}

/// Whether a record with the given country code passes the filter.
pub open spec fn passes_filter(sets: Seq<Seq<char>>, excluding: bool, code: Seq<char>) -> bool {
    excluding != sets.contains(code)
}

/// The country set named by a country specification: an optional leading
/// `!` exclusion marker, then comma-separated codes.
pub open spec fn spec_excluding(s: Seq<char>) -> bool {
    s.len() > 0 && s[0] == '!'
}

pub open spec fn spec_sets(s: Seq<char>) -> Seq<Seq<char>> {
    if spec_excluding(s) {
        split_on(s.subrange(1, s.len() as int), ',')
    } else {
        split_on(s, ',')
    }
}

impl CountryFilter {
    pub open spec fn sets(self) -> Seq<Seq<char>> {
        country_views(self.countries@)
    }

    pub open spec fn spec_passes(self, code: Seq<char>) -> bool {
        passes_filter(self.sets(), self.excluding, code)
    }

    /// Applies the filter to one country code.
    pub fn passes(&self, code: &str) -> (r: bool)
        ensures
            r == self.spec_passes(code@),
    {
        let mut found = false;
        let mut i: usize = 0;
        while i < self.countries.len()
            invariant
                i <= self.countries@.len(),
                found ==> self.sets().contains(code@),
                !found ==> forall|j: int| 0 <= j < i ==> self.sets()[j] != code@,
            decreases self.countries@.len() - i,
        {
            if !found && str_eq(self.countries[i].as_str(), code) {
                proof {
                    assert(self.sets()[i as int] == code@);
                }
                found = true;
            }
            i = i + 1;
        }
        proof {
            if !found && self.sets().contains(code@) {
                let j = choose|j: int| 0 <= j < self.sets().len() && self.sets()[j] == code@;
                assert(false);
            }
        }
        self.excluding != found
    }
}

/// Resolves a country specification into a filter: a leading `!` means
/// exclusion, the rest is a comma-separated list of codes.
pub fn parse_countries(countries: &str) -> (f: CountryFilter)
    ensures
        f.excluding == spec_excluding(countries@),
        f.sets() == spec_sets(countries@),
{
    let n = countries.unicode_len();
    let excluding = n > 0 && countries.get_char(0) == '!';
    let rest = if excluding {
        countries.substring_char(1, n)
    } else {
        countries
    };
    let parts = split_str(rest, ',');
    let mut cs: Vec<String> = Vec::new();
    let mut i: usize = 0;
    while i < parts.len()
        invariant
            i <= parts@.len(),
            cs@.len() == i,
            forall|j: int| 0 <= j < i ==> country_views(cs@)[j] == views_of(parts@)[j],
        decreases parts@.len() - i,
    {
        cs.push(parts[i].to_owned());
        i = i + 1;
    }
    let f = CountryFilter { countries: cs, excluding };
    proof {
        assert(f.sets() =~= views_of(parts@));
    }
    f
}

} // verus!
