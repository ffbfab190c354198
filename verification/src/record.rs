use vstd::prelude::*;

verus! {

/// How many units of a stored indicator make one whole point: indicators are
/// kept in fixed point, in millionths.
pub const UNITS_PER_POINT: i64 = 1_000_000;

/// Two countries are similar when their happiness scores differ by strictly
/// less than this many units, which is one whole point.
pub const SIMILARITY_THRESHOLD: i64 = 1_000_000;

/// One country with its region and its six indicators.
///
/// Every indicator is a fixed-point number counted in millionths, so a
/// happiness score of 7.5 is stored as `7_500_000`.
#[derive(Debug)]
pub struct Country {
    pub country_name: String,
    pub country_region: String,
    pub happiness_score: i64,
    pub happiness_rank: i64,
    pub gdp: i64,
    pub health: i64,
    pub family: i64,
    pub gove_corruption: i64,
}

/// The mathematical value of a [`Country`].
pub ghost struct CountryView {
    pub name: Seq<char>,
    pub region: Seq<char>,
    pub score: int,
    pub rank: int,
    pub gdp: int,
    pub health: int,
    pub family: int,
    pub corruption: int,
}

/// The two rules by which the graph builder links a pair of countries.
#[derive(Clone, Copy, Debug, PartialEq, Eq, Structural)]
pub enum Policy {
    /// Both countries lie in the same region.
    SameRegion,
    /// The happiness scores are less than one point apart.
    SimilarScore,
}

/// The distance between the happiness scores of `a` and `b`, in units.
pub open spec fn score_gap(a: CountryView, b: CountryView) -> int {
    if a.score >= b.score {
        a.score - b.score
    } else {
        b.score - a.score
    }
}

/// Whether `a` and `b` lie in the same region.
pub open spec fn same_region(a: CountryView, b: CountryView) -> bool {
    a.region == b.region
}

/// Whether the scores of `a` and `b` are strictly less than one point apart.
pub open spec fn similar_score(a: CountryView, b: CountryView) -> bool {
    score_gap(a, b) < SIMILARITY_THRESHOLD
}

/// Whether `policy` links `a` with `b`.
pub open spec fn links(policy: Policy, a: CountryView, b: CountryView) -> bool {
    match policy {
        Policy::SameRegion => same_region(a, b),
        Policy::SimilarScore => similar_score(a, b),
    }
}

/// The values of a sequence of countries.
pub open spec fn views(countries: Seq<Country>) -> Seq<CountryView> {
    countries.map_values(|c: Country| c@)
}

impl View for Country {
    type V = CountryView;

    open spec fn view(&self) -> CountryView {
        CountryView {
            name: self.country_name@,
            region: self.country_region@,
            score: self.happiness_score as int,
            rank: self.happiness_rank as int,
            gdp: self.gdp as int,
            health: self.health as int,
            family: self.family as int,
            corruption: self.gove_corruption as int,
        }
    }
}

impl Clone for Country {
    fn clone(&self) -> (copy: Country)
        ensures
            copy@ == self@,
    {
        Country {
            country_name: self.country_name.clone(),
            country_region: self.country_region.clone(),
            happiness_score: self.happiness_score,
            happiness_rank: self.happiness_rank,
            gdp: self.gdp,
            health: self.health,
            family: self.family,
            gove_corruption: self.gove_corruption,
        }
    }
}

impl Country {
    /// Whether this country and `other` lie in the same region.
    pub fn shares_region_with(&self, other: &Country) -> (same: bool)
        ensures
            same == same_region(self@, other@),
    {
        self.country_region == other.country_region
    }

    /// Whether the happiness scores of this country and `other` are strictly
    /// less than one point apart.
    pub fn is_similar_to(&self, other: &Country) -> (similar: bool)
        ensures
            similar == similar_score(self@, other@),
    {
        let gap: i128 = self.happiness_score as i128 - other.happiness_score as i128;
        let limit: i128 = SIMILARITY_THRESHOLD as i128;
        -limit < gap && gap < limit
    }

    /// Whether `policy` links this country with `other`.
    pub fn linked_by(&self, policy: Policy, other: &Country) -> (linked: bool)
        ensures
            linked == links(policy, self@, other@),
    {
        match policy {
            Policy::SameRegion => self.shares_region_with(other),
            Policy::SimilarScore => self.is_similar_to(other),
        }
    }
}

} // verus!
