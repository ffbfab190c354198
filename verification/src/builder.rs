use vstd::prelude::*;
use crate::graph::{
    adjacent, edges_between, joining, joins, simple_edges, CountryGraph, CAPACITY,
};
use crate::record::{links, same_region, similar_score, views, Country, CountryView, Policy};
use crate::store::CountryStore;

verus! {

/// The pairs `(i, j)` with `j` from `i + 1` up to, but not including,
/// `until`, in rising order of `j`.
pub open spec fn row(i: int, until: int) -> Seq<(int, int)> {
    Seq::new((until - i - 1) as nat, |k: int| (i, i + 1 + k))
}

/// The pairs `(i, j)` with `i < j < n` and `i < rows`, ordered by `i` and
/// then by `j`.
pub open spec fn pairs(rows: int, n: int) -> Seq<(int, int)>
    decreases rows,
{
    if rows <= 0 {
        Seq::empty()
    } else {
        pairs(rows - 1, n) + row(rows - 1, n)
    }
}

/// Every pair of two different nodes among `n`, the smaller index first,
/// ordered by the first index and then by the second.
pub open spec fn all_pairs(n: int) -> Seq<(int, int)> {
    pairs(n, n)
}

/// Whether `policy` links the two countries that `pair` points at.
pub open spec fn linked_pair(countries: Seq<CountryView>, policy: Policy) -> spec_fn((int, int)) -> bool {
    |pair: (int, int)| links(policy, countries[pair.0], countries[pair.1])
}

/// The edges that `policy` asks for among `countries`: one for every pair of
/// countries that it links, in the order of [`all_pairs`].
pub open spec fn policy_edges(countries: Seq<CountryView>, policy: Policy) -> Seq<(int, int)> {
    all_pairs(countries.len() as int).filter(linked_pair(countries, policy))
}

/// The edges of the graph of `countries`: first those between countries of
/// one region, then those between countries of similar score. A pair that
/// both policies link has two edges.
pub open spec fn planned_edges(countries: Seq<CountryView>) -> Seq<(int, int)> {
    policy_edges(countries, Policy::SameRegion) + policy_edges(countries, Policy::SimilarScore)
}

/// Whether a graph has room for the nodes and edges of `countries`.
pub open spec fn fits_capacity(countries: Seq<CountryView>) -> bool {
    countries.len() <= CAPACITY && planned_edges(countries).len() <= CAPACITY
}

/// The rows of pairs come one after the other: fewer rows give a prefix.
proof fn lemma_pairs_prefix(few: int, many: int, n: int)
    requires
        0 <= few <= many,
    ensures
        pairs(few, n).is_prefix_of(pairs(many, n)),
    decreases many - few,
{
    if few < many {
        lemma_pairs_prefix(few, many - 1, n);
    }
}

/// The pairs up to and with `(i, j)` open the sequence of all pairs.
proof fn lemma_pairs_so_far(i: int, j: int, n: int)
    requires
        0 <= i < j <= n,
    ensures
        (pairs(i, n) + row(i, j)).is_prefix_of(all_pairs(n)),
{
    lemma_pairs_prefix(i + 1, n, n);
    assert(row(i, j).is_prefix_of(row(i, n)));
    assert((pairs(i, n) + row(i, j)).is_prefix_of(pairs(i + 1, n)));
}

/// A pair is among the pairs of the first `rows` rows exactly when it is in
/// rising order, below `n`, and starts in one of those rows.
pub proof fn lemma_pairs_contains(rows: int, n: int, pair: (int, int))
    requires
        0 <= rows <= n,
    ensures
        pairs(rows, n).contains(pair) <==> 0 <= pair.0 < rows && pair.0 < pair.1 < n,
    decreases rows,
{
    if rows > 0 {
        lemma_pairs_contains(rows - 1, n, pair);
        let before = pairs(rows - 1, n);
        let last = row(rows - 1, n);
        if before.contains(pair) {
            let k = choose|k: int| 0 <= k < before.len() && before[k] == pair;
            assert((before + last)[k] == pair);
        }
        if pair.0 == rows - 1 && pair.0 < pair.1 < n {
            let k = pair.1 - rows;
            assert(last[k] == pair);
            assert((before + last)[before.len() + k] == pair);
        }
        if pairs(rows, n).contains(pair) {
            let k = choose|k: int| 0 <= k < pairs(rows, n).len() && pairs(rows, n)[k] == pair;
            if k < before.len() {
                assert(before[k] == pair);
            } else {
                assert(last[k - before.len()] == pair);
            }
        }
    }
}

/// Every edge that a policy asks for runs between two different countries,
/// from the smaller index to the larger, and the policy links the two.
pub proof fn lemma_policy_edges(countries: Seq<CountryView>, policy: Policy, k: int)
    requires
        0 <= k < policy_edges(countries, policy).len(),
    ensures
        0 <= policy_edges(countries, policy)[k].0 < policy_edges(countries, policy)[k].1
            < countries.len(),
        links(
            policy,
            countries[policy_edges(countries, policy)[k].0],
            countries[policy_edges(countries, policy)[k].1],
        ),
{
    let n = countries.len() as int;
    let wanted = linked_pair(countries, policy);
    let edge = policy_edges(countries, policy)[k];
    all_pairs(n).lemma_filter_pred(wanted, k);
    assert(all_pairs(n).filter(wanted).contains(edge));
    all_pairs(n).lemma_filter_contains_rev(wanted, edge);
    lemma_pairs_contains(n, n, edge);
}

/// The planned edges are those of the two policies, one after the other.
pub proof fn lemma_planned_edge(countries: Seq<CountryView>, k: int) -> (policy: Policy)
    requires
        0 <= k < planned_edges(countries).len(),
    ensures
        0 <= planned_edges(countries)[k].0 < planned_edges(countries)[k].1 < countries.len(),
        links(
            policy,
            countries[planned_edges(countries)[k].0],
            countries[planned_edges(countries)[k].1],
        ),
{
    let regional = policy_edges(countries, Policy::SameRegion);
    if k < regional.len() {
        lemma_policy_edges(countries, Policy::SameRegion, k);
        Policy::SameRegion
    } else {
        lemma_policy_edges(countries, Policy::SimilarScore, k - regional.len());
        Policy::SimilarScore
    }
}

/// The planned edges make a graph on the countries: each joins two different
/// countries.
pub proof fn lemma_planned_edges_are_simple(countries: Seq<CountryView>)
    ensures
        simple_edges(planned_edges(countries), countries.len() as int),
{
    let edges = planned_edges(countries);
    assert forall|k: int| 0 <= k < edges.len() implies 0 <= (#[trigger] edges[k]).0
        < countries.len() && 0 <= edges[k].1 < countries.len() && edges[k].0 != edges[k].1 by {
        lemma_planned_edge(countries, k);
    }
}

/// Two different countries that a policy links are joined by an edge of the
/// graph: all countries of a region are joined with each other, and so are
/// all countries whose scores are less than one point apart.
pub proof fn lemma_linked_countries_are_adjacent(
    countries: Seq<CountryView>,
    policy: Policy,
    i: int,
    j: int,
)
    requires
        0 <= i < countries.len(),
        0 <= j < countries.len(),
        i != j,
        links(policy, countries[i], countries[j]),
    ensures
        adjacent(planned_edges(countries), i, j),
{
    let n = countries.len() as int;
    let wanted = linked_pair(countries, policy);
    let pair = if i < j {
        (i, j)
    } else {
        (j, i)
    };
    lemma_pairs_contains(n, n, pair);
    let at = choose|at: int| 0 <= at < all_pairs(n).len() && all_pairs(n)[at] == pair;
    assert(wanted(pair));
    all_pairs(n).lemma_filter_contains(wanted, at);
    let chosen = policy_edges(countries, policy);
    let k = choose|k: int| 0 <= k < chosen.len() && chosen[k] == pair;
    let regional = policy_edges(countries, Policy::SameRegion);
    let edges = planned_edges(countries);
    match policy {
        Policy::SameRegion => {
            assert(joins(edges[k], i, j));
        },
        Policy::SimilarScore => {
            assert(joins(edges[regional.len() + k], i, j));
        },
    }
}

/// Two countries of different regions whose scores are a point or more apart
/// are joined by no edge of the graph.
pub proof fn lemma_unlinked_countries_are_apart(countries: Seq<CountryView>, i: int, j: int)
    requires
        !same_region(countries[i], countries[j]),
        !similar_score(countries[i], countries[j]),
    ensures
        !adjacent(planned_edges(countries), i, j),
{
    let edges = planned_edges(countries);
    if adjacent(edges, i, j) {
        let k = choose|k: int| 0 <= k < edges.len() && joins(#[trigger] edges[k], i, j);
        let policy = lemma_planned_edge(countries, k);
    }
}

/// No pair occurs twice among the pairs of the first `rows` rows.
proof fn lemma_pairs_are_distinct(rows: int, n: int)
    requires
        0 <= rows <= n,
    ensures
        pairs(rows, n).no_duplicates(),
    decreases rows,
{
    if rows > 0 {
        let before = pairs(rows - 1, n);
        let last = row(rows - 1, n);
        lemma_pairs_are_distinct(rows - 1, n);
        assert forall|i: int, j: int| 0 <= i < before.len() && 0 <= j < last.len() implies before[i]
            != last[j] by {
            assert(before.contains(before[i]));
            lemma_pairs_contains(rows - 1, n, before[i]);
        }
        vstd::seq_lib::lemma_no_dup_in_concat(before, last);
    }
}

/// What is kept of a sequence without repetition has no repetition.
proof fn lemma_filter_keeps_distinct(items: Seq<(int, int)>, kept: spec_fn((int, int)) -> bool)
    requires
        items.no_duplicates(),
    ensures
        items.filter(kept).no_duplicates(),
    decreases items.len(),
{
    if items.len() == 0 {
        items.lemma_filter_len(kept);
    } else {
        let earlier = items.drop_last();
        let last = items.last();
        lemma_filter_keeps_distinct(earlier, kept);
        earlier.lemma_filter_push(last, kept);
        assert(earlier.push(last) =~= items);
        if kept(last) {
            let chosen = earlier.filter(kept);
            if chosen.contains(last) {
                earlier.lemma_filter_contains_rev(kept, last);
                let at = choose|at: int| 0 <= at < earlier.len() && earlier[at] == last;
                assert(items[at] == items[items.len() - 1]);
            }
            assert forall|i: int, j: int|
                0 <= i < chosen.push(last).len() && 0 <= j < chosen.push(last).len() && i
                    != j implies chosen.push(last)[i] != chosen.push(last)[j] by {
                if i < chosen.len() && j < chosen.len() {
                    assert(chosen[i] != chosen[j]);
                } else if i < chosen.len() {
                    assert(chosen.contains(chosen[i]));
                } else {
                    assert(chosen.contains(chosen[j]));
                }
            }
        }
    }
}

/// Where `sought` holds of `one` alone among the members of a sequence
/// without repetition, it holds of one member or of none.
proof fn lemma_count_of_one(items: Seq<(int, int)>, sought: spec_fn((int, int)) -> bool, one: (
    int,
    int,
))
    requires
        items.no_duplicates(),
        forall|k: int| 0 <= k < items.len() ==> (sought(#[trigger] items[k]) <==> items[k] == one),
    ensures
        items.filter(sought).len() == if items.contains(one) {
            1nat
        } else {
            0nat
        },
    decreases items.len(),
{
    if items.len() == 0 {
        items.lemma_filter_len(sought);
    } else {
        let earlier = items.drop_last();
        let last = items.last();
        assert forall|k: int| 0 <= k < earlier.len() implies (sought(#[trigger] earlier[k])
            <==> earlier[k] == one) by {
            assert(earlier[k] == items[k]);
        }
        lemma_count_of_one(earlier, sought, one);
        earlier.lemma_filter_len_push(sought, last);
        assert(earlier.push(last) =~= items);
        assert(sought(items[items.len() - 1]) <==> last == one);
        if earlier.contains(one) {
            let at = choose|at: int| 0 <= at < earlier.len() && earlier[at] == one;
            assert(items[at] == one);
            assert(items[at] != items[items.len() - 1]);
        }
        if items.contains(one) && last != one {
            let at = choose|at: int| 0 <= at < items.len() && items[at] == one;
            assert(earlier[at] == one);
        }
    }
}

/// A policy gives two different countries one edge where it links them, and
/// none where it does not.
proof fn lemma_policy_edges_between(countries: Seq<CountryView>, policy: Policy, i: int, j: int)
    requires
        0 <= i < countries.len(),
        0 <= j < countries.len(),
        i != j,
    ensures
        edges_between(policy_edges(countries, policy), i, j) == if links(
            policy,
            countries[i],
            countries[j],
        ) {
            1nat
        } else {
            0nat
        },
{
    let n = countries.len() as int;
    let wanted = linked_pair(countries, policy);
    let chosen = policy_edges(countries, policy);
    let pair = if i < j {
        (i, j)
    } else {
        (j, i)
    };
    lemma_pairs_are_distinct(n, n);
    lemma_filter_keeps_distinct(all_pairs(n), wanted);
    assert forall|k: int| 0 <= k < chosen.len() implies (joining(i, j)(#[trigger] chosen[k])
        <==> chosen[k] == pair) by {
        lemma_policy_edges(countries, policy, k);
    }
    lemma_count_of_one(chosen, joining(i, j), pair);
    if chosen.contains(pair) {
        let k = choose|k: int| 0 <= k < chosen.len() && chosen[k] == pair;
        lemma_policy_edges(countries, policy, k);
    }
    if links(policy, countries[i], countries[j]) {
        lemma_pairs_contains(n, n, pair);
        let at = choose|at: int| 0 <= at < all_pairs(n).len() && all_pairs(n)[at] == pair;
        assert(wanted(pair));
        all_pairs(n).lemma_filter_contains(wanted, at);
    }
}

/// Two different countries are joined by one edge for each policy that links
/// them: by two where they share a region and lie close in score, by one
/// where only one of the two holds, and by none otherwise.
pub proof fn lemma_edges_between_countries(countries: Seq<CountryView>, i: int, j: int)
    requires
        0 <= i < countries.len(),
        0 <= j < countries.len(),
        i != j,
    ensures
        edges_between(planned_edges(countries), i, j) == (if same_region(
            countries[i],
            countries[j],
        ) {
            1nat
        } else {
            0nat
        }) + (if similar_score(countries[i], countries[j]) {
            1nat
        } else {
            0nat
        }),
{
    lemma_policy_edges_between(countries, Policy::SameRegion, i, j);
    lemma_policy_edges_between(countries, Policy::SimilarScore, i, j);
    Seq::filter_distributes_over_add(
        policy_edges(countries, Policy::SameRegion),
        policy_edges(countries, Policy::SimilarScore),
        joining(i, j),
    );
}

/// Adds to `graph` the edges that `policy` asks for among `countries`, and
/// says whether the graph had room for them all.
fn connect(graph: &mut CountryGraph, countries: &Vec<Country>, policy: Policy) -> (done: bool)
    requires
        old(graph).wf(),
        old(graph)@.nodes.len() == countries@.len(),
    ensures
        final(graph).wf(),
        final(graph)@.nodes == old(graph)@.nodes,
        done <==> old(graph)@.edges.len() + policy_edges(views(countries@), policy).len()
            <= CAPACITY,
        done ==> final(graph)@.edges == old(graph)@.edges + policy_edges(
            views(countries@),
            policy,
        ),
{
    let n: usize = countries.len();
    let ghost base = graph@.edges;
    let ghost nodes = graph@.nodes;
    let ghost all = views(countries@);
    let ghost wanted = linked_pair(all, policy);
    let ghost seen: Seq<(int, int)> = Seq::empty();
    let mut i: usize = 0;
    proof {
        assert(seen.filter(wanted) =~= Seq::<(int, int)>::empty()) by {
            seen.lemma_filter_len(wanted);
        }
        assert(graph@.edges =~= base + seen.filter(wanted));
    }
    while i < n
        invariant
            n == countries@.len(),
            all == views(countries@),
            wanted == linked_pair(all, policy),
            i <= n,
            graph.wf(),
            graph@.nodes == nodes,
            nodes == old(graph)@.nodes,
            base == old(graph)@.edges,
            nodes.len() == n,
            seen == pairs(i as int, n as int),
            graph@.edges == base + seen.filter(wanted),
        decreases n - i,
    {
        let mut j: usize = i + 1;
        proof {
            assert(row(i as int, j as int) =~= Seq::<(int, int)>::empty());
            assert(seen =~= pairs(i as int, n as int) + row(i as int, j as int));
        }
        while j < n
            invariant
                n == countries@.len(),
                all == views(countries@),
                wanted == linked_pair(all, policy),
                i < n,
                i < j <= n,
                graph.wf(),
                graph@.nodes == nodes,
                nodes == old(graph)@.nodes,
                base == old(graph)@.edges,
                nodes.len() == n,
                seen == pairs(i as int, n as int) + row(i as int, j as int),
                graph@.edges == base + seen.filter(wanted),
            decreases n - j,
        {
            let linked: bool = countries[i].linked_by(policy, &countries[j]);
            proof {
                assert(all[i as int] == countries@[i as int]@);
                assert(all[j as int] == countries@[j as int]@);
                assert(linked == wanted((i as int, j as int)));
                seen.lemma_filter_push((i as int, j as int), wanted);
                assert(row(i as int, j as int).push((i as int, j as int)) =~= row(
                    i as int,
                    j + 1,
                ));
                assert(seen.push((i as int, j as int)) =~= pairs(i as int, n as int) + row(
                    i as int,
                    j + 1,
                ));
            }
            if linked {
                match graph.add_edge(i, j) {
                    Ok(_) => {
                        assert(graph@.edges =~= base + seen.push((i as int, j as int)).filter(
                            wanted,
                        ));
                    },
                    Err(_) => {
                        proof {
                            let so_far = seen.push((i as int, j as int));
                            lemma_pairs_so_far(i as int, j + 1, n as int);
                            so_far.lemma_filter_monotone(all_pairs(n as int), wanted);
                        }
                        return false;
                    },
                }
            }
            proof {
                seen = seen.push((i as int, j as int));
            }
            j += 1;
        }
        proof {
            assert(pairs(i + 1, n as int) == pairs(i as int, n as int) + row(i as int, n as int));
        }
        i += 1;
    }
    true
}

/// Builds the graph of the countries of `store`, where it fits.
///
/// The graph has one node for every country, in the order of the store. It
/// has one edge for every two countries of the same region, and after those
/// one edge for every two countries whose happiness scores are less than
/// one point apart; each edge runs from the smaller index to the larger.
/// The result is `None` exactly when that makes more nodes or more edges
/// than a graph can number.
pub fn try_build_graph(store: &CountryStore) -> (built: Option<CountryGraph>)
    requires
        store.wf(),
    ensures
        built is Some <==> fits_capacity(store@),
        built is Some ==> {
            &&& built->0.wf()
            &&& built->0@.nodes == store@
            &&& built->0@.edges == planned_edges(store@)
        },
{
    let countries = store.countries();
    let n: usize = countries.len();
    if n > CAPACITY {
        return None;
    }
    let mut graph = CountryGraph::new();
    let mut i: usize = 0;
    while i < n
        invariant
            n == countries@.len(),
            n <= CAPACITY,
            i <= n,
            graph.wf(),
            graph@.edges.len() == 0,
            graph@.nodes == views(countries@).take(i as int),
        decreases n - i,
    {
        match graph.add_node(countries[i].clone()) {
            Ok(_) => {},
            Err(_) => {
                return None;
            },
        }
        assert(graph@.nodes =~= views(countries@).take(i + 1));
        i += 1;
    }
    assert(graph@.nodes =~= store@);
    if !connect(&mut graph, countries, Policy::SameRegion) {
        return None;
    }
    assert(graph@.edges =~= policy_edges(store@, Policy::SameRegion));
    if !connect(&mut graph, countries, Policy::SimilarScore) {
        return None;
    }
    Some(graph)
}

/// Builds the graph of the countries of `store`.
///
/// The graph has one node for every country, in the order of the store. It
/// has one edge for every two countries of the same region, and after those
/// one edge for every two countries whose happiness scores are less than
/// one point apart; each edge runs from the smaller index to the larger.
/// The store must be one whose graph fits: [`try_build_graph`] builds the
/// same graph and tests that itself.
pub fn build_graph(store: &CountryStore) -> (graph: CountryGraph)
    requires
        store.wf(),
        fits_capacity(store@),
    ensures
        graph.wf(),
        graph@.nodes == store@,
        graph@.edges == planned_edges(store@),
{
    try_build_graph(store).unwrap()
}

} // verus!
