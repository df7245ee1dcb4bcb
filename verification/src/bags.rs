//! Bag-containment reachability.
//!
//! Bags are numbered, and each bag lists the bags that may directly
//! contain it. Starting from one bag, the traversal collects every bag
//! that can eventually contain it (the bag itself included), so that the
//! answer is one less than the size of the collected set.

use vstd::prelude::*;
use vstd::set_lib::lemma_len_subset;

verus! {

/// Every listed container is a bag of the graph.
pub open spec fn graph_wf(g: Seq<Seq<usize>>) -> bool {
    forall|i: int, j: int|
        0 <= i < g.len() && 0 <= j < g[i].len() ==> (#[trigger] g[i][j]) < g.len()
}

/// Whether `to` can be reached from `from` along at most `n` containment
/// edges.
pub open spec fn reaches(g: Seq<Seq<usize>>, from: int, to: int, n: nat) -> bool
    decreases n,
{
    if from == to {
        true
    } else if n == 0 {
        false
    } else {
        exists|k: int|
            0 <= k < g[from].len() && reaches(g, #[trigger] g[from][k] as int, to, (n - 1) as nat)
    }
}

/// A reached bag's containers are reached one step later.
pub proof fn lemma_reaches_extend(g: Seq<Seq<usize>>, from: int, to: int, n: nat, k: int)
    requires
        reaches(g, from, to, n),
        0 <= k < g[to].len(),
    ensures
        reaches(g, from, g[to][k] as int, (n + 1) as nat),
    decreases n,
{
    if from == to {
        if g[to][k] as int != from {
            assert(reaches(g, g[from][k] as int, g[to][k] as int, n));
        }
    } else {
        let j = choose|j: int|
            0 <= j < g[from].len() && reaches(g, #[trigger] g[from][j] as int, to, (n - 1) as nat);
        lemma_reaches_extend(g, g[from][j] as int, to, (n - 1) as nat, k);
        assert(reaches(g, g[from][j] as int, g[to][k] as int, n));
    }
}

/// A list of distinct numbers below `n` holds at most `n` of them.
pub proof fn lemma_distinct_bounded_len(s: Seq<usize>, n: nat)
    requires
        s.no_duplicates(),
        forall|i: int| 0 <= i < s.len() ==> (#[trigger] s[i]) < n,
    ensures
        s.len() <= n,
{
    broadcast use vstd::set_lib::group_set_lib_default, vstd::set::group_set_axioms;

    let t = s.map(|_i: int, x: usize| x as int);
    assert(t.no_duplicates());
    t.unique_seq_to_set();
    let range = vstd::set_lib::set_int_range(0, n as int);
    vstd::set_lib::lemma_int_range(0, n as int);
    assert forall|x: int| t.to_set().contains(x) implies range.contains(x) by {
        let i = choose|i: int| 0 <= i < t.len() && t[i] == x;
        assert(s[i] < n);
    }
    assert(t.to_set() <= range);
    lemma_len_subset(t.to_set(), range);
}

/// Membership in a list with one more element: the old list or the new
/// element.
pub broadcast proof fn lemma_push_contains(s: Seq<usize>, x: usize, a: usize)
    ensures
        #[trigger] s.push(x).contains(a) <==> (s.contains(a) || a == x),
{
    if s.push(x).contains(a) {
        let k = choose|k: int| 0 <= k < s.push(x).len() && (#[trigger] s.push(x)[k]) == a;
        if k < s.len() {
            assert(s[k] == a);
        }
    }
    if s.contains(a) {
        let k = choose|k: int| 0 <= k < s.len() && (#[trigger] s[k]) == a;
        assert(s.push(x)[k] == a);
    }
    if a == x {
        assert(s.push(x)[s.len() as int] == a);
    }
}

/// Appending a fresh element keeps a list distinct.
pub broadcast proof fn lemma_push_distinct(s: Seq<usize>, x: usize)
    requires
        s.no_duplicates(),
        !s.contains(x),
    ensures
        #[trigger] s.push(x).no_duplicates(),
{
    assert forall|i: int, j: int|
        0 <= i < s.push(x).len() && 0 <= j < s.push(x).len() && i != j implies s.push(x)[i]
        != s.push(x)[j] by {
        if i < s.len() && j < s.len() {
        } else if i < s.len() {
            assert(s.contains(s[i]));
        } else if j < s.len() {
            assert(s.contains(s[j]));
        }
    }
}

/// Whether a list of numbers holds the given one.
fn contains_idx(v: &Vec<usize>, x: usize) -> (r: bool)
    ensures
        r == v@.contains(x),
{
    let mut i: usize = 0;
    while i < v.len()
        invariant
            i <= v@.len(),
            forall|k: int| 0 <= k < i ==> v@[k] != x,
        decreases v@.len() - i,
    {
        if v[i] == x {
            proof {
                assert(v@[i as int] == x);
            }
            return true;
        }
        i = i + 1;
    }
    false
}

/// Whether some chain of containment edges leads from `from` to `v`.
pub open spec fn reachable(g: Seq<Seq<usize>>, from: int, v: usize) -> bool {
    exists|n: nat| reaches(g, from, v as int, n)
}

/// Collects the bags that can eventually contain `curr`, the bag itself
/// included: every collected bag is distinct and reachable from `curr`,
/// and the collection is closed under the containment edges.
pub fn traverse(curr: usize, bag_to_parents: &Vec<Vec<usize>>) -> (visited: Vec<usize>)
    requires
        graph_wf(bag_to_parents.deep_view()),
        curr < bag_to_parents.deep_view().len(),
    ensures
        visited@.no_duplicates(),
        visited@.contains(curr),
        forall|i: int|
            0 <= i < visited@.len() ==> (#[trigger] visited@[i]) < bag_to_parents.deep_view().len(),
        forall|i: int|
            0 <= i < visited@.len() ==> reachable(
                bag_to_parents.deep_view(),
                curr as int,
                #[trigger] visited@[i],
            ),
        forall|i: int, k: int|
            0 <= i < visited@.len() && 0 <= k < bag_to_parents.deep_view()[visited@[i] as int].len()
                ==> visited@.contains(
                #[trigger] (bag_to_parents.deep_view()[visited@[i] as int][k] as usize),
            ),
{
    let ghost g = bag_to_parents.deep_view();
    let ghost total = g.len() as nat;
    proof {
        assert forall|i: int| 0 <= i < bag_to_parents@.len() implies (#[trigger] bag_to_parents@[
            i
        ]@) == g[i] by {
            assert(bag_to_parents@[i].deep_view() =~= bag_to_parents@[i]@);
        }
    }
    let mut visited: Vec<usize> = Vec::new();
    let mut queue: Vec<usize> = Vec::new();
    visited.push(curr);
    queue.push(curr);
    proof {
        assert(visited@[0] == curr);
        assert(visited@.contains(curr));
        assert(reaches(g, curr as int, curr as int, 0nat));
        assert forall|i: int| 0 <= i < visited@.len() implies reachable(
            g,
            curr as int,
            #[trigger] visited@[i],
        ) by {
            assert(visited@[i] == curr);
        }
    }
    while queue.len() > 0
        invariant
            g == bag_to_parents.deep_view(),
            graph_wf(g),
            curr < g.len(),
            total == g.len(),
            forall|i: int|
                0 <= i < bag_to_parents@.len() ==> (#[trigger] bag_to_parents@[i]@) == g[i],
            visited@.no_duplicates(),
            queue@.no_duplicates(),
            visited@.contains(curr),
            forall|i: int| 0 <= i < queue@.len() ==> visited@.contains(#[trigger] queue@[i]),
            forall|i: int| 0 <= i < visited@.len() ==> (#[trigger] visited@[i]) < g.len(),
            forall|i: int|
                0 <= i < visited@.len() ==> reachable(g, curr as int, #[trigger] visited@[i]),
            forall|i: int, k: int|
                0 <= i < visited@.len() && 0 <= k < g[visited@[i] as int].len() && !queue@.contains(
                    visited@[i],
                ) ==> visited@.contains(#[trigger] (g[visited@[i] as int][k] as usize)),
        decreases (total + 1 - visited@.len()), queue@.len(),
    {
        proof {
            lemma_distinct_bounded_len(visited@, total);
        }
        let ghost queue_before = queue@;
        let bag = queue.pop().unwrap();
        let ghost queue_after_pop = queue@;
        let ghost visited_at_pop = visited@;
        proof {
            assert(queue_before =~= queue_after_pop.push(bag));
            lemma_push_contains(queue_after_pop, bag, bag);
            assert(queue_before.contains(bag));
            assert(visited@.contains(bag));
            assert(!queue_after_pop.contains(bag)) by {
                if queue_after_pop.contains(bag) {
                    let k = choose|k: int|
                        0 <= k < queue_after_pop.len() && (#[trigger] queue_after_pop[k]) == bag;
                    assert(queue_before[k] == bag);
                    assert(queue_before[queue_before.len() - 1] == bag);
                }
            }
            let i0 = choose|i: int| 0 <= i < visited@.len() && (#[trigger] visited@[i]) == bag;
            assert(reachable(g, curr as int, visited@[i0]));
            assert forall|i: int, k2: int|
                0 <= i < visited@.len() && 0 <= k2 < g[visited@[i] as int].len()
                    && !queue_after_pop.contains(visited@[i]) && visited@[i] != bag implies visited@.contains(
                #[trigger] (g[visited@[i] as int][k2] as usize),
            ) by {
                lemma_push_contains(queue_after_pop, bag, visited@[i]);
            }
        }
        let ghost n_bag = choose|n: nat| reaches(g, curr as int, bag as int, n);
        proof {
            assert(reaches(g, curr as int, bag as int, n_bag));
        }
        let parents = &bag_to_parents[bag];
        let mut k: usize = 0;
        while k < parents.len()
            invariant
                g == bag_to_parents.deep_view(),
                graph_wf(g),
                curr < g.len(),
                total == g.len(),
                forall|i: int|
                    0 <= i < bag_to_parents@.len() ==> (#[trigger] bag_to_parents@[i]@) == g[i],
                bag < g.len(),
                parents@ == g[bag as int],
                k <= parents@.len(),
                reaches(g, curr as int, bag as int, n_bag),
                visited@.no_duplicates(),
                queue@.no_duplicates(),
                visited@.contains(curr),
                visited@.contains(bag),
                !queue@.contains(bag),
                forall|i: int| 0 <= i < queue@.len() ==> visited@.contains(#[trigger] queue@[i]),
                forall|i: int| 0 <= i < visited@.len() ==> (#[trigger] visited@[i]) < g.len(),
                forall|i: int|
                    0 <= i < visited@.len() ==> reachable(g, curr as int, #[trigger] visited@[i]),
                forall|j: int|
                    0 <= j < k ==> visited@.contains(#[trigger] (g[bag as int][j] as usize)),
                forall|i: int, k2: int|
                    0 <= i < visited@.len() && 0 <= k2 < g[visited@[i] as int].len()
                        && !queue@.contains(visited@[i]) && visited@[i] != bag
                        ==> visited@.contains(#[trigger] (g[visited@[i] as int][k2] as usize)),
                visited_at_pop.len() <= visited@.len() <= total,
                visited@.len() - visited_at_pop.len() >= queue@.len() - queue_after_pop.len(),
                queue_after_pop.len() <= queue@.len(),
            decreases parents@.len() - k,
        {
            let parent = parents[k];
            proof {
                assert(parents@[k as int] == g[bag as int][k as int]);
                assert(parent < g.len());
            }
            if !contains_idx(&visited, parent) {
                proof {
                    lemma_reaches_extend(g, curr as int, bag as int, n_bag, k as int);
                    assert(reaches(g, curr as int, parent as int, (n_bag + 1) as nat));
                    assert(reachable(g, curr as int, parent));
                    lemma_push_distinct(visited@, parent);
                    lemma_distinct_bounded_len(visited@.push(parent), total);
                }
                let ghost visited_before = visited@;
                let ghost queue_b = queue@;
                visited.push(parent);
                queue.push(parent);
                proof {
                    assert(visited@ =~= visited_before.push(parent));
                    assert(queue@ =~= queue_b.push(parent));
                    assert(visited@[visited@.len() - 1] == parent);
                    assert(visited@.contains(parent)) by {
                        lemma_push_contains(visited_before, parent, parent);
                    }
                    assert(visited@.contains(curr)) by {
                        lemma_push_contains(visited_before, parent, curr);
                    }
                    assert(visited@.contains(bag)) by {
                        lemma_push_contains(visited_before, parent, bag);
                    }
                    lemma_push_distinct(queue_b, parent);
                    assert(!queue@.contains(bag)) by {
                        lemma_push_contains(queue_b, parent, bag);
                        assert(!visited_before.contains(parent));
                    }
                    assert forall|i: int| 0 <= i < queue@.len() implies visited@.contains(
                        #[trigger] queue@[i],
                    ) by {
                        lemma_push_contains(visited_before, parent, queue@[i]);
                        if i < queue_b.len() {
                            assert(queue_b[i] == queue@[i]);
                        } else {
                            assert(queue@[i] == parent);
                        }
                    }
                    assert forall|i: int| 0 <= i < visited@.len() implies reachable(
                        g,
                        curr as int,
                        #[trigger] visited@[i],
                    ) by {
                        if i < visited_before.len() {
                            assert(visited_before[i] == visited@[i]);
                        } else {
                            assert(visited@[i] == parent);
                        }
                    }
                    assert forall|j: int| 0 <= j < k + 1 implies visited@.contains(
                        #[trigger] (g[bag as int][j] as usize),
                    ) by {
                        lemma_push_contains(visited_before, parent, g[bag as int][j] as usize);
                        if j == k {
                            assert(g[bag as int][j] as usize == parent);
                        }
                    }
                    assert forall|i: int, k2: int|
                        0 <= i < visited@.len() && 0 <= k2 < g[visited@[i] as int].len()
                            && !queue@.contains(visited@[i]) && visited@[i] != bag implies visited@.contains(
                        #[trigger] (g[visited@[i] as int][k2] as usize),
                    ) by {
                        lemma_push_contains(queue_b, parent, visited@[i]);
                        lemma_push_contains(visited_before, parent, g[visited@[i] as int][k2] as usize);
                        if i < visited_before.len() {
                            assert(visited_before[i] == visited@[i]);
                        } else {
                            assert(visited@[i] == parent);
                            assert(queue@[queue@.len() - 1] == parent);
                            assert(queue@.contains(visited@[i]));
                        }
                    }
                }
            } else {
                proof {
                    assert forall|j: int| 0 <= j < k + 1 implies visited@.contains(
                        #[trigger] (g[bag as int][j] as usize),
                    ) by {
                        if j == k {
                            assert(g[bag as int][j] as usize == parent);
                        }
                    }
                }
            }
            k = k + 1;
        }
    }
    visited
}

} // verus!
