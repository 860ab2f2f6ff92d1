use vstd::prelude::*;
use crate::technology::{contains_id, distinct_ids, id_set, TechView};
use crate::tree::{unlockable, TechnologyTree};

verus! {

/// Whether the path search explores `k`: registered, not possessed yet, and unlockable now.
pub open spec fn explorable(
    m: Map<Seq<char>, TechView>,
    unlocked: Set<Seq<char>>,
    points: u32,
    k: Seq<char>,
) -> bool {
    !unlocked.contains(k) && unlockable(m, k, unlocked, points)
}

/// Whether the path search reaches `target`: it is possessed, or it is explorable and
/// the search has some possessed technology to start from.
pub open spec fn reachable(
    m: Map<Seq<char>, TechView>,
    target: Seq<char>,
    unlocked: Set<Seq<char>>,
    points: u32,
) -> bool {
    unlocked.contains(target) || (!unlocked.is_empty() && explorable(m, unlocked, points, target))
}

/// How many entries of `s` are set.
pub open spec fn count_set(s: Seq<bool>) -> nat
    decreases s.len(),
{
    if s.len() == 0 {
        0
    } else {
        count_set(s.drop_last()) + if s.last() { 1nat } else { 0nat }
    }
}

proof fn lemma_count_bounds(s: Seq<bool>)
    ensures
        count_set(s) <= s.len(),
        count_set(s) == 0 ==> forall|i: int| 0 <= i < s.len() ==> !#[trigger] s[i],
    decreases s.len(),
{
    if s.len() > 0 {
        lemma_count_bounds(s.drop_last());
        if count_set(s) == 0 {
            assert forall|i: int| 0 <= i < s.len() implies !#[trigger] s[i] by {
                if i < s.len() - 1 {
                    assert(s[i] == s.drop_last()[i]);
                }
            }
        }
    }
}

proof fn lemma_count_set_one(s: Seq<bool>, i: int)
    requires
        0 <= i < s.len(),
        !s[i],
    ensures
        count_set(s.update(i, true)) == count_set(s) + 1,
    decreases s.len(),
{
    if i < s.len() - 1 {
        lemma_count_set_one(s.drop_last(), i);
        assert(s.update(i, true).drop_last() =~= s.drop_last().update(i, true));
    } else {
        assert(s.update(i, true).drop_last() =~= s.drop_last());
    }
}

proof fn lemma_count_all_false(n: nat)
    ensures
        count_set(Seq::new(n, |i: int| false)) == 0,
    decreases n,
{
    if n > 0 {
        lemma_count_all_false((n - 1) as nat);
        assert(Seq::new(n, |i: int| false).drop_last() =~= Seq::new((n - 1) as nat, |i: int| false));
    }
}

impl TechnologyTree {
    /// The ids of `unlocked`, each once.
    fn seed_ids(unlocked: &Vec<String>) -> (r: Vec<String>)
        ensures
            distinct_ids(r@),
            id_set(r@) == id_set(unlocked@),
    {
        let mut r: Vec<String> = Vec::new();
        let mut i: usize = 0;
        while i < unlocked.len()
            invariant
                i <= unlocked.len(),
                distinct_ids(r@),
                forall|a: int| 0 <= a < r@.len() ==> id_set(unlocked@).contains(#[trigger] r@[a]@),
                forall|j: int| 0 <= j < i ==> id_set(r@).contains(#[trigger] unlocked@[j]@),
            decreases unlocked.len() - i,
        {
            if !contains_id(&r, &unlocked[i]) {
                let ghost r0 = r@;
                r.push(unlocked[i].clone());
                proof {
                    assert forall|a: int| 0 <= a < r@.len() implies id_set(unlocked@).contains(#[trigger] r@[a]@) by {
                        if a < r0.len() {
                            assert(r@[a] == r0[a]);
                        }
                    }
                    assert forall|j: int| 0 <= j < i + 1 implies id_set(r@).contains(#[trigger] unlocked@[j]@) by {
                        if j < i {
                            let a = choose|a: int| 0 <= a < r0.len() && #[trigger] r0[a]@ == unlocked@[j]@;
                            assert(r@[a] == r0[a]);
                        } else {
                            assert(r@[r@.len() - 1]@ == unlocked@[j]@);
                        }
                    }
                    assert forall|a: int, b: int| 0 <= a < r@.len() && 0 <= b < r@.len() && a != b
                        implies #[trigger] r@[a]@ != #[trigger] r@[b]@ by {
                        if a < r0.len() && b < r0.len() {
                            assert(r@[a] == r0[a] && r@[b] == r0[b]);
                        } else if a < r0.len() {
                            assert(r@[a] == r0[a]);
                        } else if b < r0.len() {
                            assert(r@[b] == r0[b]);
                        }
                    }
                }
            }
            i = i + 1;
        }
        proof {
            assert forall|k: Seq<char>| #[trigger] id_set(r@).contains(k) <==> id_set(unlocked@).contains(k) by {
                if id_set(r@).contains(k) {
                    let a = choose|a: int| 0 <= a < r@.len() && #[trigger] r@[a]@ == k;
                }
                if id_set(unlocked@).contains(k) {
                    let j = choose|j: int| 0 <= j < unlocked@.len() && #[trigger] unlocked@[j]@ == k;
                }
            }
            assert(id_set(r@) =~= id_set(unlocked@));
        }
        r
    }

    /// The explorable ids, each once, with their costs.
    fn explorable_ids(&self, unlocked: &Vec<String>, science_points: u32) -> (r: (Vec<String>, Vec<u32>))
        requires
            self.wf(),
        ensures
            r.0@.len() == r.1@.len(),
            distinct_ids(r.0@),
            forall|a: int| 0 <= a < r.0@.len() ==> #[trigger] r.1@[a] == self@[r.0@[a]@].cost,
            forall|a: int| 0 <= a < r.0@.len()
                ==> explorable(self@, id_set(unlocked@), science_points, #[trigger] r.0@[a]@),
            forall|k: Seq<char>| explorable(self@, id_set(unlocked@), science_points, k)
                ==> #[trigger] id_set(r.0@).contains(k),
    {
        let mut ids: Vec<String> = Vec::new();
        let mut costs: Vec<u32> = Vec::new();
        let mut i: usize = 0;
        while i < self.technologies.len()
            invariant
                self.wf(),
                i <= self.entries().len(),
                ids@.len() == costs@.len(),
                distinct_ids(ids@),
                forall|a: int| 0 <= a < ids@.len() ==> #[trigger] costs@[a] == self@[ids@[a]@].cost,
                forall|a: int| 0 <= a < ids@.len()
                    ==> explorable(self@, id_set(unlocked@), science_points, #[trigger] ids@[a]@),
                forall|j: int| 0 <= j < i && explorable(self@, id_set(unlocked@), science_points, self.entries()[j].id@)
                    ==> id_set(ids@).contains(#[trigger] self.entries()[j].id@),
                forall|a: int, j: int| 0 <= a < ids@.len() && i <= j < self.entries().len()
                    ==> #[trigger] ids@[a]@ != #[trigger] self.entries()[j].id@,
            decreases self.entries().len() - i,
        {
            let tech = &self.technologies[i];
            proof {
                self.lemma_view_at(i as int);
            }
            if !contains_id(unlocked, &tech.id) && tech.eligible_for(unlocked, science_points) {
                let ghost r0 = ids@;
                let ghost c0 = costs@;
                ids.push(tech.id.clone());
                costs.push(tech.cost);
                proof {
                    assert forall|a: int| 0 <= a < ids@.len() implies #[trigger] costs@[a] == self@[ids@[a]@].cost by {
                        if a < r0.len() {
                            assert(ids@[a] == r0[a] && costs@[a] == c0[a]);
                        }
                    }
                    assert forall|a: int| 0 <= a < ids@.len()
                        implies explorable(self@, id_set(unlocked@), science_points, #[trigger] ids@[a]@) by {
                        if a < r0.len() {
                            assert(ids@[a] == r0[a]);
                        }
                    }
                    assert forall|j: int| 0 <= j < i + 1 && explorable(self@, id_set(unlocked@), science_points, self.entries()[j].id@)
                        implies id_set(ids@).contains(#[trigger] self.entries()[j].id@) by {
                        if j < i {
                            let a = choose|a: int| 0 <= a < r0.len() && #[trigger] r0[a]@ == self.entries()[j].id@;
                            assert(ids@[a] == r0[a]);
                        } else {
                            assert(ids@[ids@.len() - 1]@ == self.entries()[j].id@);
                        }
                    }
                    assert forall|a: int, j: int| 0 <= a < ids@.len() && i + 1 <= j < self.entries().len()
                        implies #[trigger] ids@[a]@ != #[trigger] self.entries()[j].id@ by {
                        if a < r0.len() {
                            assert(ids@[a] == r0[a]);
                        }
                    }
                    assert forall|a: int, b: int| 0 <= a < ids@.len() && 0 <= b < ids@.len() && a != b
                        implies #[trigger] ids@[a]@ != #[trigger] ids@[b]@ by {
                        if a < r0.len() {
                            assert(ids@[a] == r0[a]);
                        }
                        if b < r0.len() {
                            assert(ids@[b] == r0[b]);
                        }
                    }
                }
            }
            i = i + 1;
        }
        proof {
            assert forall|k: Seq<char>| explorable(self@, id_set(unlocked@), science_points, k)
                implies #[trigger] id_set(ids@).contains(k) by {
                let j = choose|j: int| 0 <= j < self.entries().len() && #[trigger] self.entries()[j].id@ == k;
            }
        }
        (ids, costs)
    }

    /// The index of a frontier entry of least accumulated cost, if the frontier is not empty.
    fn cheapest(in_frontier: &Vec<bool>, acc: &Vec<u64>) -> (r: Option<usize>)
        requires
            in_frontier@.len() == acc@.len(),
        ensures
            match r {
                Some(i) => i < in_frontier@.len() && in_frontier@[i as int] && forall|f: int|
                    0 <= f < in_frontier@.len() && #[trigger] in_frontier@[f] ==> acc@[i as int] <= acc@[f],
                None => forall|i: int| 0 <= i < in_frontier@.len() ==> !#[trigger] in_frontier@[i],
            },
    {
        let mut best: Option<usize> = None;
        let mut j: usize = 0;
        while j < in_frontier.len()
            invariant
                j <= in_frontier@.len(),
                in_frontier@.len() == acc@.len(),
                match best {
                    Some(i) => i < j && in_frontier@[i as int] && forall|f: int|
                        0 <= f < j && #[trigger] in_frontier@[f] ==> acc@[i as int] <= acc@[f],
                    None => forall|i: int| 0 <= i < j ==> !#[trigger] in_frontier@[i],
                },
            decreases in_frontier@.len() - j,
        {
            if in_frontier[j] {
                match best {
                    Some(b) => {
                        if acc[j] < acc[b] {
                            best = Some(j);
                        }
                    },
                    None => {
                        best = Some(j);
                    },
                }
            }
            j = j + 1;
        }
        best
    }

    /// Searches, cheapest first, from the possessed technologies through those that are
    /// unlockable now, and reports the chain of visited technologies that led to `target`:
    /// it starts at a possessed technology and leaves `target` out. Eligibility is judged
    /// once, on `unlocked` and `science_points` as given.
    #[verifier::loop_isolation(false)]
    pub fn get_technology_path(&self, target: &str, unlocked: &Vec<String>, science_points: u32) -> (r: Option<Vec<String>>)
        requires
            self.wf(),
        ensures
            r is Some <==> reachable(self@, target@, id_set(unlocked@), science_points),
            r matches Some(p) ==> {
                &&& id_set(unlocked@).contains(target@) ==> p@.len() == 0
                &&& !id_set(unlocked@).contains(target@) ==> p@.len() > 0 && id_set(unlocked@).contains(p@[0]@)
                &&& forall|a: int| 0 < a < p@.len()
                    ==> explorable(self@, id_set(unlocked@), science_points, #[trigger] p@[a]@)
                &&& forall|a: int| 0 <= a < p@.len() ==> #[trigger] p@[a]@ != target@
                &&& distinct_ids(p@)
                &&& !id_set(unlocked@).contains(target@) ==> {
                    &&& forall|a: int| 0 < a < p@.len() ==> self@[#[trigger] p@[a]@].cost <= self@[target@].cost
                    &&& forall|a: int, b: int| 0 < a < b < p@.len()
                        ==> self@[#[trigger] p@[a]@].cost <= self@[#[trigger] p@[b]@].cost
                    &&& forall|k: Seq<char>| explorable(self@, id_set(unlocked@), science_points, k)
                        && 0 < self@[k].cost < self@[target@].cost ==> #[trigger] id_set(p@).contains(k)
                }
            },
    {
        let ghost u = id_set(unlocked@);
        let target_id = target.to_string();
        let mut cand = Self::seed_ids(unlocked);
        let nseeds = cand.len();
        let (elig, elig_costs) = self.explorable_ids(unlocked, science_points);
        let mut cost: Vec<u32> = Vec::new();
        let mut i: usize = 0;
        while i < nseeds
            invariant
                i <= nseeds,
                cost@.len() == i,
            decreases nseeds - i,
        {
            cost.push(0);
            i = i + 1;
        }
        let mut i: usize = 0;
        while i < elig.len()
            invariant
                i <= elig@.len(),
                elig@.len() == elig_costs@.len(),
                nseeds <= cand@.len(),
                cand@.len() == nseeds + i,
                cost@.len() == cand@.len(),
                distinct_ids(cand@),
                distinct_ids(elig@),
                forall|a: int| 0 <= a < nseeds ==> u.contains(#[trigger] cand@[a]@),
                forall|a: int| nseeds <= a < cand@.len() ==> #[trigger] cand@[a]@ == elig@[a - nseeds]@,
                forall|a: int| nseeds <= a < cand@.len() ==> #[trigger] cost@[a] == elig_costs@[a - nseeds],
                forall|a: int| 0 <= a < elig@.len() ==> #[trigger] elig_costs@[a] == self@[elig@[a]@].cost,
                forall|a: int| 0 <= a < elig@.len()
                    ==> explorable(self@, u, science_points, #[trigger] elig@[a]@),
                forall|k: Seq<char>| u.contains(k) ==> exists|a: int| 0 <= a < nseeds && #[trigger] cand@[a]@ == k,
            decreases elig@.len() - i,
        {
            let ghost c0 = cand@;
            let ghost k0 = cost@;
            cand.push(elig[i].clone());
            cost.push(elig_costs[i]);
            proof {
                assert forall|a: int| nseeds <= a < cand@.len() implies #[trigger] cost@[a] == elig_costs@[a - nseeds] by {
                    if a < k0.len() {
                        assert(cost@[a] == k0[a]);
                    }
                }
                assert forall|a: int| 0 <= a < nseeds implies u.contains(#[trigger] cand@[a]@) by {
                    assert(cand@[a] == c0[a]);
                }
                assert forall|a: int| nseeds <= a < cand@.len() implies #[trigger] cand@[a]@ == elig@[a - nseeds]@ by {
                    if a < c0.len() {
                        assert(cand@[a] == c0[a]);
                    }
                }
                assert forall|k: Seq<char>| u.contains(k) implies exists|a: int| 0 <= a < nseeds && #[trigger] cand@[a]@ == k by {
                    let a = choose|a: int| 0 <= a < nseeds && #[trigger] c0[a]@ == k;
                    assert(cand@[a] == c0[a]);
                }
                assert forall|a: int, b: int| 0 <= a < cand@.len() && 0 <= b < cand@.len() && a != b
                    implies #[trigger] cand@[a]@ != #[trigger] cand@[b]@ by {
                    if a < c0.len() {
                        assert(cand@[a] == c0[a]);
                    }
                    if b < c0.len() {
                        assert(cand@[b] == c0[b]);
                    }
                    if a < nseeds && b >= nseeds {
                        assert(!u.contains(elig@[b - nseeds]@));
                    }
                    if b < nseeds && a >= nseeds {
                        assert(!u.contains(elig@[a - nseeds]@));
                    }
                    if a >= nseeds && b >= nseeds {
                        assert(elig@[a - nseeds]@ != elig@[b - nseeds]@);
                    }
                }
            }
            i = i + 1;
        }
        proof {
            assert forall|k: Seq<char>| explorable(self@, u, science_points, k)
                implies exists|a: int| nseeds <= a < cand@.len() && #[trigger] cand@[a]@ == k by {
                assert(id_set(elig@).contains(k));
                let b = choose|b: int| 0 <= b < elig@.len() && #[trigger] elig@[b]@ == k;
                assert(cand@[nseeds + b]@ == k);
            }
        }
        proof {
            assert forall|a: int| nseeds <= a < cand@.len() implies #[trigger] cost@[a] == self@[cand@[a]@].cost by {
                assert(cand@[a]@ == elig@[a - nseeds]@);
            }
        }
        let n = cand.len();
        let mut visited: Vec<bool> = Vec::new();
        let mut in_frontier: Vec<bool> = Vec::new();
        let mut acc: Vec<u64> = Vec::new();
        let mut i: usize = 0;
        while i < n
            invariant
                i <= n,
                visited@.len() == i,
                in_frontier@.len() == i,
                acc@.len() == i,
                forall|a: int| 0 <= a < i ==> !#[trigger] visited@[a],
                forall|a: int| 0 <= a < i ==> #[trigger] acc@[a] == 0,
                forall|a: int| 0 <= a < i ==> #[trigger] in_frontier@[a] == (a < nseeds),
            decreases n - i,
        {
            visited.push(false);
            in_frontier.push(i < nseeds);
            acc.push(0);
            i = i + 1;
        }
        proof {
            assert(visited@ =~= Seq::new(n as nat, |a: int| false));
            lemma_count_all_false(n as nat);
        }
        let mut order: Vec<usize> = Vec::new();
        let mut last_seed: usize = 0;
        loop
            invariant
                nseeds <= n,
                cand@.len() == n,
                cost@.len() == n,
                visited@.len() == n,
                in_frontier@.len() == n,
                acc@.len() == n,
                target_id@ == target@,
                distinct_ids(cand@),
                forall|a: int| 0 <= a < nseeds ==> u.contains(#[trigger] cand@[a]@),
                forall|a: int| nseeds <= a < n ==> explorable(self@, u, science_points, #[trigger] cand@[a]@),
                forall|k: Seq<char>| u.contains(k) ==> exists|a: int| 0 <= a < nseeds && #[trigger] cand@[a]@ == k,
                forall|k: Seq<char>| explorable(self@, u, science_points, k)
                    ==> exists|a: int| nseeds <= a < n && #[trigger] cand@[a]@ == k,
                forall|a: int| 0 <= a < n ==> !(#[trigger] visited@[a] && in_frontier@[a]),
                forall|a: int| 0 <= a < nseeds ==> #[trigger] visited@[a] || in_frontier@[a],
                order@.len() == count_set(visited@),
                order@.len() > 0 ==> forall|a: int| nseeds <= a < n ==> #[trigger] visited@[a] || in_frontier@[a],
                order@.len() == 0 ==> forall|a: int| nseeds <= a < n ==> !#[trigger] in_frontier@[a],
                forall|k: int| 0 <= k < order@.len() ==> #[trigger] order@[k] < n && visited@[order@[k] as int],
                forall|k1: int, k2: int| 0 <= k1 < order@.len() && 0 <= k2 < order@.len() && k1 != k2
                    ==> #[trigger] order@[k1] != #[trigger] order@[k2],
                order@.len() > 0 ==> last_seed < order@.len() && order@[last_seed as int] < nseeds,
                forall|k: int| last_seed < k < order@.len() ==> #[trigger] order@[k] >= nseeds,
                forall|a: int| 0 <= a < n && #[trigger] visited@[a] ==> cand@[a]@ != target@,
                forall|a: int| 0 <= a < n ==> #[trigger] acc@[a] <= u32::MAX,
                forall|a: int| 0 <= a < nseeds ==> #[trigger] acc@[a] == 0,
                forall|a: int| nseeds <= a < n && (#[trigger] in_frontier@[a] || visited@[a]) ==> acc@[a] == cost@[a],
                forall|a: int| nseeds <= a < n ==> #[trigger] cost@[a] == self@[cand@[a]@].cost,
                forall|k: int, f: int| 0 <= k < order@.len() && 0 <= f < n && #[trigger] in_frontier@[f]
                    ==> #[trigger] acc@[order@[k] as int] <= acc@[f],
                forall|k1: int, k2: int| 0 <= k1 < k2 < order@.len()
                    ==> #[trigger] acc@[order@[k1] as int] <= #[trigger] acc@[order@[k2] as int],
                forall|a: int| 0 <= a < n && #[trigger] visited@[a] ==> exists|q: int| 0 <= q < order@.len() && order@[q] == a,
            decreases n - order@.len(),
        {
            proof {
                lemma_count_bounds(visited@);
            }
            let next = Self::cheapest(&in_frontier, &acc);
            let i = match next {
                Some(i) => i,
                None => {
                    proof {
                        if u.contains(target@) {
                            let a = choose|a: int| 0 <= a < nseeds && #[trigger] cand@[a]@ == target@;
                            assert(visited@[a] || in_frontier@[a]);
                        }
                        if !u.is_empty() {
                            assert(exists|k: Seq<char>| u.contains(k)) by {
                                if !(exists|k: Seq<char>| u.contains(k)) {
                                    assert(u =~= Set::empty());
                                }
                            }
                            let k = choose|k: Seq<char>| u.contains(k);
                            let a = choose|a: int| 0 <= a < nseeds && #[trigger] cand@[a]@ == k;
                            assert(visited@[a] || in_frontier@[a]);
                            assert(order@.len() > 0);
                            if explorable(self@, u, science_points, target@) {
                                let b = choose|b: int| nseeds <= b < n && #[trigger] cand@[b]@ == target@;
                                assert(visited@[b] || in_frontier@[b]);
                            }
                        }
                    }
                    return None;
                },
            };
            if cand[i] == target_id {
                if i < nseeds {
                    proof {
                        assert(u.contains(cand@[i as int]@));
                    }
                    return Some(Vec::new());
                }
                let mut p: Vec<String> = Vec::new();
                let mut k: usize = last_seed;
                while k < order.len()
                    invariant
                        last_seed <= k <= order@.len(),
                        p@.len() == k - last_seed,
                        cand@.len() == n,
                        forall|q: int| 0 <= q < order@.len() ==> #[trigger] order@[q] < n,
                        forall|a: int| 0 <= a < p@.len() ==> #[trigger] p@[a]@ == cand@[order@[last_seed + a] as int]@,
                    decreases order@.len() - k,
                {
                    let ghost p0 = p@;
                    p.push(cand[order[k]].clone());
                    proof {
                        assert forall|a: int| 0 <= a < p@.len() implies #[trigger] p@[a]@ == cand@[order@[last_seed + a] as int]@ by {
                            if a < p0.len() {
                                assert(p@[a] == p0[a]);
                            }
                        }
                    }
                    k = k + 1;
                }
                proof {
                    assert(order@.len() > 0);
                    assert(!u.contains(target@)) by {
                        assert(explorable(self@, u, science_points, cand@[i as int]@));
                    }
                    assert(u.contains(p@[0]@));
                    assert(!u.is_empty());
                    assert forall|a: int| 0 < a < p@.len()
                        implies explorable(self@, u, science_points, #[trigger] p@[a]@) by {
                        assert(order@[last_seed + a] >= nseeds);
                    }
                    assert forall|a: int| 0 <= a < p@.len() implies #[trigger] p@[a]@ != target@ by {
                        assert(visited@[order@[last_seed + a] as int]);
                    }
                    assert forall|a: int, b: int| 0 <= a < p@.len() && 0 <= b < p@.len() && a != b
                        implies #[trigger] p@[a]@ != #[trigger] p@[b]@ by {
                        assert(order@[last_seed + a] != order@[last_seed + b]);
                    }
                    let ct = self@[target@].cost;
                    assert(acc@[i as int] == ct);
                    assert forall|a: int| 0 < a < p@.len() implies self@[#[trigger] p@[a]@].cost == acc@[order@[last_seed + a] as int] by {
                        let o = order@[last_seed + a] as int;
                        assert(o >= nseeds && visited@[o]);
                    }
                    assert forall|a: int| 0 < a < p@.len() implies self@[#[trigger] p@[a]@].cost <= ct by {
                        assert(acc@[order@[last_seed + a] as int] <= acc@[i as int]);
                    }
                    assert forall|a: int, b: int| 0 < a < b < p@.len()
                        implies self@[#[trigger] p@[a]@].cost <= self@[#[trigger] p@[b]@].cost by {
                        assert(acc@[order@[last_seed + a] as int] <= acc@[order@[last_seed + b] as int]);
                    }
                    assert forall|k: Seq<char>| explorable(self@, u, science_points, k)
                        && 0 < self@[k].cost < ct implies #[trigger] id_set(p@).contains(k) by {
                        let b = choose|b: int| nseeds <= b < n && #[trigger] cand@[b]@ == k;
                        assert(visited@[b] || in_frontier@[b]);
                        if in_frontier@[b] {
                            assert(acc@[i as int] <= acc@[b]);
                        }
                        assert(visited@[b]);
                        let q = choose|q: int| 0 <= q < order@.len() && order@[q] == b;
                        if q < last_seed {
                            assert(acc@[order@[q] as int] <= acc@[order@[last_seed as int] as int]);
                        }
                        assert(q > last_seed);
                        assert(p@[q - last_seed]@ == k);
                    }
                }
                return Some(p);
            }
            let ghost v0 = visited@;
            let ghost f0 = in_frontier@;
            let ghost first = order@.len() == 0;
            proof {
                if first {
                    assert(i < nseeds);
                }
            }
            in_frontier.set(i, false);
            visited.set(i, true);
            proof {
                lemma_count_set_one(v0, i as int);
                assert(visited@ == v0.update(i as int, true));
                lemma_count_bounds(visited@);
            }
            if i < nseeds {
                last_seed = order.len();
            }
            let ghost o0 = order@;
            order.push(i);
            proof {
                assert forall|a: int| 0 <= a < n && #[trigger] visited@[a] implies exists|q: int| 0 <= q < order@.len() && order@[q] == a by {
                    if a == i {
                        assert(order@[o0.len() as int] == a);
                    } else {
                        assert(v0[a]);
                        let q = choose|q: int| 0 <= q < o0.len() && o0[q] == a;
                        assert(order@[q] == a);
                    }
                }
                assert forall|k: int| 0 <= k < order@.len() implies #[trigger] order@[k] < n && visited@[order@[k] as int] by {
                    if k < o0.len() {
                        assert(order@[k] == o0[k]);
                    }
                }
                assert forall|k1: int, k2: int| 0 <= k1 < order@.len() && 0 <= k2 < order@.len() && k1 != k2
                    implies #[trigger] order@[k1] != #[trigger] order@[k2] by {
                    if k1 < o0.len() {
                        assert(order@[k1] == o0[k1]);
                    }
                    if k2 < o0.len() {
                        assert(order@[k2] == o0[k2]);
                    }
                }
                assert forall|k: int| last_seed < k < order@.len() implies #[trigger] order@[k] >= nseeds by {
                    if k < o0.len() {
                        assert(order@[k] == o0[k]);
                    }
                }
            }
            let base = acc[i];
            let ghost a0 = acc@;
            let mut j: usize = nseeds;
            while j < n
                invariant
                    base == a0[i as int],
                    base <= u32::MAX,
                    first ==> base == 0,
                    !first ==> forall|a: int| nseeds <= a < n ==> #[trigger] visited@[a] || in_frontier@[a],
                    forall|a: int| 0 <= a < n ==> #[trigger] acc@[a] <= u32::MAX,
                    forall|a: int| 0 <= a < nseeds ==> #[trigger] acc@[a] == 0,
                    forall|a: int| nseeds <= a < n && (#[trigger] in_frontier@[a] || visited@[a]) ==> acc@[a] == cost@[a],
                    forall|a: int| 0 <= a < n && #[trigger] visited@[a] ==> acc@[a] == a0[a],
                    forall|f: int| 0 <= f < n && #[trigger] in_frontier@[f] ==> base <= acc@[f],
                    nseeds <= j <= n,
                    i < n,
                    cost@.len() == n,
                    visited@.len() == n,
                    in_frontier@.len() == n,
                    acc@.len() == n,
                    visited@[i as int],
                    forall|a: int| 0 <= a < n ==> !(#[trigger] visited@[a] && in_frontier@[a]),
                    forall|a: int| 0 <= a < nseeds ==> #[trigger] visited@[a] || in_frontier@[a],
                    forall|a: int| nseeds <= a < j ==> #[trigger] visited@[a] || in_frontier@[a],
                decreases n - j,
            {
                if !visited[j] {
                    let reach = base + cost[j] as u64;
                    if in_frontier[j] {
                        if reach < acc[j] {
                            acc.set(j, reach);
                        }
                    } else {
                        in_frontier.set(j, true);
                        acc.set(j, reach);
                    }
                }
                j = j + 1;
            }
            proof {
                assert forall|k: int, f: int| 0 <= k < order@.len() && 0 <= f < n && #[trigger] in_frontier@[f]
                    implies #[trigger] acc@[order@[k] as int] <= acc@[f] by {
                    if k < o0.len() {
                        assert(order@[k] == o0[k]);
                        assert(f0[i as int]);
                        assert(a0[o0[k] as int] <= a0[i as int]);
                    }
                }
                assert forall|k1: int, k2: int| 0 <= k1 < k2 < order@.len()
                    implies #[trigger] acc@[order@[k1] as int] <= #[trigger] acc@[order@[k2] as int] by {
                    assert(order@[k1] == o0[k1]);
                    if k2 < o0.len() {
                        assert(order@[k2] == o0[k2]);
                    } else {
                        assert(f0[i as int]);
                        assert(a0[o0[k1] as int] <= a0[i as int]);
                    }
                }
            }
        }
    }
}

} // verus!
