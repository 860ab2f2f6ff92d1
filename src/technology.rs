use vstd::prelude::*;

verus! {

/// The contents of a sequence of strings.
pub open spec fn views(v: Seq<String>) -> Seq<Seq<char>> {
    v.map_values(|x: String| x@)
}

/// The set of ids held by a vector of strings.
pub open spec fn id_set(v: Seq<String>) -> Set<Seq<char>> {
    Set::new(|k: Seq<char>| exists|i: int| 0 <= i < v.len() && #[trigger] v[i]@ == k)
}

/// No two entries of `s` hold the same id.
pub open spec fn distinct_ids(s: Seq<String>) -> bool {
    forall|a: int, b: int| 0 <= a < s.len() && 0 <= b < s.len() && a != b ==> #[trigger] s[a]@ != #[trigger] s[b]@
}

/// Whether `id` occurs in `v`, compared by content.
pub fn contains_id(v: &Vec<String>, id: &String) -> (r: bool)
    ensures
        r == id_set(v@).contains(id@),
{
    let mut i: usize = 0;
    while i < v.len()
        invariant
            i <= v.len(),
            forall|j: int| 0 <= j < i ==> v@[j]@ != id@,
        decreases v.len() - i,
    {
        if v[i] == *id {
            return true;
        }
        i = i + 1;
    }
    assert(!id_set(v@).contains(id@));
    false
}

/// Whether every id of `ps` occurs in `u`.
pub fn all_in(ps: &Vec<String>, u: &Vec<String>) -> (r: bool)
    ensures
        r == id_set(ps@).subset_of(id_set(u@)),
{
    let mut i: usize = 0;
    while i < ps.len()
        invariant
            i <= ps.len(),
            forall|j: int| 0 <= j < i ==> id_set(u@).contains(#[trigger] ps@[j]@),
        decreases ps.len() - i,
    {
        if !contains_id(u, &ps[i]) {
            assert(id_set(ps@).contains(ps@[i as int]@));
            return false;
        }
        i = i + 1;
    }
    assert forall|k: Seq<char>| #[trigger] id_set(ps@).contains(k) implies id_set(u@).contains(k) by {
        let j = choose|j: int| 0 <= j < ps.len() && #[trigger] ps@[j]@ == k;
    }
    true
}

/// Whether some id of `ps` occurs in `u`.
pub fn any_in(ps: &Vec<String>, u: &Vec<String>) -> (r: bool)
    ensures
        r == !id_set(ps@).intersect(id_set(u@)).is_empty(),
{
    let mut i: usize = 0;
    while i < ps.len()
        invariant
            i <= ps.len(),
            forall|j: int| 0 <= j < i ==> !id_set(u@).contains(#[trigger] ps@[j]@),
        decreases ps.len() - i,
    {
        if contains_id(u, &ps[i]) {
            assert(id_set(ps@).intersect(id_set(u@)).contains(ps@[i as int]@));
            return true;
        }
        i = i + 1;
    }
    assert(id_set(ps@).intersect(id_set(u@)) =~= Set::empty()) by {
        assert forall|k: Seq<char>| !(#[trigger] id_set(ps@).intersect(id_set(u@)).contains(k)) by {
            if id_set(ps@).contains(k) {
                let j = choose|j: int| 0 <= j < ps.len() && #[trigger] ps@[j]@ == k;
            }
        }
    }
    false
}

/// Whether a technology can be unlocked with `unlocked` possessed and `points` to spend:
/// all of its prerequisites are possessed (conjunctive) or at least one is (disjunctive),
/// and its cost is within the points.
pub open spec fn eligible(t: TechView, unlocked: Set<Seq<char>>, points: u32) -> bool {
    &&& if t.conjunctive {
        t.prereqs.subset_of(unlocked)
    } else {
        !t.prereqs.intersect(unlocked).is_empty()
    }
    &&& t.cost <= points
}

/// A prerequisite condition: all of the ids (`And`) or at least one of them (`Or`).
#[derive(Debug, Clone)]
pub enum Prerequisites {
    And(Vec<String>),
    Or(Vec<String>),
}

impl Prerequisites {
    pub open spec fn is_conjunctive(&self) -> bool {
        self is And
    }

    pub open spec fn ids(&self) -> Seq<String> {
        match self {
            Prerequisites::And(v) => v@,
            Prerequisites::Or(v) => v@,
        }
    }

    pub open spec fn id_set(&self) -> Set<Seq<char>> {
        id_set(self.ids())
    }

    pub fn list(&self) -> (r: &Vec<String>)
        ensures
            r@ == self.ids(),
    {
        match self {
            Prerequisites::And(v) => v,
            Prerequisites::Or(v) => v,
        }
    }
}

/// What a technology is, as plain values.
pub struct TechView {
    pub id: Seq<char>,
    pub name: Seq<char>,
    pub description: Seq<char>,
    pub conjunctive: bool,
    pub prereqs: Set<Seq<char>>,
    pub cost: u32,
}

/// A node of the dependency graph.
#[derive(Debug, Clone)]
pub struct Technology {
    pub id: String,
    pub name: String,
    pub description: String,
    pub prerequisites: Prerequisites,
    pub cost: u32,
}

impl Technology {
    pub open spec fn view(&self) -> TechView {
        TechView {
            id: self.id@,
            name: self.name@,
            description: self.description@,
            conjunctive: self.prerequisites.is_conjunctive(),
            prereqs: self.prerequisites.id_set(),
            cost: self.cost,
        }
    }

    /// Whether this technology lists `id` among its prerequisites, of either kind.
    pub fn depends_on(&self, id: &String) -> (r: bool)
        ensures
            r == self@.prereqs.contains(id@),
    {
        contains_id(self.prerequisites.list(), id)
    }

    pub fn eligible_for(&self, unlocked: &Vec<String>, points: u32) -> (r: bool)
        ensures
            r == eligible(self@, id_set(unlocked@), points),
    {
        let met = match &self.prerequisites {
            Prerequisites::And(ps) => all_in(ps, unlocked),
            Prerequisites::Or(ps) => any_in(ps, unlocked),
        };
        met && self.cost <= points
    }
}

} // verus!
