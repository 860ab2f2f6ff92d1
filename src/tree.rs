use vstd::prelude::*;
use crate::technology::{contains_id, distinct_ids, eligible, id_set, views, TechView, Technology};

verus! {

/// Whether the registry `m` holds `id` and it can be unlocked.
pub open spec fn unlockable(
    m: Map<Seq<char>, TechView>,
    id: Seq<char>,
    unlocked: Set<Seq<char>>,
    points: u32,
) -> bool {
    m.contains_key(id) && eligible(m[id], unlocked, points)
}

pub open spec fn unique_ids(s: Seq<Technology>) -> bool {
    forall|i: int, j: int|
        0 <= i < s.len() && 0 <= j < s.len() && i != j ==> #[trigger] s[i].id@ != #[trigger] s[j].id@
}

/// Whether some technology of `m` other than `id` lists `id` among its prerequisites.
pub open spec fn has_dependent(m: Map<Seq<char>, TechView>, id: Seq<char>) -> bool {
    exists|k: Seq<char>| #[trigger] m.contains_key(k) && k != id && m[k].prereqs.contains(id)
}

/// The message that names a technology and one that depends on it.
pub open spec fn dependency_message(id: Seq<char>, dependent: Seq<char>) -> Seq<char> {
    "Technology "@ + id + " is a prerequisite for "@ + dependent
}

/// The registry that a sequence of technologies with distinct ids stands for.
pub open spec fn registry_view(s: Seq<Technology>) -> Map<Seq<char>, TechView> {
    Map::new(
        |k: Seq<char>| exists|i: int| 0 <= i < s.len() && #[trigger] s[i].id@ == k,
        |k: Seq<char>| s[choose|i: int| 0 <= i < s.len() && #[trigger] s[i].id@ == k]@,
    )
}

pub(crate) proof fn lemma_registry_at(s: Seq<Technology>, i: int)
    requires
        unique_ids(s),
        0 <= i < s.len(),
    ensures
        registry_view(s).contains_key(s[i].id@),
        registry_view(s)[s[i].id@] == s[i]@,
{
    let k = s[i].id@;
    assert(registry_view(s).dom().contains(k));
    let j = choose|j: int| 0 <= j < s.len() && #[trigger] s[j].id@ == k;
    assert(j == i);
}

/// Appending a technology with a new id inserts it into the registry.
pub(crate) proof fn lemma_registry_push(s: Seq<Technology>, t: Technology)
    requires
        unique_ids(s.push(t)),
    ensures
        unique_ids(s),
        registry_view(s.push(t)) == registry_view(s).insert(t.id@, t@),
{
    let s2 = s.push(t);
    let m = registry_view(s).insert(t.id@, t@);
    assert forall|a: int, b: int| 0 <= a < s.len() && 0 <= b < s.len() && a != b
        implies #[trigger] s[a].id@ != #[trigger] s[b].id@ by {
        assert(s2[a] == s[a] && s2[b] == s[b]);
    }
    assert forall|k: Seq<char>| #[trigger] registry_view(s2).contains_key(k) <==> m.contains_key(k) by {
        if registry_view(s2).contains_key(k) && k != t.id@ {
            let j = choose|j: int| 0 <= j < s2.len() && #[trigger] s2[j].id@ == k;
            assert(s2[j] == s[j]);
        }
        if m.contains_key(k) && k != t.id@ {
            let j = choose|j: int| 0 <= j < s.len() && #[trigger] s[j].id@ == k;
            assert(s2[j] == s[j]);
        }
        if k == t.id@ {
            assert(s2[s.len() as int].id@ == k);
        }
    }
    assert forall|k: Seq<char>| #[trigger] registry_view(s2).contains_key(k) implies registry_view(s2)[k] == m[k] by {
        let j = choose|j: int| 0 <= j < s2.len() && #[trigger] s2[j].id@ == k;
        lemma_registry_at(s2, j);
        if k != t.id@ {
            assert(s2[j] == s[j]);
            lemma_registry_at(s, j);
        }
    }
    assert(registry_view(s2) =~= m);
}

/// Unlocking is idempotent: a technology that can be unlocked can still be unlocked once
/// it is possessed, and adding it to the possessed set a second time changes nothing.
pub proof fn lemma_unlock_idempotent(
    m: Map<Seq<char>, TechView>,
    id: Seq<char>,
    unlocked: Set<Seq<char>>,
    points: u32,
)
    requires
        unlockable(m, id, unlocked, points),
    ensures
        unlockable(m, id, unlocked.insert(id), points),
        unlocked.insert(id).insert(id) == unlocked.insert(id),
{
    let t = m[id];
    if !t.conjunctive {
        assert(exists|k: Seq<char>| t.prereqs.intersect(unlocked).contains(k)) by {
            if !(exists|k: Seq<char>| t.prereqs.intersect(unlocked).contains(k)) {
                assert(t.prereqs.intersect(unlocked) =~= Set::empty());
            }
        }
        let k = choose|k: Seq<char>| t.prereqs.intersect(unlocked).contains(k);
        assert(t.prereqs.intersect(unlocked.insert(id)).contains(k));
    }
    assert(unlocked.insert(id).insert(id) =~= unlocked.insert(id));
}

/// The registry: technologies keyed by id.
pub struct TechnologyTree {
    pub(crate) technologies: Vec<Technology>,
}

impl TechnologyTree {
    pub open(crate) spec fn entries(&self) -> Seq<Technology> {
        self.technologies@
    }

    /// Ids are unique, and no technology lists a prerequisite twice.
    pub open spec fn wf(&self) -> bool {
        &&& unique_ids(self.entries())
        &&& forall|i: int| 0 <= i < self.entries().len()
            ==> distinct_ids(#[trigger] self.entries()[i].prerequisites.ids())
    }

    pub open spec fn view(&self) -> Map<Seq<char>, TechView> {
        registry_view(self.entries())
    }

    /// The registered ids in registry order: insertion order, a replaced record keeping
    /// its place.
    pub open spec fn id_order(&self) -> Seq<Seq<char>> {
        self.entries().map_values(|t: Technology| t.id@)
    }

    pub(crate) proof fn lemma_view_at(&self, i: int)
        requires
            self.wf(),
            0 <= i < self.entries().len(),
        ensures
            self@.contains_key(self.entries()[i].id@),
            self@[self.entries()[i].id@] == self.entries()[i]@,
    {
        lemma_registry_at(self.entries(), i);
    }

    /// An empty registry.
    pub fn new() -> (r: Self)
        ensures
            r.wf(),
            r@ == Map::<Seq<char>, TechView>::empty(),
            r.entries() == Seq::<Technology>::empty(),
    {
        let r = TechnologyTree { technologies: Vec::new() };
        assert(r@ =~= Map::<Seq<char>, TechView>::empty());
        r
    }

    pub(crate) fn index_of(&self, id: &String) -> (r: Option<usize>)
        requires
            self.wf(),
        ensures
            match r {
                Some(i) => i < self.entries().len() && self.entries()[i as int].id@ == id@,
                None => !self@.contains_key(id@),
            },
    {
        let mut i: usize = 0;
        while i < self.technologies.len()
            invariant
                i <= self.entries().len(),
                forall|j: int| 0 <= j < i ==> self.entries()[j].id@ != id@,
            decreases self.entries().len() - i,
        {
            if self.technologies[i].id == *id {
                return Some(i);
            }
            i = i + 1;
        }
        None
    }

    /// Inserts `technology` under its id, replacing a record of the same id.
    pub fn add_technology(&mut self, technology: Technology)
        requires
            old(self).wf(),
            distinct_ids(technology.prerequisites.ids()),
        ensures
            final(self).wf(),
            final(self)@ == old(self)@.insert(technology.id@, technology@),
            old(self)@.contains_key(technology.id@) ==> exists|i: int|
                0 <= i < old(self).entries().len() && old(self).entries()[i].id@ == technology.id@
                    && final(self).entries() == old(self).entries().update(i, technology),
            !old(self)@.contains_key(technology.id@)
                ==> final(self).entries() == old(self).entries().push(technology),
    {
        let ghost t = technology;
        let idx = self.index_of(&technology.id);
        match idx {
            Some(i) => {
                self.technologies.set(i, technology);
            }
            None => {
                self.technologies.push(technology);
            }
        }
        let ghost m = old(self)@.insert(t.id@, t@);
        proof {
            if let Some(i) = idx {
                assert(old(self)@.contains_key(t.id@)) by {
                    old(self).lemma_view_at(i as int);
                }
                assert(self.entries() == old(self).entries().update(i as int, t));
            }
            assert forall|a: int| 0 <= a < self.entries().len()
                implies distinct_ids(#[trigger] self.entries()[a].prerequisites.ids()) by {
                if a < old(self).entries().len() && self.entries()[a] != t {
                    assert(self.entries()[a] == old(self).entries()[a]);
                }
            }
            assert forall|a: int, b: int|
                0 <= a < self.entries().len() && 0 <= b < self.entries().len() && a != b
                implies #[trigger] self.entries()[a].id@ != #[trigger] self.entries()[b].id@ by {
                if idx is None {
                    if a < old(self).entries().len() && b < old(self).entries().len() {
                        assert(old(self).entries()[a] == self.entries()[a]);
                    } else if a < old(self).entries().len() {
                        assert(old(self).entries()[a].id@ != t.id@) by {
                            if old(self).entries()[a].id@ == t.id@ {
                                assert(old(self)@.contains_key(t.id@));
                            }
                        }
                    } else {
                        assert(old(self).entries()[b].id@ != t.id@) by {
                            if old(self).entries()[b].id@ == t.id@ {
                                assert(old(self)@.contains_key(t.id@));
                            }
                        }
                    }
                }
            }
            assert forall|k: Seq<char>| #[trigger] self@.contains_key(k) <==> m.contains_key(k) by {
                if self@.contains_key(k) {
                    let j = choose|j: int| 0 <= j < self.entries().len() && #[trigger] self.entries()[j].id@ == k;
                    if k != t.id@ {
                        assert(old(self).entries()[j] == self.entries()[j]);
                        assert(old(self)@.contains_key(k));
                    }
                }
                if m.contains_key(k) && k != t.id@ {
                    let j = choose|j: int| 0 <= j < old(self).entries().len() && #[trigger] old(self).entries()[j].id@ == k;
                    assert(old(self).entries()[j] == self.entries()[j]);
                    assert(self@.contains_key(k));
                }
                if k == t.id@ {
                    let j: int = match idx { Some(i) => i as int, None => old(self).entries().len() as int };
                    assert(self.entries()[j].id@ == k);
                }
            }
            assert forall|k: Seq<char>| #[trigger] self@.contains_key(k) implies self@[k] == m[k] by {
                let j = choose|j: int| 0 <= j < self.entries().len() && #[trigger] self.entries()[j].id@ == k;
                self.lemma_view_at(j);
                if k != t.id@ {
                    assert(old(self).entries()[j] == self.entries()[j]);
                    old(self).lemma_view_at(j);
                }
            }
            assert(self@ =~= m);
        }
    }

    /// Removes technology `technology_id`, unless another technology depends on it.
    pub fn remove_technology(&mut self, technology_id: &str) -> (r: Result<(), String>)
        requires
            old(self).wf(),
        ensures
            final(self).wf(),
            r is Ok <==> !has_dependent(old(self)@, technology_id@),
            r is Ok ==> final(self)@ == old(self)@.remove(technology_id@),
            r is Ok ==> !final(self)@.contains_key(technology_id@),
            r is Ok && old(self)@.contains_key(technology_id@) ==> exists|i: int|
                0 <= i < old(self).entries().len() && old(self).entries()[i].id@ == technology_id@
                    && final(self).entries() == old(self).entries().remove(i),
            !(r is Ok && old(self)@.contains_key(technology_id@)) ==> final(self).entries() == old(self).entries(),
            r matches Err(e) ==> {
                &&& final(self)@ == old(self)@
                &&& exists|k: Seq<char>|
                    #[trigger] old(self)@.contains_key(k) && k != technology_id@
                        && old(self)@[k].prereqs.contains(technology_id@)
                        && e@ == dependency_message(technology_id@, k)
            },
    {
        let id = technology_id.to_string();
        let mut i: usize = 0;
        while i < self.technologies.len()
            invariant
                self.wf(),
                i <= self.entries().len(),
                id@ == technology_id@,
                forall|j: int| 0 <= j < i ==> #[trigger] self.entries()[j].id@ == id@
                    || !self.entries()[j]@.prereqs.contains(id@),
            decreases self.entries().len() - i,
        {
            let tech = &self.technologies[i];
            if tech.id != id && tech.depends_on(&id) {
                let mut msg = String::from_str("Technology ");
                msg.append(technology_id);
                msg.append(" is a prerequisite for ");
                msg.append(tech.id.as_str());
                proof {
                    reveal_strlit("Technology ");
                    reveal_strlit(" is a prerequisite for ");
                    self.lemma_view_at(i as int);
                    assert(msg@ =~= dependency_message(id@, tech.id@));
                }
                return Err(msg);
            }
            i = i + 1;
        }
        proof {
            assert forall|k: Seq<char>| #[trigger] self@.contains_key(k) && k != id@
                implies !self@[k].prereqs.contains(id@) by {
                let j = choose|j: int| 0 <= j < self.entries().len() && #[trigger] self.entries()[j].id@ == k;
                self.lemma_view_at(j);
            }
        }
        let idx = self.index_of(&id);
        if let Some(i) = idx {
            self.technologies.remove(i);
            proof {
                old(self).lemma_view_at(i as int);
                let s = old(self).entries();
                let m = old(self)@.remove(id@);
                assert forall|a: int| 0 <= a < self.entries().len() implies
                    #[trigger] self.entries()[a] == if a < i { s[a] } else { s[a + 1] } by {}
                assert(self.entries() == s.remove(i as int));
                assert forall|a: int| 0 <= a < self.entries().len()
                    implies distinct_ids(#[trigger] self.entries()[a].prerequisites.ids()) by {
                    let a2 = if a < i { a } else { a + 1 };
                    assert(self.entries()[a] == s[a2]);
                }
                assert forall|a: int, b: int|
                    0 <= a < self.entries().len() && 0 <= b < self.entries().len() && a != b
                    implies #[trigger] self.entries()[a].id@ != #[trigger] self.entries()[b].id@ by {
                    let a2 = if a < i { a } else { a + 1 };
                    let b2 = if b < i { b } else { b + 1 };
                    assert(s[a2].id@ != s[b2].id@);
                }
                assert forall|k: Seq<char>| #[trigger] self@.contains_key(k) <==> m.contains_key(k) by {
                    if self@.contains_key(k) {
                        let j = choose|j: int| 0 <= j < self.entries().len() && #[trigger] self.entries()[j].id@ == k;
                        let j2 = if j < i { j } else { j + 1 };
                        assert(s[j2].id@ == k);
                        assert(j2 != i);
                        assert(old(self)@.contains_key(k));
                    }
                    if m.contains_key(k) {
                        let j = choose|j: int| 0 <= j < s.len() && #[trigger] s[j].id@ == k;
                        assert(j != i);
                        let j2 = if j < i { j } else { j - 1 };
                        assert(self.entries()[j2].id@ == k);
                    }
                }
                assert forall|k: Seq<char>| #[trigger] self@.contains_key(k) implies self@[k] == m[k] by {
                    let j = choose|j: int| 0 <= j < self.entries().len() && #[trigger] self.entries()[j].id@ == k;
                    self.lemma_view_at(j);
                    let j2 = if j < i { j } else { j + 1 };
                    old(self).lemma_view_at(j2);
                }
                assert(self@ =~= m);
            }
        } else {
            assert(self@ =~= old(self)@.remove(id@));
        }
        Ok(())
    }

    /// Whether technology `tech_id` is registered and can be unlocked.
    pub fn is_unlockable(&self, tech_id: &str, unlocked: &Vec<String>, science_points: u32) -> (r: bool)
        requires
            self.wf(),
        ensures
            r == unlockable(self@, tech_id@, id_set(unlocked@), science_points),
    {
        let id = tech_id.to_string();
        match self.index_of(&id) {
            Some(i) => {
                proof {
                    self.lemma_view_at(i as int);
                }
                self.technologies[i].eligible_for(unlocked, science_points)
            },
            None => false,
        }
    }

    /// Adds `tech_id` to `unlocked` when it can be unlocked, and says whether it could.
    pub fn unlock_technology(&self, tech_id: &str, unlocked: &mut Vec<String>, science_points: u32) -> (r: bool)
        requires
            self.wf(),
        ensures
            r == unlockable(self@, tech_id@, id_set(old(unlocked)@), science_points),
            id_set(final(unlocked)@) == if r {
                id_set(old(unlocked)@).insert(tech_id@)
            } else {
                id_set(old(unlocked)@)
            },
            !r ==> final(unlocked)@ == old(unlocked)@,
    {
        if self.is_unlockable(tech_id, unlocked, science_points) {
            let id = tech_id.to_string();
            if !contains_id(unlocked, &id) {
                unlocked.push(id);
                proof {
                    assert forall|k: Seq<char>| #[trigger] id_set(final(unlocked)@).contains(k)
                        <==> id_set(old(unlocked)@).insert(tech_id@).contains(k) by {
                        if id_set(old(unlocked)@).contains(k) {
                            let j = choose|j: int| 0 <= j < old(unlocked)@.len() && #[trigger] old(unlocked)@[j]@ == k;
                            assert(unlocked@[j] == old(unlocked)@[j]);
                        }
                        if k == tech_id@ {
                            assert(unlocked@[unlocked@.len() - 1]@ == k);
                        }
                        if id_set(unlocked@).contains(k) && k != tech_id@ {
                            let j = choose|j: int| 0 <= j < unlocked@.len() && #[trigger] unlocked@[j]@ == k;
                            assert(unlocked@[j] == old(unlocked)@[j]);
                        }
                    }
                }
            }
            assert(id_set(unlocked@) =~= id_set(old(unlocked)@).insert(tech_id@));
            return true;
        }
        false
    }

    /// The ids of the technologies that can be unlocked now, each once, in registry order.
    pub fn get_unlockable_technologies(&self, unlocked: &Vec<String>, science_points: u32) -> (r: Vec<String>)
        requires
            self.wf(),
        ensures
            views(r@) == self.id_order().filter(|k: Seq<char>| unlockable(self@, k, id_set(unlocked@), science_points)),
            id_set(r@) == Set::new(|k: Seq<char>| unlockable(self@, k, id_set(unlocked@), science_points)),
            forall|a: int, b: int| 0 <= a < r@.len() && 0 <= b < r@.len() && a != b
                ==> #[trigger] r@[a]@ != #[trigger] r@[b]@,
    {
        let mut r: Vec<String> = Vec::new();
        let mut i: usize = 0;
        while i < self.technologies.len()
            invariant
                self.wf(),
                i <= self.entries().len(),
                r@.len() <= i,
                views(r@) == self.id_order().take(i as int).filter(
                    |k: Seq<char>| unlockable(self@, k, id_set(unlocked@), science_points)),
                forall|a: int| 0 <= a < r@.len()
                    ==> unlockable(self@, #[trigger] r@[a]@, id_set(unlocked@), science_points),
                forall|j: int| 0 <= j < i && eligible(self.entries()[j]@, id_set(unlocked@), science_points)
                    ==> id_set(r@).contains(#[trigger] self.entries()[j].id@),
                forall|a: int, b: int| 0 <= a < r@.len() && 0 <= b < r@.len() && a != b
                    ==> #[trigger] r@[a]@ != #[trigger] r@[b]@,
                forall|a: int, j: int| 0 <= a < r@.len() && i <= j < self.entries().len()
                    ==> #[trigger] r@[a]@ != #[trigger] self.entries()[j].id@,
            decreases self.entries().len() - i,
        {
            let tech = &self.technologies[i];
            let ghost pred = |k: Seq<char>| unlockable(self@, k, id_set(unlocked@), science_points);
            proof {
                self.lemma_view_at(i as int);
                reveal(Seq::filter);
                assert(self.id_order().take(i + 1).drop_last() =~= self.id_order().take(i as int));
                assert(self.id_order().take(i + 1).last() == tech.id@);
            }
            if tech.eligible_for(unlocked, science_points) {
                let ghost r0 = r@;
                r.push(tech.id.clone());
                proof {
                    assert(views(r@) =~= views(r0).push(tech.id@));
                    assert forall|a: int| 0 <= a < r@.len()
                        implies unlockable(self@, #[trigger] r@[a]@, id_set(unlocked@), science_points) by {
                        if a < r0.len() {
                            assert(r@[a] == r0[a]);
                        }
                    }
                    assert forall|j: int| 0 <= j < i + 1 && eligible(self.entries()[j]@, id_set(unlocked@), science_points)
                        implies id_set(r@).contains(#[trigger] self.entries()[j].id@) by {
                        if j < i {
                            let a = choose|a: int| 0 <= a < r0.len() && #[trigger] r0[a]@ == self.entries()[j].id@;
                            assert(r@[a] == r0[a]);
                        } else {
                            assert(r@[r@.len() - 1]@ == self.entries()[j].id@);
                        }
                    }
                    assert forall|a: int, j: int| 0 <= a < r@.len() && i + 1 <= j < self.entries().len()
                        implies #[trigger] r@[a]@ != #[trigger] self.entries()[j].id@ by {
                        if a < r0.len() {
                            assert(r@[a] == r0[a]);
                        }
                    }
                }
            }
            i = i + 1;
        }
        proof {
            assert(self.id_order().take(i as int) =~= self.id_order());
            let s = Set::new(|k: Seq<char>| unlockable(self@, k, id_set(unlocked@), science_points));
            assert forall|k: Seq<char>| #[trigger] id_set(r@).contains(k) <==> s.contains(k) by {
                if id_set(r@).contains(k) {
                    let a = choose|a: int| 0 <= a < r@.len() && #[trigger] r@[a]@ == k;
                }
                if s.contains(k) {
                    let j = choose|j: int| 0 <= j < self.entries().len() && #[trigger] self.entries()[j].id@ == k;
                    self.lemma_view_at(j);
                }
            }
            assert(id_set(r@) =~= s);
        }
        r
    }

    /// Whether a technology is registered under `id`.
    pub fn contains_technology(&self, id: &str) -> (r: bool)
        requires
            self.wf(),
        ensures
            r == self@.contains_key(id@),
    {
        let id = id.to_string();
        self.index_of(&id).is_some()
    }

    /// The technology registered under `id`.
    pub fn get_technology(&self, id: &str) -> (r: Option<&Technology>)
        requires
            self.wf(),
        ensures
            match r {
                Some(t) => self@.contains_key(id@) && self@[id@] == t@,
                None => !self@.contains_key(id@),
            },
    {
        let id = id.to_string();
        match self.index_of(&id) {
            Some(i) => {
                proof {
                    self.lemma_view_at(i as int);
                }
                Some(&self.technologies[i])
            },
            None => None,
        }
    }

    /// The registered ids, each once, in registry order.
    pub fn all_ids(&self) -> (r: Vec<String>)
        requires
            self.wf(),
        ensures
            views(r@) == self.id_order(),
            id_set(r@) == self@.dom(),
            r@.len() == self@.dom().len(),
    {
        let mut r: Vec<String> = Vec::new();
        let mut i: usize = 0;
        while i < self.technologies.len()
            invariant
                i <= self.entries().len(),
                r@.len() == i,
                forall|a: int| 0 <= a < i ==> #[trigger] r@[a]@ == self.entries()[a].id@,
            decreases self.entries().len() - i,
        {
            r.push(self.technologies[i].id.clone());
            i = i + 1;
        }
        proof {
            assert(views(r@) =~= self.id_order());
            assert(id_set(r@) =~= self@.dom()) by {
                assert forall|k: Seq<char>| #[trigger] id_set(r@).contains(k) implies self@.dom().contains(k) by {
                    let a = choose|a: int| 0 <= a < r@.len() && #[trigger] r@[a]@ == k;
                    assert(self.entries()[a].id@ == k);
                }
                assert forall|k: Seq<char>| #[trigger] self@.dom().contains(k) implies id_set(r@).contains(k) by {
                    let j = choose|j: int| 0 <= j < self.entries().len() && #[trigger] self.entries()[j].id@ == k;
                    assert(r@[j]@ == k);
                }
            }
            let f = |t: Technology| t.id@;
            assert(self@.dom() =~= self.entries().map_values(f).to_set()) by {
                assert forall|k: Seq<char>| #[trigger] self@.dom().contains(k) implies self.entries().map_values(f).to_set().contains(k) by {
                    let j = choose|j: int| 0 <= j < self.entries().len() && #[trigger] self.entries()[j].id@ == k;
                    assert(self.entries().map_values(f)[j] == k);
                }
                assert forall|k: Seq<char>| #[trigger] self.entries().map_values(f).to_set().contains(k) implies self@.dom().contains(k) by {
                    let j = choose|j: int| 0 <= j < self.entries().len() && self.entries().map_values(f)[j] == k;
                    assert(self.entries()[j].id@ == k);
                }
            }
            assert(self.entries().map_values(f).no_duplicates()) by {
                assert forall|a: int, b: int| 0 <= a < self.entries().len() && 0 <= b < self.entries().len() && a != b
                    implies self.entries().map_values(f)[a] != self.entries().map_values(f)[b] by {
                    assert(self.entries()[a].id@ != self.entries()[b].id@);
                }
            }
            self.entries().map_values(f).unique_seq_to_set();
        }
        r
    }
}

} // verus!
