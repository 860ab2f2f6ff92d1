use vstd::prelude::*;
use crate::codec::{decimal, decimal_text};
use crate::technology::{all_in, any_in, contains_id, eligible, id_set, views, Prerequisites, TechView, Technology};
use crate::tree::TechnologyTree;

verus! {

/// The outline line that shows technology `t` at `indent` spaces.
pub open spec fn outline_line(indent: nat, t: TechView) -> Seq<char> {
    Seq::new(indent, |i: int| ' ') + seq!['-', ' '] + t.name + seq![' ', '(', 'C', 'o', 's', 't', ':', ' ']
        + decimal(t.cost as nat) + seq![')']
}

/// The indentation one level deeper than `indent`, at most `usize::MAX`.
pub open spec fn deeper(indent: nat) -> nat {
    if indent + 4 <= usize::MAX { indent + 4 } else { usize::MAX as nat }
}

/// Whether `t` starts a branch of the outline: it has no prerequisites, or they are met
/// by `unlocked` (all of them, or at least one, by kind).
pub open spec fn is_root(t: TechView, unlocked: Set<Seq<char>>) -> bool {
    t.prereqs.is_empty() || if t.conjunctive {
        t.prereqs.subset_of(unlocked)
    } else {
        !t.prereqs.intersect(unlocked).is_empty()
    }
}

/// The lines of the branch under technology `id` of registry `m`, whose records in
/// registry order are `s`: its own line, then, four spaces deeper, the branches of the
/// technologies that list it as a prerequisite and can be unlocked once it is possessed.
/// Branches stop after `depth` more levels.
pub open spec fn branch(
    m: Map<Seq<char>, TechView>,
    s: Seq<TechView>,
    id: Seq<char>,
    unlocked: Set<Seq<char>>,
    indent: nat,
    depth: nat,
) -> Seq<Seq<char>>
    decreases depth, s.len() + 1,
{
    if !m.contains_key(id) {
        Seq::empty()
    } else {
        seq![outline_line(indent, m[id])] + children(m, s, id, unlocked.insert(id), deeper(indent), depth, 0)
    }
}

/// The branches under `id` of the records `s[j..]`.
pub open spec fn children(
    m: Map<Seq<char>, TechView>,
    s: Seq<TechView>,
    id: Seq<char>,
    unlocked: Set<Seq<char>>,
    indent: nat,
    depth: nat,
    j: nat,
) -> Seq<Seq<char>>
    decreases depth, s.len() - j,
{
    if j >= s.len() {
        Seq::empty()
    } else {
        (if depth > 0 && s[j as int].prereqs.contains(id) && eligible(s[j as int], unlocked, u32::MAX) {
            branch(m, s, s[j as int].id, unlocked, indent, (depth - 1) as nat)
        } else {
            Seq::empty()
        }) + children(m, s, id, unlocked, indent, depth, j + 1)
    }
}

/// The branches of the roots among the records `s[j..]`.
pub open spec fn roots(
    m: Map<Seq<char>, TechView>,
    s: Seq<TechView>,
    unlocked: Set<Seq<char>>,
    indent: nat,
    depth: nat,
    j: nat,
) -> Seq<Seq<char>>
    decreases s.len() - j,
{
    if j >= s.len() {
        Seq::empty()
    } else {
        (if is_root(s[j as int], unlocked) {
            branch(m, s, s[j as int].id, unlocked, indent, depth)
        } else {
            Seq::empty()
        }) + roots(m, s, unlocked, indent, depth, j + 1)
    }
}

fn line_text(indent: usize, t: &Technology) -> (r: String)
    ensures
        r@ == outline_line(indent as nat, t@),
{
    proof {
        reveal_strlit(" ");
        reveal_strlit("- ");
        reveal_strlit(" (Cost: ");
        reveal_strlit(")");
    }
    let mut r = String::new();
    let mut i: usize = 0;
    while i < indent
        invariant
            i <= indent,
            r@ == Seq::new(i as nat, |j: int| ' '),
        decreases indent - i,
    {
        proof {
            reveal_strlit(" ");
        }
        r.append(" ");
        i = i + 1;
        assert(r@ =~= Seq::new(i as nat, |j: int| ' '));
    }
    r.append("- ");
    r.append(t.name.as_str());
    r.append(" (Cost: ");
    let c = decimal_text(t.cost);
    r.append(c.as_str());
    r.append(")");
    assert(r@ =~= outline_line(indent as nat, t@));
    r
}

/// `v` without any entry equal to `id`.
fn remove_id(v: &mut Vec<String>, id: &String)
    ensures
        id_set(final(v)@) == id_set(old(v)@).remove(id@),
{
    let ghost s0 = id_set(v@);
    let mut i: usize = 0;
    while i < v.len()
        invariant
            i <= v@.len(),
            forall|j: int| 0 <= j < i ==> #[trigger] v@[j]@ != id@,
            id_set(v@).remove(id@) == s0.remove(id@),
        decreases v@.len() - i,
    {
        if v[i] == *id {
            let ghost v0 = v@;
            v.remove(i);
            proof {
                assert(id_set(v@).remove(id@) =~= id_set(v0).remove(id@)) by {
                    assert forall|k: Seq<char>| #[trigger] id_set(v0).remove(id@).contains(k)
                        implies id_set(v@).remove(id@).contains(k) by {
                        let j = choose|j: int| 0 <= j < v0.len() && #[trigger] v0[j]@ == k;
                        if j < i {
                            assert(v@[j] == v0[j]);
                        } else {
                            assert(j != i);
                            assert(v@[j - 1] == v0[j]);
                        }
                    }
                    assert forall|k: Seq<char>| #[trigger] id_set(v@).remove(id@).contains(k)
                        implies id_set(v0).remove(id@).contains(k) by {
                        let j = choose|j: int| 0 <= j < v@.len() && #[trigger] v@[j]@ == k;
                        if j < i {
                            assert(v@[j] == v0[j]);
                        } else {
                            assert(v@[j] == v0[j + 1]);
                        }
                    }
                }
            }
        } else {
            i = i + 1;
        }
    }
    proof {
        assert(id_set(v@).remove(id@) =~= id_set(v@)) by {
            assert forall|k: Seq<char>| #[trigger] id_set(v@).contains(k) implies k != id@ by {
                let j = choose|j: int| 0 <= j < v@.len() && #[trigger] v@[j]@ == k;
            }
        }
    }
}

impl TechnologyTree {
    /// The records in registry order.
    pub open spec fn records(&self) -> Seq<TechView> {
        self.entries().map_values(|t: Technology| t@)
    }

    /// The whole outline: the branches of the roots, in registry order, each as deep as
    /// the registry has technologies.
    pub open spec fn outline(&self, unlocked: Set<Seq<char>>, indent: nat) -> Seq<Seq<char>> {
        roots(self@, self.records(), unlocked, indent, self.records().len(), 0)
    }

    fn starts_branch(t: &Technology, unlocked: &Vec<String>) -> (r: bool)
        ensures
            r == is_root(t@, id_set(unlocked@)),
    {
        let ps = t.prerequisites.list();
        if ps.len() == 0 {
            assert(t@.prereqs =~= Set::empty());
            return true;
        }
        assert(t@.prereqs.contains(ps@[0]@));
        match &t.prerequisites {
            Prerequisites::And(ps) => all_in(ps, unlocked),
            Prerequisites::Or(ps) => any_in(ps, unlocked),
        }
    }

    fn branch_lines(
        &self,
        tech_id: &String,
        unlocked: &mut Vec<String>,
        indent: usize,
        depth: usize,
        out: &mut Vec<String>,
    )
        requires
            self.wf(),
        ensures
            id_set(final(unlocked)@) == id_set(old(unlocked)@),
            views(final(out)@) == views(old(out)@) + branch(
                self@, self.records(), tech_id@, id_set(old(unlocked)@), indent as nat, depth as nat),
        decreases depth,
    {
        let ghost u0 = id_set(unlocked@);
        let ghost o0 = views(out@);
        let ghost s = self.records();
        match self.index_of(tech_id) {
            Some(i) => {
                let t = &self.technologies[i];
                proof {
                    self.lemma_view_at(i as int);
                }
                let line = line_text(indent, t);
                out.push(line);
                let ghost o1 = views(out@);
                proof {
                    assert(o1 =~= o0 + seq![outline_line(indent as nat, self@[tech_id@])]);
                }
                let added = !contains_id(unlocked, tech_id);
                if added {
                    unlocked.push(tech_id.clone());
                    proof {
                        assert forall|k: Seq<char>| #[trigger] id_set(unlocked@).contains(k)
                            <==> u0.insert(tech_id@).contains(k) by {
                            if id_set(unlocked@).contains(k) {
                                let j = choose|j: int| 0 <= j < unlocked@.len() && #[trigger] unlocked@[j]@ == k;
                                if j < unlocked@.len() - 1 {
                                    assert(unlocked@[j] == old(unlocked)@[j]);
                                }
                            }
                            if u0.contains(k) {
                                let j = choose|j: int| 0 <= j < old(unlocked)@.len() && #[trigger] old(unlocked)@[j]@ == k;
                                assert(unlocked@[j] == old(unlocked)@[j]);
                            }
                            if k == tech_id@ {
                                assert(unlocked@[unlocked@.len() - 1]@ == k);
                            }
                        }
                    }
                }
                let ghost u1 = u0.insert(tech_id@);
                proof {
                    assert(id_set(unlocked@) =~= u1);
                }
                let child_indent = indent.saturating_add(4);
                let mut j: usize = 0;
                while j < self.technologies.len()
                    invariant
                        self.wf(),
                        s == self.records(),
                        j <= self.entries().len(),
                        id_set(unlocked@) == u1,
                        child_indent as nat == deeper(indent as nat),
                        views(out@) + children(self@, s, tech_id@, u1, child_indent as nat, depth as nat, j as nat)
                            == o1 + children(self@, s, tech_id@, u1, child_indent as nat, depth as nat, 0),
                    decreases self.entries().len() - j,
                {
                    let child = &self.technologies[j];
                    let ghost before = views(out@);
                    proof {
                        assert(s[j as int] == child@);
                    }
                    if depth > 0 && child.depends_on(tech_id) && child.eligible_for(unlocked, u32::MAX) {
                        let child_id = child.id.clone();
                        self.branch_lines(&child_id, unlocked, child_indent, depth - 1, out);
                    }
                    proof {
                        let piece = if depth > 0 && s[j as int].prereqs.contains(tech_id@)
                            && eligible(s[j as int], u1, u32::MAX) {
                            branch(self@, s, s[j as int].id, u1, child_indent as nat, (depth - 1) as nat)
                        } else {
                            Seq::empty()
                        };
                        assert(views(out@) =~= before + piece);
                        assert(children(self@, s, tech_id@, u1, child_indent as nat, depth as nat, j as nat)
                            == piece + children(self@, s, tech_id@, u1, child_indent as nat, depth as nat, (j + 1) as nat));
                        assert(views(out@) + children(self@, s, tech_id@, u1, child_indent as nat, depth as nat, (j + 1) as nat)
                            =~= before + children(self@, s, tech_id@, u1, child_indent as nat, depth as nat, j as nat));
                    }
                    j = j + 1;
                }
                proof {
                    assert(views(out@) =~= views(out@) + children(self@, s, tech_id@, u1, child_indent as nat, depth as nat, j as nat));
                }
                if added {
                    remove_id(unlocked, tech_id);
                    assert(id_set(unlocked@) =~= u0);
                }
                proof {
                    assert(views(out@) =~= o0 + branch(self@, s, tech_id@, u0, indent as nat, depth as nat));
                }
            },
            None => {
                assert(views(out@) =~= o0 + branch(self@, s, tech_id@, u0, indent as nat, depth as nat));
            },
        }
    }

    /// The lines of the outline of the registry: each technology whose prerequisites are
    /// empty or met by `unlocked` starts a branch, in registry order; under each
    /// technology stand, four spaces deeper, those that list it as a prerequisite and can
    /// be unlocked once it is possessed. A technology is taken as possessed only while
    /// its branch is drawn, so `unlocked` ends as it began. Branches reach at most as
    /// deep as the registry has technologies.
    pub fn tech_tree_lines(&self, unlocked: &mut Vec<String>, indent: usize) -> (r: Vec<String>)
        requires
            self.wf(),
        ensures
            id_set(final(unlocked)@) == id_set(old(unlocked)@),
            views(r@) == self.outline(id_set(old(unlocked)@), indent as nat),
    {
        let ghost u0 = id_set(unlocked@);
        let ghost s = self.records();
        let mut out: Vec<String> = Vec::new();
        let depth = self.technologies.len();
        let mut i: usize = 0;
        proof {
            assert(views(out@) =~= Seq::<Seq<char>>::empty());
        }
        while i < self.technologies.len()
            invariant
                self.wf(),
                s == self.records(),
                depth == s.len(),
                i <= self.entries().len(),
                id_set(unlocked@) == u0,
                views(out@) + roots(self@, s, u0, indent as nat, depth as nat, i as nat)
                    == roots(self@, s, u0, indent as nat, depth as nat, 0),
            decreases self.entries().len() - i,
        {
            let ghost before = views(out@);
            proof {
                assert(s[i as int] == self.entries()[i as int]@);
            }
            if Self::starts_branch(&self.technologies[i], unlocked) {
                let id = self.technologies[i].id.clone();
                self.branch_lines(&id, unlocked, indent, depth, &mut out);
            }
            proof {
                let piece = if is_root(s[i as int], u0) {
                    branch(self@, s, s[i as int].id, u0, indent as nat, depth as nat)
                } else {
                    Seq::empty()
                };
                assert(views(out@) =~= before + piece);
                assert(views(out@) + roots(self@, s, u0, indent as nat, depth as nat, (i + 1) as nat)
                    =~= before + roots(self@, s, u0, indent as nat, depth as nat, i as nat));
            }
            i = i + 1;
        }
        proof {
            assert(views(out@) =~= views(out@) + roots(self@, s, u0, indent as nat, depth as nat, i as nat));
        }
        out
    }
}

} // verus!
