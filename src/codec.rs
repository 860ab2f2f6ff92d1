use vstd::prelude::*;
use crate::technology::{contains_id, distinct_ids, id_set, views, Prerequisites, TechView, Technology};
use crate::tree::{lemma_registry_push, registry_view, unique_ids, TechnologyTree};

verus! {

/// The pieces of `s` between occurrences of `sep`; always at least one piece.
pub open spec fn split(s: Seq<char>, sep: char) -> Seq<Seq<char>>
    decreases s.len(),
{
    if s.len() == 0 {
        seq![Seq::empty()]
    } else {
        let prev = split(s.drop_last(), sep);
        if s.last() == sep {
            prev.push(Seq::empty())
        } else {
            prev.update(prev.len() - 1, prev.last().push(s.last()))
        }
    }
}

/// The pieces of `ls` with `sep` between each two of them.
pub open spec fn join(ls: Seq<Seq<char>>, sep: char) -> Seq<char>
    decreases ls.len(),
{
    if ls.len() == 0 {
        Seq::empty()
    } else if ls.len() == 1 {
        ls[0]
    } else {
        join(ls.drop_last(), sep).push(sep) + ls.last()
    }
}

/// A line with one carriage return taken off its end.
pub open spec fn strip_cr(l: Seq<char>) -> Seq<char> {
    if l.len() > 0 && l.last() == '\r' {
        l.drop_last()
    } else {
        l
    }
}

/// The lines of `s`: split at `\n`, each terminated line without a final `\r`, and
/// no last line where `s` is empty or ends with `\n`.
pub open spec fn lines(s: Seq<char>) -> Seq<Seq<char>> {
    let segs = split(s, '\n');
    let body = segs.drop_last().map_values(|l: Seq<char>| strip_cr(l));
    if segs.last().len() == 0 {
        body
    } else {
        body.push(segs.last())
    }
}

pub open spec fn is_digit(c: char) -> bool {
    '0' <= c && c <= '9'
}

pub open spec fn digit_value(c: char) -> int {
    (c as int) - ('0' as int)
}

pub open spec fn digit_char(d: nat) -> char {
    "0123456789"@[d as int]
}

/// The number that a string of decimal digits denotes.
pub open spec fn digits_value(s: Seq<char>) -> int
    decreases s.len(),
{
    if s.len() == 0 {
        0
    } else {
        digits_value(s.drop_last()) * 10 + digit_value(s.last())
    }
}

pub open spec fn all_digits(s: Seq<char>) -> bool {
    forall|i: int| 0 <= i < s.len() ==> is_digit(#[trigger] s[i])
}

/// A `u32` written in decimal: an optional `+`, then at least one digit, within range.
pub open spec fn parse_u32(s: Seq<char>) -> Option<u32> {
    let d = if s.len() > 0 && s[0] == '+' { s.drop_first() } else { s };
    if d.len() > 0 && all_digits(d) && digits_value(d) <= u32::MAX {
        Some(digits_value(d) as u32)
    } else {
        None
    }
}

/// `n` in decimal, without leading zeros.
pub open spec fn decimal(n: nat) -> Seq<char>
    decreases n,
{
    if n < 10 {
        seq![digit_char(n)]
    } else {
        decimal(n / 10).push(digit_char(n % 10))
    }
}

/// The prerequisite ids in a comma-separated list: its non-empty pieces.
pub open spec fn prereq_set(list: Seq<char>) -> Set<Seq<char>> {
    Set::new(|k: Seq<char>| k.len() > 0 && split(list, ',').contains(k))
}

/// The technology that a line describes, if it is well formed:
/// `id;name;description;kind:ids;cost` with kind `And` or `Or`; a cost that does not
/// parse counts as zero.
pub open spec fn parse_line(l: Seq<char>) -> Option<TechView> {
    let f = split(l, ';');
    if f.len() != 5 {
        None
    } else {
        let p = split(f[3], ':');
        if p.len() < 2 || !(p[0] == seq!['A', 'n', 'd'] || p[0] == seq!['O', 'r']) {
            None
        } else {
            Some(TechView {
                id: f[0],
                name: f[1],
                description: f[2],
                conjunctive: p[0] == seq!['A', 'n', 'd'],
                prereqs: prereq_set(p[1]),
                cost: match parse_u32(f[4]) {
                    Some(v) => v,
                    None => 0,
                },
            })
        }
    }
}

/// The registry that a sequence of lines describes: each well-formed line in turn
/// inserted by its id, later lines replacing earlier ones.
pub open spec fn registry_of(ls: Seq<Seq<char>>) -> Map<Seq<char>, TechView>
    decreases ls.len(),
{
    if ls.len() == 0 {
        Map::empty()
    } else {
        let m = registry_of(ls.drop_last());
        match parse_line(ls.last()) {
            Some(t) => m.insert(t.id, t),
            None => m,
        }
    }
}

/// The prerequisite field of a record: the kind, a colon, then the ids joined by commas.
pub open spec fn prereq_field(p: Prerequisites) -> Seq<char> {
    (if p.is_conjunctive() { seq!['A', 'n', 'd'] } else { seq!['O', 'r'] }) + seq![':']
        + join(views(p.ids()), ',')
}

/// The line that stands for one technology.
pub open spec fn record(t: Technology) -> Seq<char> {
    t.id@ + seq![';'] + t.name@ + seq![';'] + t.description@ + seq![';']
        + prereq_field(t.prerequisites) + seq![';'] + decimal(t.cost as nat)
}

proof fn lemma_split_len(s: Seq<char>, sep: char)
    ensures
        split(s, sep).len() >= 1,
    decreases s.len(),
{
    if s.len() > 0 {
        lemma_split_len(s.drop_last(), sep);
    }
}

/// Splits `s` at each `sep`.
fn split_on(s: &str, sep: char) -> (r: Vec<String>)
    ensures
        views(r@) == split(s@, sep),
{
    let n = s.unicode_len();
    let mut pieces: Vec<String> = Vec::new();
    let mut start: usize = 0;
    let mut i: usize = 0;
    proof {
        assert(s@.take(0) =~= Seq::<char>::empty());
        assert(views(pieces@).push(s@.subrange(0, 0)) =~~= split(s@.take(0), sep));
    }
    while i < n
        invariant
            n == s@.len(),
            start <= i <= n,
            views(pieces@).push(s@.subrange(start as int, i as int)) == split(s@.take(i as int), sep),
        decreases n - i,
    {
        let c = s.get_char(i);
        let ghost prev = split(s@.take(i as int), sep);
        proof {
            assert(s@.take(i + 1).drop_last() =~= s@.take(i as int));
            assert(s@.take(i + 1).last() == c);
            lemma_split_len(s@.take(i as int), sep);
        }
        if c == sep {
            let ghost p0 = pieces@;
            pieces.push(s.substring_char(start, i).to_string());
            proof {
                assert(views(pieces@) =~= views(p0).push(s@.subrange(start as int, i as int)));
                assert(split(s@.take(i + 1), sep) == prev.push(Seq::empty()));
                assert(views(pieces@).push(s@.subrange(i + 1, i + 1)) =~~= prev.push(Seq::empty()));
            }
            start = i + 1;
        } else {
            proof {
                assert(split(s@.take(i + 1), sep) == prev.update(prev.len() - 1, prev.last().push(c)));
                assert(s@.subrange(start as int, i as int).push(c) =~= s@.subrange(start as int, i + 1));
                assert(views(pieces@).push(s@.subrange(start as int, i + 1)) =~~= prev.update(prev.len() - 1, prev.last().push(c)));
            }
        }
        i = i + 1;
    }
    let ghost p0 = pieces@;
    pieces.push(s.substring_char(start, n).to_string());
    proof {
        assert(s@.take(n as int) =~= s@);
        assert(views(pieces@) =~= views(p0).push(s@.subrange(start as int, n as int)));
    }
    pieces
}

/// The lines of `data`, as `str::lines` gives them.
fn lines_of(data: &str) -> (r: Vec<String>)
    ensures
        views(r@) == lines(data@),
{
    let segs = split_on(data, '\n');
    let ghost sv = split(data@, '\n');
    proof {
        lemma_split_len(data@, '\n');
        assert(views(segs@).len() == sv.len());
    }
    let mut r: Vec<String> = Vec::new();
    let mut i: usize = 0;
    while i < segs.len() - 1
        invariant
            views(segs@) == sv,
            sv.len() >= 1,
            i < sv.len(),
            views(r@) == sv.take(i as int).map_values(|l: Seq<char>| strip_cr(l)),
        decreases sv.len() - i,
    {
        let l = segs[i].as_str();
        let len = l.unicode_len();
        let ghost r0 = r@;
        if len > 0 && l.get_char(len - 1) == '\r' {
            r.push(l.substring_char(0, len - 1).to_string());
            proof {
                assert(l@.subrange(0, len - 1) =~= l@.drop_last());
            }
        } else {
            r.push(segs[i].clone());
        }
        proof {
            assert(views(r@) =~= sv.take(i + 1).map_values(|l: Seq<char>| strip_cr(l))) by {
                assert(segs@[i as int]@ == sv[i as int]);
                assert(views(r@) =~= views(r0).push(strip_cr(sv[i as int])));
            }
        }
        i = i + 1;
    }
    proof {
        assert(sv.take(i as int) =~= sv.drop_last());
    }
    let last = i;
    if segs[last].unicode_len() > 0 {
        let ghost r0 = r@;
        r.push(segs[last].clone());
        proof {
            assert(views(r@) =~= views(r0).push(sv.last()));
        }
    }
    r
}

proof fn lemma_digits_grow(s: Seq<char>, k: int)
    requires
        all_digits(s),
        0 <= k <= s.len(),
    ensures
        0 <= digits_value(s.take(k)) <= digits_value(s),
    decreases s.len(),
{
    if s.len() > 0 {
        assert forall|i: int| 0 <= i < s.drop_last().len() implies is_digit(#[trigger] s.drop_last()[i]) by {
            assert(s.drop_last()[i] == s[i]);
        }
        assert(is_digit(s[s.len() - 1]));
        if k == s.len() {
            assert(s.take(k) =~= s);
            lemma_digits_grow(s.drop_last(), 0);
        } else {
            assert(s.take(k) =~= s.drop_last().take(k));
            lemma_digits_grow(s.drop_last(), k);
        }
    } else {
        assert(s.take(k) =~= s);
    }
}

/// A cost field as `u32::from_str` reads it, zero where it does not parse.
fn parse_cost(s: &str) -> (r: u32)
    ensures
        r == match parse_u32(s@) {
            Some(v) => v,
            None => 0,
        },
{
    let n = s.unicode_len();
    let start: usize = if n > 0 && s.get_char(0) == '+' { 1 } else { 0 };
    let ghost d = if s@.len() > 0 && s@[0] == '+' { s@.drop_first() } else { s@ };
    proof {
        assert(d =~= s@.subrange(start as int, n as int));
    }
    if start == n {
        return 0;
    }
    let mut acc: u64 = 0;
    let mut i: usize = start;
    proof {
        assert(d.take(0) =~= Seq::<char>::empty());
    }
    while i < n
        invariant
            n == s@.len(),
            start <= i <= n,
            d == s@.subrange(start as int, n as int),
            d == (if s@.len() > 0 && s@[0] == '+' { s@.drop_first() } else { s@ }),
            d.len() > 0,
            acc <= u32::MAX,
            acc == digits_value(d.take(i - start)),
            forall|j: int| 0 <= j < i - start ==> is_digit(#[trigger] d[j]),
        decreases n - i,
    {
        let c = s.get_char(i);
        proof {
            assert(d[i - start] == c);
            assert(d.take(i - start + 1).drop_last() =~= d.take(i - start));
        }
        if c < '0' || c > '9' {
            proof {
                assert(!is_digit(d[i - start]));
            }
            return 0;
        }
        acc = acc * 10 + ((c as u32) - ('0' as u32)) as u64;
        if acc > 0xFFFF_FFFF {
            proof {
                let j = i - start + 1;
                assert(d.take(j).last() == c);
                assert(digits_value(d.take(j)) == acc);
                if all_digits(d) {
                    lemma_digits_grow(d, j);
                }
            }
            return 0;
        }
        i = i + 1;
    }
    proof {
        assert(d.take(n - start) =~= d);
    }
    acc as u32
}

/// The text of one decimal digit.
fn digit_text(d: u32) -> (r: &'static str)
    requires
        d < 10,
    ensures
        r@ == seq![digit_char(d as nat)],
{
    let t = "0123456789";
    proof {
        reveal_strlit("0123456789");
    }
    let r = t.substring_char(d as usize, d as usize + 1);
    assert(r@ =~= seq![digit_char(d as nat)]);
    r
}

/// `n` written in decimal.
pub(crate) fn decimal_text(n: u32) -> (r: String)
    ensures
        r@ == decimal(n as nat),
    decreases n,
{
    if n < 10 {
        digit_text(n).to_string()
    } else {
        let mut r = decimal_text(n / 10);
        r.append(digit_text(n % 10));
        r
    }
}

/// The non-empty pieces of a comma-separated list.
fn prereq_list(list: &str) -> (r: Vec<String>)
    ensures
        id_set(r@) == prereq_set(list@),
        distinct_ids(r@),
{
    let pieces = split_on(list, ',');
    let ghost pv = split(list@, ',');
    let mut r: Vec<String> = Vec::new();
    let mut i: usize = 0;
    while i < pieces.len()
        invariant
            i <= pieces@.len(),
            views(pieces@) == pv,
            distinct_ids(r@),
            forall|a: int| 0 <= a < r@.len() ==> (#[trigger] r@[a]@).len() > 0 && pv.contains(r@[a]@),
            forall|j: int| 0 <= j < i && (#[trigger] pv[j]).len() > 0 ==> id_set(r@).contains(pv[j]),
        decreases pieces@.len() - i,
    {
        proof {
            assert(pieces@[i as int]@ == pv[i as int]);
        }
        if pieces[i].unicode_len() > 0 && !contains_id(&r, &pieces[i]) {
            let ghost r0 = r@;
            r.push(pieces[i].clone());
            proof {
                assert forall|a: int, b: int| 0 <= a < r@.len() && 0 <= b < r@.len() && a != b
                    implies #[trigger] r@[a]@ != #[trigger] r@[b]@ by {
                    if a < r0.len() {
                        assert(r@[a] == r0[a]);
                    }
                    if b < r0.len() {
                        assert(r@[b] == r0[b]);
                    }
                }
                assert forall|a: int| 0 <= a < r@.len() implies (#[trigger] r@[a]@).len() > 0 && pv.contains(r@[a]@) by {
                    if a < r0.len() {
                        assert(r@[a] == r0[a]);
                    } else {
                        assert(pv[i as int] == r@[a]@);
                    }
                }
                assert forall|j: int| 0 <= j < i + 1 && (#[trigger] pv[j]).len() > 0 implies id_set(r@).contains(pv[j]) by {
                    if j < i {
                        let a = choose|a: int| 0 <= a < r0.len() && #[trigger] r0[a]@ == pv[j];
                        assert(r@[a] == r0[a]);
                    } else {
                        assert(r@[r@.len() - 1]@ == pv[j]);
                    }
                }
            }
        }
        i = i + 1;
    }
    proof {
        assert forall|k: Seq<char>| #[trigger] id_set(r@).contains(k) <==> prereq_set(list@).contains(k) by {
            if id_set(r@).contains(k) {
                let a = choose|a: int| 0 <= a < r@.len() && #[trigger] r@[a]@ == k;
            }
            if prereq_set(list@).contains(k) {
                let j = choose|j: int| 0 <= j < pv.len() && pv[j] == k;
                assert(id_set(r@).contains(pv[j]));
            }
        }
        assert(id_set(r@) =~= prereq_set(list@));
    }
    r
}

/// The technology that line `l` describes, if it is well formed.
pub fn parse_record(l: &str) -> (r: Option<Technology>)
    ensures
        match r {
            Some(t) => parse_line(l@) == Some(t@) && distinct_ids(t.prerequisites.ids()),
            None => parse_line(l@) is None,
        },
{
    let f = split_on(l, ';');
    proof {
        assert(f@.len() == split(l@, ';').len());
    }
    if f.len() != 5 {
        return None;
    }
    proof {
        assert forall|a: int| 0 <= a < 5 implies #[trigger] f@[a]@ == split(l@, ';')[a] by {}
    }
    let p = split_on(f[3].as_str(), ':');
    proof {
        assert(p@.len() == split(f@[3]@, ':').len());
    }
    if p.len() < 2 {
        return None;
    }
    proof {
        assert(p@[0]@ == split(f@[3]@, ':')[0]);
        assert(p@[1]@ == split(f@[3]@, ':')[1]);
        reveal_strlit("And");
        reveal_strlit("Or");
    }
    let and_kind = String::from_str("And");
    let or_kind = String::from_str("Or");
    proof {
        assert(and_kind@ =~= seq!['A', 'n', 'd']);
        assert(or_kind@ =~= seq!['O', 'r']);
    }
    let ids = prereq_list(p[1].as_str());
    let prerequisites = if p[0] == and_kind {
        Prerequisites::And(ids)
    } else if p[0] == or_kind {
        Prerequisites::Or(ids)
    } else {
        return None;
    };
    let t = Technology {
        id: f[0].clone(),
        name: f[1].clone(),
        description: f[2].clone(),
        prerequisites,
        cost: parse_cost(f[4].as_str()),
    };
    proof {
        assert(t@ == parse_line(l@).unwrap());
    }
    Some(t)
}

impl TechnologyTree {
    /// Reads a registry from its text form: each well-formed line gives a technology,
    /// inserted by its id in turn; other lines are skipped.
    pub fn deserialize(data: &str) -> (r: Self)
        ensures
            r.wf(),
            r@ == registry_of(lines(data@)),
    {
        let ls = lines_of(data);
        let ghost lv = lines(data@);
        let mut tree = TechnologyTree::new();
        let mut i: usize = 0;
        proof {
            assert(lv.take(0) =~= Seq::<Seq<char>>::empty());
        }
        while i < ls.len()
            invariant
                i <= ls@.len(),
                views(ls@) == lv,
                tree.wf(),
                tree@ == registry_of(lv.take(i as int)),
            decreases ls@.len() - i,
        {
            proof {
                assert(ls@[i as int]@ == lv[i as int]);
                assert(lv.take(i + 1).drop_last() =~= lv.take(i as int));
            }
            match parse_record(ls[i].as_str()) {
                Some(t) => {
                    tree.add_technology(t);
                },
                None => {},
            }
            i = i + 1;
        }
        proof {
            assert(lv.take(i as int) =~= lv);
        }
        tree
    }
}

/// The strings of `items` with the one-character `sep` between each two of them.
fn join_text(items: &Vec<String>, sep: &str) -> (r: String)
    requires
        sep@.len() == 1,
    ensures
        r@ == join(views(items@), sep@[0]),
{
    let ghost iv = views(items@);
    let mut r = String::new();
    let mut i: usize = 0;
    proof {
        assert(iv.take(0) =~= Seq::<Seq<char>>::empty());
    }
    while i < items.len()
        invariant
            i <= items@.len(),
            iv == views(items@),
            sep@.len() == 1,
            r@ == join(iv.take(i as int), sep@[0]),
        decreases items@.len() - i,
    {
        proof {
            assert(iv.take(i + 1).drop_last() =~= iv.take(i as int));
            assert(iv.take(i + 1).last() == items@[i as int]@);
        }
        if i > 0 {
            r.append(sep);
            r.append(items[i].as_str());
            proof {
                assert(r@ =~= join(iv.take(i as int), sep@[0]).push(sep@[0]) + items@[i as int]@);
            }
        } else {
            r.append(items[i].as_str());
            proof {
                assert(r@ =~= iv.take(1)[0]);
            }
        }
        i = i + 1;
    }
    proof {
        assert(iv.take(i as int) =~= iv);
    }
    r
}

/// The prerequisite field of a record.
fn prereq_text(p: &Prerequisites) -> (r: String)
    ensures
        r@ == prereq_field(*p),
{
    proof {
        reveal_strlit("And:");
        reveal_strlit("Or:");
        reveal_strlit(",");
    }
    let mut r = match p {
        Prerequisites::And(_) => String::from_str("And:"),
        Prerequisites::Or(_) => String::from_str("Or:"),
    };
    let list = join_text(p.list(), ",");
    r.append(list.as_str());
    assert(r@ =~= prereq_field(*p));
    r
}

/// The line that stands for `t`.
fn record_text(t: &Technology) -> (r: String)
    ensures
        r@ == record(*t),
{
    proof {
        reveal_strlit(";");
    }
    let mut r = t.id.clone();
    r.append(";");
    r.append(t.name.as_str());
    r.append(";");
    r.append(t.description.as_str());
    r.append(";");
    let p = prereq_text(&t.prerequisites);
    r.append(p.as_str());
    r.append(";");
    let c = decimal_text(t.cost);
    r.append(c.as_str());
    assert(r@ =~= record(*t));
    r
}

impl TechnologyTree {
    /// The text form of the registry: one record per technology, in registry order,
    /// separated by newlines.
    pub open spec fn serialized(&self) -> Seq<char> {
        join(self.entries().map_values(|t: Technology| record(t)), '\n')
    }

    /// Writes the registry in its text form.
    pub fn serialize(&self) -> (r: String)
        ensures
            r@ == self.serialized(),
    {
        let mut recs: Vec<String> = Vec::new();
        let mut i: usize = 0;
        while i < self.technologies.len()
            invariant
                i <= self.entries().len(),
                views(recs@) == self.entries().take(i as int).map_values(|t: Technology| record(t)),
            decreases self.entries().len() - i,
        {
            let ghost r0 = recs@;
            recs.push(record_text(&self.technologies[i]));
            proof {
                assert(views(recs@) =~= views(r0).push(record(self.entries()[i as int])));
                assert(views(recs@) =~= self.entries().take(i + 1).map_values(|t: Technology| record(t)));
            }
            i = i + 1;
        }
        proof {
            assert(self.entries().take(i as int) =~= self.entries());
            reveal_strlit("\n");
        }
        join_text(&recs, "\n")
    }
}

/// A field that the text form carries unchanged: no `;`, `:`, `,` or newline in it.
pub open spec fn plain(s: Seq<char>) -> bool {
    !s.contains(';') && !s.contains(':') && !s.contains(',') && !s.contains('\n')
}

/// A technology whose fields and prerequisite ids are plain, and whose prerequisite
/// ids are not empty.
pub open spec fn plain_technology(t: Technology) -> bool {
    &&& plain(t.id@)
    &&& plain(t.name@)
    &&& plain(t.description@)
    &&& forall|i: int| 0 <= i < t.prerequisites.ids().len()
        ==> (#[trigger] t.prerequisites.ids()[i])@.len() > 0 && plain(t.prerequisites.ids()[i]@)
}

proof fn lemma_concat_free(a: Seq<char>, b: Seq<char>, c: char)
    requires
        !a.contains(c),
        !b.contains(c),
    ensures
        !(a + b).contains(c),
{
    if (a + b).contains(c) {
        let i = choose|i: int| 0 <= i < (a + b).len() && (a + b)[i] == c;
        if i < a.len() {
            assert(a[i] == c);
        } else {
            assert(b[i - a.len()] == c);
        }
    }
}

proof fn lemma_split_append(x: Seq<char>, y: Seq<char>, sep: char)
    requires
        !y.contains(sep),
    ensures
        split(x + y, sep) == split(x, sep).update(split(x, sep).len() - 1, split(x, sep).last() + y),
    decreases y.len(),
{
    lemma_split_len(x, sep);
    let sx = split(x, sep);
    if y.len() == 0 {
        assert(x + y =~= x);
        assert(sx.last() + y =~= sx.last());
        assert(sx.update(sx.len() - 1, sx.last() + y) =~= sx);
    } else {
        let y0 = y.drop_last();
        assert(!y0.contains(sep)) by {
            if y0.contains(sep) {
                let i = choose|i: int| 0 <= i < y0.len() && y0[i] == sep;
                assert(y[i] == sep);
            }
        }
        lemma_split_append(x, y0, sep);
        assert((x + y).drop_last() =~= x + y0);
        assert(y[y.len() - 1] != sep);
        assert((x + y).last() == y.last());
        assert((sx.last() + y0).push(y.last()) =~= sx.last() + y);
        let p = split(x + y0, sep);
        assert(p.update(p.len() - 1, p.last().push(y.last()))
            =~~= sx.update(sx.len() - 1, sx.last() + y));
    }
}

proof fn lemma_split_field(x: Seq<char>, y: Seq<char>, sep: char)
    requires
        !y.contains(sep),
    ensures
        split(x.push(sep) + y, sep) == split(x, sep).push(y),
{
    assert(x.push(sep).drop_last() =~= x);
    lemma_split_append(x.push(sep), y, sep);
    assert(Seq::<char>::empty() + y =~= y);
}

proof fn lemma_split_plain(y: Seq<char>, sep: char)
    requires
        !y.contains(sep),
    ensures
        split(y, sep) == seq![y],
{
    lemma_split_append(Seq::empty(), y, sep);
    assert(Seq::<char>::empty() + y =~= y);
    assert(split(Seq::<char>::empty(), sep) == seq![Seq::<char>::empty()]);
    assert(seq![Seq::<char>::empty()].update(0, Seq::<char>::empty() + y) =~~= seq![y]);
}

proof fn lemma_split_join(ls: Seq<Seq<char>>, sep: char)
    requires
        ls.len() >= 1,
        forall|i: int| 0 <= i < ls.len() ==> !(#[trigger] ls[i]).contains(sep),
    ensures
        split(join(ls, sep), sep) == ls,
    decreases ls.len(),
{
    if ls.len() == 1 {
        lemma_split_plain(ls[0], sep);
        assert(seq![ls[0]] =~= ls);
    } else {
        let dl = ls.drop_last();
        assert forall|i: int| 0 <= i < dl.len() implies !(#[trigger] dl[i]).contains(sep) by {
            assert(dl[i] == ls[i]);
        }
        lemma_split_join(dl, sep);
        assert(!ls[ls.len() - 1].contains(sep));
        lemma_split_field(join(dl, sep), ls.last(), sep);
        assert(dl.push(ls.last()) =~= ls);
    }
}

proof fn lemma_join_free(ls: Seq<Seq<char>>, sep: char, c: char)
    requires
        c != sep,
        forall|i: int| 0 <= i < ls.len() ==> !(#[trigger] ls[i]).contains(c),
    ensures
        !join(ls, sep).contains(c),
    decreases ls.len(),
{
    if ls.len() == 1 {
        assert(!ls[0].contains(c));
    } else if ls.len() > 1 {
        let dl = ls.drop_last();
        assert forall|i: int| 0 <= i < dl.len() implies !(#[trigger] dl[i]).contains(c) by {
            assert(dl[i] == ls[i]);
        }
        lemma_join_free(dl, sep, c);
        assert(join(dl, sep).push(sep) =~= join(dl, sep) + seq![sep]);
        lemma_concat_free(join(dl, sep), seq![sep], c);
        assert(!ls[ls.len() - 1].contains(c));
        lemma_concat_free(join(dl, sep).push(sep), ls.last(), c);
    }
}

proof fn lemma_digit_char(d: nat)
    requires
        d < 10,
    ensures
        is_digit(digit_char(d)),
        digit_value(digit_char(d)) == d,
{
    reveal_strlit("0123456789");
}

proof fn lemma_decimal(n: nat)
    ensures
        decimal(n).len() > 0,
        all_digits(decimal(n)),
        digits_value(decimal(n)) == n,
    decreases n,
{
    if n < 10 {
        lemma_digit_char(n);
        assert(decimal(n).drop_last() =~= Seq::<char>::empty());
        assert(digits_value(decimal(n)) == digits_value(Seq::<char>::empty()) * 10 + digit_value(digit_char(n)));
    } else {
        lemma_decimal(n / 10);
        lemma_digit_char(n % 10);
        let d = decimal(n);
        assert(d.drop_last() =~= decimal(n / 10));
        assert(d.last() == digit_char(n % 10));
        assert(digits_value(d) == digits_value(decimal(n / 10)) * 10 + digit_value(d.last()));
        assert((n / 10) * 10 + n % 10 == n) by (nonlinear_arith);
        assert forall|i: int| 0 <= i < d.len() implies is_digit(#[trigger] d[i]) by {
            if i < d.len() - 1 {
                assert(d[i] == decimal(n / 10)[i]);
            }
        }
    }
}

proof fn lemma_digits_free(s: Seq<char>)
    requires
        all_digits(s),
    ensures
        plain(s),
{
    assert forall|i: int| 0 <= i < s.len() implies #[trigger] s[i] != ';' && s[i] != ':' && s[i] != ','
        && s[i] != '\n' by {
        assert(is_digit(s[i]));
    }
}

proof fn lemma_cost_round_trip(n: u32)
    ensures
        parse_u32(decimal(n as nat)) == Some(n),
        plain(decimal(n as nat)),
        decimal(n as nat).len() > 0,
        is_digit(decimal(n as nat).last()),
{
    lemma_decimal(n as nat);
    let d = decimal(n as nat);
    assert(is_digit(d[0]));
    assert(is_digit(d[d.len() - 1]));
    lemma_digits_free(d);
}

proof fn lemma_record(t: Technology)
    requires
        plain_technology(t),
    ensures
        parse_line(record(t)) == Some(t@),
        !record(t).contains('\n'),
        record(t).len() > 0,
        record(t).last() != '\r',
{
    let id = t.id@;
    let nm = t.name@;
    let ds = t.description@;
    let ids = views(t.prerequisites.ids());
    let kind = if t.prerequisites.is_conjunctive() { seq!['A', 'n', 'd'] } else { seq!['O', 'r'] };
    let csv = join(ids, ',');
    let pf = prereq_field(t.prerequisites);
    let dec = decimal(t.cost as nat);
    lemma_cost_round_trip(t.cost);
    assert(forall|i: int| 0 <= i < ids.len() ==> #[trigger] ids[i] == t.prerequisites.ids()[i]@);
    assert forall|i: int| 0 <= i < ids.len() implies plain(#[trigger] ids[i]) && ids[i].len() > 0 by {
        assert(ids[i] == t.prerequisites.ids()[i]@);
    }
    lemma_join_free(ids, ',', ';');
    lemma_join_free(ids, ',', ':');
    lemma_join_free(ids, ',', '\n');
    assert(pf =~= kind.push(':') + csv);
    assert(!kind.contains(';') && !kind.contains(':') && !kind.contains('\n'));
    assert(!seq![':'].contains(';') && !seq![':'].contains('\n'));
    assert(kind.push(':') =~= kind + seq![':']);
    lemma_concat_free(kind, seq![':'], ';');
    lemma_concat_free(kind + seq![':'], csv, ';');
    lemma_concat_free(kind, seq![':'], '\n');
    lemma_concat_free(kind + seq![':'], csv, '\n');
    // The five fields.
    let r = ((((id.push(';') + nm).push(';') + ds).push(';') + pf).push(';') + dec);
    assert(record(t) =~= r);
    lemma_split_plain(id, ';');
    lemma_split_field(id, nm, ';');
    lemma_split_field(id.push(';') + nm, ds, ';');
    lemma_split_field((id.push(';') + nm).push(';') + ds, pf, ';');
    lemma_split_field(((id.push(';') + nm).push(';') + ds).push(';') + pf, dec, ';');
    let f = split(r, ';');
    assert(f =~= seq![id, nm, ds, pf, dec]);
    // The prerequisite field.
    lemma_split_plain(kind, ':');
    lemma_split_field(kind, csv, ':');
    let p = split(pf, ':');
    assert(p =~= seq![kind, csv]);
    assert(prereq_set(csv) =~= t.prerequisites.id_set()) by {
        if ids.len() == 0 {
            assert(split(csv, ',') == seq![Seq::<char>::empty()]);
            assert forall|k: Seq<char>| !(#[trigger] t.prerequisites.id_set().contains(k)) by {}
        } else {
            lemma_split_join(ids, ',');
            assert forall|k: Seq<char>| #[trigger] prereq_set(csv).contains(k)
                <==> t.prerequisites.id_set().contains(k) by {
                if prereq_set(csv).contains(k) {
                    let i = choose|i: int| 0 <= i < ids.len() && ids[i] == k;
                    assert(t.prerequisites.ids()[i]@ == k);
                }
                if t.prerequisites.id_set().contains(k) {
                    let i = choose|i: int| 0 <= i < t.prerequisites.ids().len()
                        && #[trigger] t.prerequisites.ids()[i]@ == k;
                    assert(ids[i] == k);
                }
            }
        }
    }
    assert(parse_line(record(t)) == Some(t@));
    // No newline anywhere, and a digit at the end.
    assert(id.push(';') =~= id + seq![';']);
    assert((id.push(';') + nm).push(';') =~= (id.push(';') + nm) + seq![';']);
    assert(((id.push(';') + nm).push(';') + ds).push(';') =~= ((id.push(';') + nm).push(';') + ds) + seq![';']);
    assert((((id.push(';') + nm).push(';') + ds).push(';') + pf).push(';')
        =~= (((id.push(';') + nm).push(';') + ds).push(';') + pf) + seq![';']);
    assert(!seq![';'].contains('\n'));
    lemma_concat_free(id, seq![';'], '\n');
    lemma_concat_free(id.push(';'), nm, '\n');
    lemma_concat_free(id.push(';') + nm, seq![';'], '\n');
    lemma_concat_free((id.push(';') + nm).push(';'), ds, '\n');
    lemma_concat_free((id.push(';') + nm).push(';') + ds, seq![';'], '\n');
    lemma_concat_free(((id.push(';') + nm).push(';') + ds).push(';'), pf, '\n');
    lemma_concat_free(((id.push(';') + nm).push(';') + ds).push(';') + pf, seq![';'], '\n');
    lemma_concat_free((((id.push(';') + nm).push(';') + ds).push(';') + pf).push(';'), dec, '\n');
    assert(r.last() == dec.last());
}

proof fn lemma_lines_join(ls: Seq<Seq<char>>)
    requires
        forall|i: int| 0 <= i < ls.len() ==> !(#[trigger] ls[i]).contains('\n') && ls[i].len() > 0
            && ls[i].last() != '\r',
    ensures
        lines(join(ls, '\n')) == ls,
{
    if ls.len() == 0 {
        assert(split(Seq::<char>::empty(), '\n') == seq![Seq::<char>::empty()]);
        assert(lines(join(ls, '\n')) =~= ls);
    } else {
        lemma_split_join(ls, '\n');
        let body = ls.drop_last().map_values(|l: Seq<char>| strip_cr(l));
        assert(body =~= ls.drop_last()) by {
            assert forall|i: int| 0 <= i < body.len() implies #[trigger] body[i] == ls.drop_last()[i] by {
                assert(ls[i].last() != '\r');
            }
        }
        assert(ls[ls.len() - 1].len() > 0);
        assert(ls.drop_last().push(ls.last()) =~= ls);
    }
}

proof fn lemma_registry_of_records(s: Seq<Technology>, k: int)
    requires
        unique_ids(s),
        forall|i: int| 0 <= i < s.len() ==> plain_technology(#[trigger] s[i]),
        0 <= k <= s.len(),
    ensures
        registry_of(s.take(k).map_values(|t: Technology| record(t))) == registry_view(s.take(k)),
    decreases k,
{
    let recs = s.take(k).map_values(|t: Technology| record(t));
    if k == 0 {
        assert(registry_view(s.take(0)) =~= Map::<Seq<char>, TechView>::empty());
    } else {
        lemma_registry_of_records(s, k - 1);
        assert(recs.drop_last() =~= s.take(k - 1).map_values(|t: Technology| record(t)));
        lemma_record(s[k - 1]);
        assert(recs.last() == record(s[k - 1]));
        assert(s.take(k) =~= s.take(k - 1).push(s[k - 1]));
        assert(unique_ids(s.take(k - 1).push(s[k - 1]))) by {
            assert forall|a: int, b: int| 0 <= a < k && 0 <= b < k && a != b
                implies #[trigger] s.take(k)[a].id@ != #[trigger] s.take(k)[b].id@ by {
                assert(s.take(k)[a] == s[a] && s.take(k)[b] == s[b]);
            }
        }
        lemma_registry_push(s.take(k - 1), s[k - 1]);
    }
}

impl TechnologyTree {
    /// Whether every record passes through the text form unchanged: no id, name,
    /// description or prerequisite id holds `;`, `:`, `,` or a newline, and no
    /// prerequisite id is empty.
    pub open spec fn portable(&self) -> bool {
        forall|k: Seq<char>| #[trigger] self@.contains_key(k) ==> {
            &&& plain(k)
            &&& plain(self@[k].name)
            &&& plain(self@[k].description)
            &&& forall|p: Seq<char>| #[trigger] self@[k].prereqs.contains(p) ==> p.len() > 0 && plain(p)
        }
    }
}

/// Reading back what `serialize` wrote gives the same registry: the same ids, and for
/// each the same name, description, kind, set of prerequisites and cost.
pub proof fn lemma_round_trip(tree: &TechnologyTree)
    requires
        tree.wf(),
        tree.portable(),
    ensures
        registry_of(lines(tree.serialized())) == tree@,
{
    let s = tree.entries();
    assert forall|i: int| 0 <= i < s.len() implies plain_technology(#[trigger] s[i]) by {
        tree.lemma_view_at(i);
        let t = s[i];
        assert(tree@.contains_key(t.id@));
        assert forall|j: int| 0 <= j < t.prerequisites.ids().len()
            implies (#[trigger] t.prerequisites.ids()[j])@.len() > 0 && plain(t.prerequisites.ids()[j]@) by {
            assert(tree@[t.id@].prereqs.contains(t.prerequisites.ids()[j]@));
        }
    }
    let recs = s.map_values(|t: Technology| record(t));
    assert forall|i: int| 0 <= i < recs.len() implies !(#[trigger] recs[i]).contains('\n') && recs[i].len() > 0
        && recs[i].last() != '\r' by {
        lemma_record(s[i]);
    }
    lemma_lines_join(recs);
    lemma_registry_of_records(s, s.len() as int);
    assert(s.take(s.len() as int) =~= s);
}

} // verus!
