//! Requirement resolution over a snapshot of the local mod database: the
//! transitive requirements of a mod, the ones that are not installed, circular
//! requirement detection and load order assignment.

use vstd::prelude::*;
use vstd::set_lib::*;
use vstd::string::*;

use crate::db::InstallStatus;
use crate::errors::AppError;
use crate::load_order::{
    has_requirement_cycle, is_load_order, name_listed_before, strings_view,
    topo_sort, RequirementGraph,
};

verus! {

/// What the local database holds about one mod: its Nexus id, the ids it
/// requires (in stored order) and whether it has an installation row.
#[derive(Debug, Clone)]
pub struct ModRecord {
    pub nexus_id: String,
    pub required_mod_ids: Vec<String>,
    pub installed: bool,
}

/// Abstract view of the database: each known mod id with its requirements and
/// installed flag.
pub type DbView = Map<Seq<char>, (Seq<Seq<char>>, bool)>;

/// A mod is installed when it is known and has an installation row.
pub open spec fn is_installed(m: DbView, x: Seq<char>) -> bool {
    m.dom().contains(x) && m[x].1
}

/// The ids `x` requires directly: its stored requirements, none when the
/// database does not know it.
pub open spec fn direct_requirements(m: DbView, x: Seq<char>) -> Set<Seq<char>> {
    if m.dom().contains(x) {
        m[x].0.to_set()
    } else {
        Set::empty()
    }
}

/// `p` is a chain of one or more requirement steps: each id in it requires the next.
pub open spec fn is_chain(m: DbView, p: Seq<Seq<char>>) -> bool {
    &&& p.len() >= 2
    &&& forall|i: int| #![trigger p[i]] 0 <= i < p.len() - 1 ==> direct_requirements(m, p[i]).contains(p[i + 1])
}

/// `x` requires `y`, directly or through other mods.
pub open spec fn reaches(m: DbView, x: Seq<char>, y: Seq<char>) -> bool {
    exists|p: Seq<Seq<char>>| #[trigger] is_chain(m, p) && p[0] == x && p.last() == y
}

/// Everything `x` requires, directly or through other mods.
pub open spec fn reachable_from(m: DbView, x: Seq<char>) -> Set<Seq<char>> {
    Set::new(|y: Seq<char>| reaches(m, x, y))
}

/// `x` is `id` or required by it, and requires itself: a cycle `id` depends on.
pub open spec fn on_cycle_from(m: DbView, id: Seq<char>, x: Seq<char>) -> bool {
    (x == id || reaches(m, id, x)) && reaches(m, x, x)
}

pub open spec fn cycle_reachable(m: DbView, id: Seq<char>) -> bool {
    exists|x: Seq<char>| #[trigger] on_cycle_from(m, id, x)
}

pub proof fn lemma_step(m: DbView, x: Seq<char>, y: Seq<char>)
    requires
        direct_requirements(m, x).contains(y),
    ensures
        reaches(m, x, y),
{
    let p = seq![x, y];
    assert(p[0] == x);
    assert(is_chain(m, p));
}

pub proof fn lemma_extend(m: DbView, x: Seq<char>, y: Seq<char>, z: Seq<char>)
    requires
        reaches(m, x, y),
        direct_requirements(m, y).contains(z),
    ensures
        reaches(m, x, z),
{
    let p = choose|p: Seq<Seq<char>>| #[trigger] is_chain(m, p) && p[0] == x && p.last() == y;
    let q = p.push(z);
    assert forall|i: int| #![trigger q[i]] 0 <= i < q.len() - 1 implies direct_requirements(m, q[i]).contains(q[i + 1]) by {
        if i < p.len() - 1 {
            assert(p[i] == q[i] && p[i + 1] == q[i + 1]);
        }
    }
    assert(is_chain(m, q));
}

/// Requiring is transitive.
pub proof fn lemma_reaches_trans(m: DbView, x: Seq<char>, y: Seq<char>, z: Seq<char>)
    requires
        reaches(m, x, y),
        reaches(m, y, z),
    ensures
        reaches(m, x, z),
{
    let p = choose|p: Seq<Seq<char>>| #[trigger] is_chain(m, p) && p[0] == x && p.last() == y;
    let q = choose|q: Seq<Seq<char>>| #[trigger] is_chain(m, q) && q[0] == y && q.last() == z;
    let r = p + q.drop_first();
    assert forall|i: int| #![trigger r[i]] 0 <= i < r.len() - 1 implies direct_requirements(m, r[i]).contains(r[i + 1]) by {
        if i < p.len() - 1 {
            assert(p[i] == r[i] && p[i + 1] == r[i + 1]);
        } else if i == p.len() - 1 {
            assert(r[i] == y && q[0] == y && q[1] == r[i + 1]);
            assert(q[0] == q[0]);
        } else {
            let k = i - p.len() + 1;
            assert(q[k] == r[i] && q[k + 1] == r[i + 1]);
        }
    }
    assert(r[0] == x);
    assert(r.last() == z);
    assert(is_chain(m, r));
}

proof fn lemma_chain_inside(m: DbView, p: Seq<Seq<char>>, s: Set<Seq<char>>, i: int)
    requires
        is_chain(m, p),
        direct_requirements(m, p[0]).subset_of(s),
        forall|y: Seq<char>| #[trigger] s.contains(y) ==> direct_requirements(m, y).subset_of(s),
        1 <= i < p.len(),
    ensures
        s.contains(p[i]),
    decreases i,
{
    if i > 1 {
        lemma_chain_inside(m, p, s, i - 1);
        assert(direct_requirements(m, p[i - 1]).contains(p[i]));
    } else {
        assert(direct_requirements(m, p[0]).contains(p[1]));
    }
}

/// A set that holds what `x` requires directly, and what each of its members
/// requires directly, holds everything `x` requires.
pub proof fn lemma_closed_holds_reachable(m: DbView, x: Seq<char>, s: Set<Seq<char>>)
    requires
        direct_requirements(m, x).subset_of(s),
        forall|y: Seq<char>| #[trigger] s.contains(y) ==> direct_requirements(m, y).subset_of(s),
    ensures
        reachable_from(m, x).subset_of(s),
{
    assert forall|y: Seq<char>| #[trigger] reachable_from(m, x).contains(y) implies s.contains(y) by {
        let p = choose|p: Seq<Seq<char>>| #[trigger] is_chain(m, p) && p[0] == x && p.last() == y;
        lemma_chain_inside(m, p, s, p.len() - 1);
    }
}

/// A snapshot of the local database: every known mod with its requirements and
/// whether it is installed. Mod ids are unique.
pub struct DependencySnapshot {
    records: Vec<ModRecord>,
}

impl DependencySnapshot {
    pub closed spec fn key(self, i: int) -> Seq<char> {
        self.records@[i].nexus_id@
    }

    pub closed spec fn value(self, i: int) -> (Seq<Seq<char>>, bool) {
        (strings_view(self.records@[i].required_mod_ids@), self.records@[i].installed)
    }

    #[verifier::type_invariant]
    closed spec fn ids_distinct(self) -> bool {
        forall|i: int, j: int| 0 <= i < j < self.records@.len() ==> self.key(i) != self.key(j)
    }

    closed spec fn index_of_key(self, k: Seq<char>) -> int {
        choose|i: int| 0 <= i < self.records@.len() && self.key(i) == k
    }

    pub closed spec fn as_map(self) -> DbView {
        Map::new(
            |k: Seq<char>| exists|i: int| 0 <= i < self.records@.len() && self.key(i) == k,
            |k: Seq<char>| self.value(self.index_of_key(k)),
        )
    }

    proof fn lemma_entry(self, i: int)
        requires
            self.ids_distinct(),
            0 <= i < self.records@.len(),
        ensures
            self.as_map().dom().contains(self.key(i)),
            self.as_map()[self.key(i)] == self.value(i),
    {
        assert(self.as_map().dom().contains(self.key(i)));
        let j = self.index_of_key(self.key(i));
        if j != i {
            if j < i {
            } else {
            }
        }
    }

    /// An empty snapshot.
    pub fn new() -> (s: Self)
        ensures
            s@ == Map::<Seq<char>, (Seq<Seq<char>>, bool)>::empty(),
    {
        let s = DependencySnapshot { records: Vec::new() };
        assert(s.as_map() =~= Map::<Seq<char>, (Seq<Seq<char>>, bool)>::empty());
        s
    }

    fn position(&self, id: &String) -> (r: Option<usize>)
        ensures
            match r {
                Some(i) => i < self.records@.len() && self.key(i as int) == id@,
                None => forall|j: int| 0 <= j < self.records@.len() ==> self.key(j) != id@,
            },
    {
        let n = self.records.len();
        let mut i: usize = 0;
        while i < n
            invariant
                n == self.records.len(),
                i <= n,
                forall|j: int| 0 <= j < i ==> self.key(j) != id@,
            decreases n - i,
        {
            if self.records[i].nexus_id == *id {
                return Some(i);
            }
            i += 1;
        }
        None
    }

    /// Records a mod, replacing what was known about the same id.
    pub fn insert(&mut self, record: ModRecord)
        ensures
            final(self)@ == old(self)@.insert(
                record.nexus_id@,
                (strings_view(record.required_mod_ids@), record.installed),
            ),
    {
        proof {
            use_type_invariant(&*self);
        }
        let ghost before = *self;
        let ghost rec = record;
        let pos = self.position(&record.nexus_id);
        let mut records: Vec<ModRecord> = Vec::new();
        std::mem::swap(&mut records, &mut self.records);
        let ghost last: int = match pos {
            Some(i) => i as int,
            None => before.records@.len() as int,
        };
        match pos {
            Some(i) => {
                records.set(i, record);
            },
            None => {
                records.push(record);
            },
        }
        proof {
            let after = DependencySnapshot { records };
            assert(records@[last] == rec);
            assert forall|a: int, b: int| 0 <= a < b < records@.len() implies records@[a].nexus_id@
                != records@[b].nexus_id@ by {
                if a != last && b != last {
                    assert(before.key(a) != before.key(b));
                } else if a == last {
                    if b < before.records@.len() {
                        assert(before.key(b) == records@[b].nexus_id@);
                    }
                } else {
                    assert(before.key(a) == records@[a].nexus_id@);
                }
            }
            assert(after.ids_distinct());
            after.lemma_entry(last);
            assert(after.as_map() =~= before.as_map().insert(after.key(last), after.value(last))) by {
                assert forall|k: Seq<char>| #[trigger] after.as_map().dom().contains(k) implies
                    before.as_map().dom().contains(k) || k == after.key(last) by {
                    let j = after.index_of_key(k);
                    if j != last {
                        assert(before.key(j) == k);
                    }
                }
                assert forall|k: Seq<char>| #[trigger] before.as_map().dom().contains(k) implies
                    after.as_map().dom().contains(k) by {
                    let j = before.index_of_key(k);
                    assert(after.key(j) == k);
                }
                assert forall|k: Seq<char>| #[trigger] after.as_map().dom().contains(k) && k != after.key(last)
                    implies after.as_map()[k] == before.as_map()[k] by {
                    let j = after.index_of_key(k);
                    let jb = before.index_of_key(k);
                    assert(before.key(jb) == k);
                    assert(after.key(jb) == k);
                    if j != jb {
                        if j < jb {
                        } else {
                        }
                    }
                }
            }
        }
        self.records = records;
    }

    /// The stored requirements of `id`, if the database knows it.
    fn lookup(&self, id: &String) -> (r: Option<&Vec<String>>)
        ensures
            match r {
                Some(v) => self@.dom().contains(id@) && strings_view(v@) == self@[id@].0,
                None => !self@.dom().contains(id@),
            },
    {
        proof {
            use_type_invariant(self);
        }
        match self.position(id) {
            Some(i) => {
                proof {
                    self.lemma_entry(i as int);
                }
                Some(&self.records[i].required_mod_ids)
            },
            None => {
                proof {
                    if self.as_map().dom().contains(id@) {
                        let j = self.index_of_key(id@);
                        assert(self.key(j) == id@);
                    }
                }
                None
            },
        }
    }

    /// True when the database knows `id` and it has an installation row.
    pub fn is_mod_installed(&self, id: &String) -> (b: bool)
        ensures
            b == is_installed(self@, id@),
    {
        proof {
            use_type_invariant(self);
        }
        match self.position(id) {
            Some(i) => {
                proof {
                    self.lemma_entry(i as int);
                }
                self.records[i].installed
            },
            None => {
                proof {
                    if self.as_map().dom().contains(id@) {
                        let j = self.index_of_key(id@);
                        assert(self.key(j) == id@);
                    }
                }
                false
            },
        }
    }
}

impl View for DependencySnapshot {
    type V = DbView;

    closed spec fn view(&self) -> DbView {
        self.as_map()
    }
}

/// Whether `v` (as strings) contains `s`.
pub fn contains_string(v: &Vec<String>, s: &String) -> (b: bool)
    ensures
        b == strings_view(v@).contains(s@),
{
    let n = v.len();
    let mut i: usize = 0;
    while i < n
        invariant
            n == v.len(),
            i <= n,
            forall|j: int| 0 <= j < i ==> v@[j]@ != s@,
        decreases n - i,
    {
        if v[i] == *s {
            proof {
                assert(strings_view(v@)[i as int] == s@);
            }
            return true;
        }
        i += 1;
    }
    false
}

/// Pushing a new element keeps a sequence duplicate-free.
pub proof fn lemma_push_no_dup(s: Seq<Seq<char>>, x: Seq<char>)
    requires
        s.no_duplicates(),
        !s.contains(x),
    ensures
        s.push(x).no_duplicates(),
{
    assert forall|a: int, b: int| 0 <= a < s.len() + 1 && 0 <= b < s.len() + 1 && a != b implies s.push(x)[a]
        != s.push(x)[b] by {
        if a == s.len() {
            assert(s[b] != x);
        } else if b == s.len() {
            assert(s[a] != x);
        }
    }
}

/// Appends to `all` each string of `more` it does not already hold.
pub fn add_new(all: &mut Vec<String>, more: &Vec<String>)
    requires
        strings_view(old(all)@).no_duplicates(),
    ensures
        strings_view(final(all)@).no_duplicates(),
        strings_view(final(all)@).to_set() == strings_view(old(all)@).to_set().union(
            strings_view(more@).to_set(),
        ),
        final(all)@.len() >= old(all)@.len(),
        forall|k: int| 0 <= k < old(all)@.len() ==> final(all)@[k] == old(all)@[k],
{
    let ghost start = strings_view(all@).to_set();
    let n = more.len();
    for j in 0..n
        invariant
            n == more.len(),
            strings_view(all@).no_duplicates(),
            strings_view(all@).to_set() == start.union(strings_view(more@).take(j as int).to_set()),
            all@.len() >= old(all)@.len(),
            forall|k: int| 0 <= k < old(all)@.len() ==> all@[k] == old(all)@[k],
    {
        let ghost before = strings_view(all@);
        let ghost mv = strings_view(more@);
        let ghost mj = mv[j as int];
        proof {
            assert(mv.take(j + 1) =~= mv.take(j as int).push(mj));
            assert forall|x: Seq<char>| #[trigger] mv.take(j + 1).contains(x) <==> (mv.take(j as int).contains(x) || x == mj) by {
                vstd::seq_lib::lemma_seq_contains_after_push(mv.take(j as int), mj, x);
            }
        }
        if !contains_string(all, &more[j]) {
            all.push(more[j].clone());
            proof {
                assert(strings_view(all@) =~= before.push(mj));
                assert forall|x: Seq<char>| #[trigger] strings_view(all@).contains(x) <==> (before.contains(x) || x == mj) by {
                    vstd::seq_lib::lemma_seq_contains_after_push(before, mj, x);
                }
            }
        } else {
            proof {
                assert(before.contains(mj));
            }
        }
        proof {
            assert forall|x: Seq<char>| strings_view(all@).to_set().contains(x) <==> start.union(
                mv.take(j + 1).to_set(),
            ).contains(x) by {
                assert(strings_view(all@).to_set().contains(x) == strings_view(all@).contains(x));
                assert(mv.take(j + 1).to_set().contains(x) == mv.take(j + 1).contains(x));
                assert(mv.take(j as int).to_set().contains(x) == mv.take(j as int).contains(x));
                assert(before.to_set().contains(x) == before.contains(x));
            }
            assert(strings_view(all@).to_set() =~= start.union(mv.take(j + 1).to_set()));
        }
    }
    proof {
        assert(strings_view(more@).take(n as int) =~= strings_view(more@));
    }
}

/// The requirement lists of `recs`, one after another.
pub open spec fn listed_in(recs: Seq<ModRecord>) -> Seq<Seq<char>>
    decreases recs.len(),
{
    if recs.len() == 0 {
        Seq::empty()
    } else {
        listed_in(recs.drop_last()) + strings_view(recs.last().required_mod_ids@)
    }
}

proof fn lemma_listed_in(recs: Seq<ModRecord>, i: int, y: Seq<char>)
    requires
        0 <= i < recs.len(),
        strings_view(recs[i].required_mod_ids@).contains(y),
    ensures
        listed_in(recs).contains(y),
    decreases recs.len(),
{
    let last = strings_view(recs.last().required_mod_ids@);
    let rest = listed_in(recs.drop_last());
    if i == recs.len() - 1 {
        let k = choose|k: int| 0 <= k < last.len() && last[k] == y;
        assert((rest + last)[rest.len() + k] == y);
    } else {
        lemma_listed_in(recs.drop_last(), i, y);
        let k = choose|k: int| 0 <= k < rest.len() && rest[k] == y;
        assert((rest + last)[k] == y);
    }
}

impl DependencySnapshot {
    /// Every id that some stored requirement list names.
    pub closed spec fn listed(self) -> Set<Seq<char>> {
        listed_in(self.records@).to_set()
    }

    /// Whatever any id requires directly is listed somewhere; and what is
    /// listed is finite.
    proof fn lemma_direct_listed(self, x: Seq<char>)
        ensures
            direct_requirements(self@, x).subset_of(self.listed()),
            self.listed().finite(),
    {
        vstd::seq_lib::seq_to_set_is_finite(listed_in(self.records@));
        if self@.dom().contains(x) {
            let i = self.index_of_key(x);
            assert(0 <= i < self.records@.len() && self.key(i) == x);
            assert(self@[x] == self.value(i));
            assert forall|y: Seq<char>| #[trigger] direct_requirements(self@, x).contains(y) implies self.listed().contains(
                y,
            ) by {
                lemma_listed_in(self.records@, i, y);
            }
        }
    }

    /// Every id some stored requirement list names, each list in turn.
    fn all_listed(&self) -> (r: Vec<String>)
        ensures
            strings_view(r@) == listed_in(self.records@),
    {
        let mut out: Vec<String> = Vec::new();
        let n = self.records.len();
        for i in 0..n
            invariant
                n == self.records.len(),
                strings_view(out@) == listed_in(self.records@.take(i as int)),
        {
            let reqs = &self.records[i].required_mod_ids;
            let ghost before = strings_view(out@);
            let k = reqs.len();
            for j in 0..k
                invariant
                    k == reqs.len(),
                    strings_view(out@) == before + strings_view(reqs@).take(j as int),
            {
                let ghost prev = out@;
                let item = reqs[j].clone();
                out.push(item);
                proof {
                    assert(out@ == prev.push(item));
                    assert(strings_view(out@) =~= strings_view(prev).push(item@));
                    assert(strings_view(reqs@).take(j + 1) =~= strings_view(reqs@).take(j as int).push(reqs@[j as int]@));
                    assert(strings_view(out@) =~= before + strings_view(reqs@).take(j + 1));
                }
            }
            proof {
                assert(self.records@.take(i + 1).drop_last() =~= self.records@.take(i as int));
                assert(strings_view(reqs@).take(k as int) =~= strings_view(reqs@));
            }
        }
        proof {
            assert(self.records@.take(n as int) =~= self.records@);
        }
        out
    }

    /// Everything `x` requires, directly or through other mods, each once.
    fn reach_from(&self, x: &String) -> (r: Vec<String>)
        ensures
            strings_view(r@).no_duplicates(),
            strings_view(r@).to_set() == reachable_from(self@, x@),
    {
        proof {
            use_type_invariant(self);
        }
        let listed = self.all_listed();
        let ghost m = self@;
        let ghost lset = self.listed();
        proof {
            self.lemma_direct_listed(x@);
        }
        let mut out: Vec<String> = Vec::new();
        proof {
            assert(strings_view(out@) =~= Seq::<Seq<char>>::empty());
            assert(strings_view(out@).to_set() =~= Set::<Seq<char>>::empty());
        }
        match self.lookup(x) {
            Some(reqs) => {
                add_new(&mut out, reqs);
            },
            None => {},
        }
        proof {
            assert(strings_view(out@).to_set() =~= direct_requirements(m, x@));
            assert forall|y: Seq<char>| #[trigger] strings_view(out@).to_set().contains(y) implies reaches(m, x@, y) by {
                lemma_step(m, x@, y);
            }
            strings_view(out@).unique_seq_to_set();
            strings_view(listed@).lemma_cardinality_of_set();
            lemma_len_subset(strings_view(out@).to_set(), lset);
        }
        let mut i: usize = 0;
        while i < out.len()
            invariant
                m == self@,
                lset == self.listed(),
                lset == strings_view(listed@).to_set(),
                lset.finite(),
                strings_view(out@).no_duplicates(),
                direct_requirements(m, x@).subset_of(strings_view(out@).to_set()),
                forall|y: Seq<char>| #[trigger] strings_view(out@).to_set().contains(y) ==> reaches(m, x@, y),
                forall|j: int| 0 <= j < i ==> direct_requirements(m, #[trigger] out@[j]@).subset_of(
                    strings_view(out@).to_set(),
                ),
                strings_view(out@).to_set().subset_of(lset),
                out.len() <= listed.len(),
                i <= out.len(),
            decreases listed.len() - i,
        {
            let cur = out[i].clone();
            let ghost before = out@;
            proof {
                assert(strings_view(out@)[i as int] == cur@);
                assert(strings_view(out@).to_set().contains(cur@));
                self.lemma_direct_listed(cur@);
            }
            match self.lookup(&cur) {
                Some(reqs) => {
                    add_new(&mut out, reqs);
                },
                None => {},
            }
            proof {
                let sv = strings_view(out@).to_set();
                assert(sv =~= strings_view(before).to_set().union(direct_requirements(m, cur@)));
                assert forall|y: Seq<char>| #[trigger] sv.contains(y) implies reaches(m, x@, y) by {
                    if !strings_view(before).to_set().contains(y) {
                        lemma_extend(m, x@, cur@, y);
                    }
                }
                assert forall|j: int| 0 <= j < i + 1 implies direct_requirements(m, #[trigger] out@[j]@).subset_of(sv) by {
                    assert(out@[j] == before[j]);
                    if j < i {
                        assert(direct_requirements(m, before[j]@).subset_of(strings_view(before).to_set()));
                    }
                }
                strings_view(out@).unique_seq_to_set();
                strings_view(listed@).lemma_cardinality_of_set();
                lemma_len_subset(sv, lset);
            }
            i += 1;
        }
        proof {
            let sv = strings_view(out@).to_set();
            assert forall|y: Seq<char>| #[trigger] sv.contains(y) implies direct_requirements(m, y).subset_of(sv) by {
                let j = choose|j: int| 0 <= j < strings_view(out@).len() && strings_view(out@)[j] == y;
                assert(out@[j]@ == y);
            }
            lemma_closed_holds_reachable(m, x@, sv);
            assert(sv =~= reachable_from(m, x@));
        }
        out
    }
}

/// Everything `id` requires, directly or through other mods; none when a cycle
/// of requirements is among them.
pub open spec fn requirements_of(m: DbView, id: Seq<char>) -> Option<Set<Seq<char>>> {
    if cycle_reachable(m, id) {
        None
    } else {
        Some(reachable_from(m, id))
    }
}

/// `e` reports a cycle that `id` depends on, naming a mod on it: `id` itself
/// when `id` requires itself.
pub open spec fn is_cycle_report(m: DbView, id: Seq<char>, e: AppError) -> bool {
    &&& exists|x: Seq<char>| #[trigger] on_cycle_from(m, id, x) && is_circular(e, x)
    &&& reaches(m, id, id) ==> is_circular(e, id)
}

/// None of `ids` depends on a cycle of requirements.
pub open spec fn none_on_cycle(m: DbView, ids: Seq<Seq<char>>) -> bool {
    forall|i: int| 0 <= i < ids.len() ==> (#[trigger] requirements_of(m, ids[i])) is Some
}

/// The ids before `ids[k]` depend on no cycle, and `x` lies on a cycle that
/// `ids[k]` depends on.
pub open spec fn first_on_cycle(m: DbView, ids: Seq<Seq<char>>, k: int, x: Seq<char>) -> bool {
    &&& 0 <= k < ids.len()
    &&& forall|j: int| 0 <= j < k ==> (#[trigger] requirements_of(m, ids[j])) is Some
    &&& on_cycle_from(m, ids[k], x)
}

/// `y` is one of the ids, and `x` depends on no cycle and requires `y`.
pub open spec fn requires_within(m: DbView, ids: Seq<Seq<char>>, x: Seq<char>, y: Seq<char>) -> bool {
    &&& ids.contains(y)
    &&& requirements_of(m, x) matches Some(found) && found.contains(y)
}

/// `o` lists each of `ids` once, every id after the ids it (transitively) requires.
pub open spec fn is_dependency_order(m: DbView, ids: Seq<Seq<char>>, o: Seq<Seq<char>>) -> bool {
    &&& o.no_duplicates()
    &&& forall|x: Seq<char>| #[trigger] o.contains(x) <==> ids.contains(x)
    &&& forall|p: int, y: Seq<char>|
        0 <= p < o.len() && #[trigger] requires_within(m, ids, o[p], y) ==> name_listed_before(o, p, y)
}

/// A nonempty set of the ids in which each member requires another member.
pub open spec fn is_dependency_cycle(m: DbView, ids: Seq<Seq<char>>, s: Set<Seq<char>>) -> bool {
    &&& exists|x: Seq<char>| s.contains(x)
    &&& forall|x: Seq<char>| #[trigger] s.contains(x) ==> ids.contains(x)
    &&& forall|x: Seq<char>| s.contains(x) ==> #[trigger] requires_member_of(m, ids, s, x)
}

pub open spec fn requires_member_of(m: DbView, ids: Seq<Seq<char>>, s: Set<Seq<char>>, x: Seq<char>) -> bool {
    exists|y: Seq<char>| s.contains(y) && requires_within(m, ids, x, y)
}

pub open spec fn has_dependency_cycle(m: DbView, ids: Seq<Seq<char>>) -> bool {
    exists|s: Set<Seq<char>>| is_dependency_cycle(m, ids, s)
}

/// The graph that load ordering works on: each of `ids` with the ids among `ids`
/// it requires, directly or not, each listed once.
pub open spec fn is_graph_for(m: DbView, ids: Seq<Seq<char>>, g: Map<Seq<char>, Seq<Seq<char>>>) -> bool {
    &&& forall|x: Seq<char>| #[trigger] g.dom().contains(x) <==> ids.contains(x)
    &&& forall|x: Seq<char>| #[trigger] g.dom().contains(x) ==> graph_entry_for(m, ids, g[x], x)
}

/// `reqs`, listed once each, are the ids among `ids` that `x` requires, directly or not.
pub open spec fn graph_entry_for(m: DbView, ids: Seq<Seq<char>>, reqs: Seq<Seq<char>>, x: Seq<char>) -> bool {
    &&& reqs.no_duplicates()
    &&& (requirements_of(m, x) matches Some(found) && reqs.to_set() == found.filter(
        |y: Seq<char>| ids.contains(y),
    ))
}

/// A circular-requirement error naming `x`.
pub open spec fn is_circular(e: AppError, x: Seq<char>) -> bool {
    e matches AppError::CircularDependency(msg) && msg@ == x
}

impl DependencySnapshot {
    /// Everything `id` requires, directly or through other mods, each once.
    /// Fails with `CircularDependency`, naming a mod on the cycle, exactly when
    /// `id` depends on a cycle of requirements.
    pub fn collect_requirements(&self, id: &String) -> (r: Result<Vec<String>, AppError>)
        ensures
            match requirements_of(self@, id@) {
                Some(found) => r matches Ok(v) && strings_view(v@).no_duplicates() && strings_view(v@).to_set()
                    == found,
                None => r matches Err(e) && is_cycle_report(self@, id@, e),
            },
    {
        let all = self.reach_from(id);
        let ghost m = self@;
        if contains_string(&all, id) {
            proof {
                assert(strings_view(all@).to_set().contains(id@));
                assert(on_cycle_from(m, id@, id@));
            }
            return Err(AppError::CircularDependency(id.clone()));
        }
        proof {
            assert(!strings_view(all@).to_set().contains(id@));
            assert(!reachable_from(m, id@).contains(id@));
        }
        let n = all.len();
        for i in 0..n
            invariant
                n == all.len(),
                m == self@,
                !reaches(m, id@, id@),
                strings_view(all@).to_set() == reachable_from(m, id@),
                forall|j: int| 0 <= j < i ==> !reaches(m, #[trigger] all@[j]@, all@[j]@),
        {
            let again = self.reach_from(&all[i]);
            if contains_string(&again, &all[i]) {
                proof {
                    let x = all@[i as int]@;
                    assert(strings_view(again@).to_set().contains(x));
                    assert(strings_view(all@)[i as int] == x);
                    assert(strings_view(all@).to_set().contains(x));
                    assert(on_cycle_from(m, id@, x));
                }
                return Err(AppError::CircularDependency(all[i].clone()));
            }
            proof {
                assert(!strings_view(again@).to_set().contains(all@[i as int]@));
            }
        }
        proof {
            if cycle_reachable(m, id@) {
                let x = choose|x: Seq<char>| #[trigger] on_cycle_from(m, id@, x);
                if x == id@ {
                    assert(reachable_from(m, id@).contains(x));
                } else {
                    assert(reachable_from(m, id@).contains(x));
                }
                let j = choose|j: int| 0 <= j < strings_view(all@).len() && strings_view(all@)[j] == x;
                assert(all@[j]@ == x);
            }
        }
        Ok(all)
    }

    /// The requirements of `mod_id`, direct and transitive, that have no
    /// installation: each once, in no particular order. Fails with
    /// `CircularDependency` when `mod_id` depends on a cycle of requirements.
    pub fn missing_requirements(&self, mod_id: &String) -> (r: Result<Vec<String>, AppError>)
        ensures
            match requirements_of(self@, mod_id@) {
                Some(found) => r matches Ok(v) && strings_view(v@).no_duplicates() && strings_view(v@).to_set()
                    == found.filter(|x: Seq<char>| !is_installed(self@, x)),
                None => r matches Err(e) && is_cycle_report(self@, mod_id@, e),
            },
    {
        let all = match self.collect_requirements(mod_id) {
            Ok(v) => v,
            Err(e) => {
                return Err(e);
            },
        };
        let mut missing: Vec<String> = Vec::new();
        let n = all.len();
        for i in 0..n
            invariant
                n == all.len(),
                strings_view(all@).no_duplicates(),
                strings_view(missing@).no_duplicates(),
                forall|x: Seq<char>| #[trigger] strings_view(missing@).contains(x) <==> (strings_view(
                    all@,
                ).take(i as int).contains(x) && !is_installed(self@, x)),
        {
            let ghost before = strings_view(missing@);
            let ghost av = strings_view(all@);
            proof {
                assert(av.take(i + 1) =~= av.take(i as int).push(av[i as int]));
                assert forall|x: Seq<char>| #[trigger] av.take(i + 1).contains(x) <==> (av.take(i as int).contains(x) || x == av[i as int]) by {
                    vstd::seq_lib::lemma_seq_contains_after_push(av.take(i as int), av[i as int], x);
                }
            }
            if !self.is_mod_installed(&all[i]) {
                missing.push(all[i].clone());
                proof {
                    assert(strings_view(missing@) =~= before.push(av[i as int]));
                    assert forall|x: Seq<char>| #[trigger] strings_view(missing@).contains(x) <==> (before.contains(x) || x == av[i as int]) by {
                        vstd::seq_lib::lemma_seq_contains_after_push(before, av[i as int], x);
                    }
                    assert(!av.take(i as int).contains(av[i as int])) by {
                        if av.take(i as int).contains(av[i as int]) {
                            let k = choose|k: int| 0 <= k < i && av.take(i as int)[k] == av[i as int];
                            assert(av[k] == av[i as int]);
                        }
                    }
                    lemma_push_no_dup(before, av[i as int]);
                }
            }
        }
        proof {
            let av = strings_view(all@);
            assert(av.take(n as int) =~= av);
            let ghost found = av.to_set();
            assert(strings_view(missing@).to_set() =~= found.filter(|x: Seq<char>| !is_installed(self@, x)));
        }
        Ok(missing)
    }

    /// Same as `missing_requirements`: the missing ids, empty when every
    /// requirement is installed.
    pub fn check_dependencies(&self, mod_id: &String) -> (r: Result<Vec<String>, AppError>)
        ensures
            match requirements_of(self@, mod_id@) {
                Some(found) => r matches Ok(v) && strings_view(v@).no_duplicates() && strings_view(v@).to_set()
                    == found.filter(|x: Seq<char>| !is_installed(self@, x)),
                None => r matches Err(e) && is_cycle_report(self@, mod_id@, e),
            },
    {
        self.missing_requirements(mod_id)
    }

    /// Checks that none of `mod_ids` depends on a cycle of requirements; fails,
    /// naming a mod on the cycle, for the first one that does.
    pub fn check_circular_dependencies(&self, mod_ids: &Vec<String>) -> (r: Result<(), AppError>)
        ensures
            r is Ok <==> none_on_cycle(self@, strings_view(mod_ids@)),
            r matches Err(e) ==> exists|k: int, x: Seq<char>|
                first_on_cycle(self@, strings_view(mod_ids@), k, x) && is_circular(e, x),
    {
        let ghost ids = strings_view(mod_ids@);
        let n = mod_ids.len();
        for i in 0..n
            invariant
                n == mod_ids.len(),
                ids == strings_view(mod_ids@),
                forall|j: int| 0 <= j < i ==> (#[trigger] requirements_of(self@, ids[j])) is Some,
        {
            match self.collect_requirements(&mod_ids[i]) {
                Ok(_) => {},
                Err(e) => {
                    proof {
                        let x = choose|x: Seq<char>| #[trigger] on_cycle_from(self@, ids[i as int], x) && is_circular(e, x);
                        assert(first_on_cycle(self@, ids, i as int, x));
                    }
                    return Err(e);
                },
            }
        }
        Ok(())
    }

    /// The requirement graph of `mod_ids`: each id with the ids among `mod_ids`
    /// that it requires, directly or not. Fails for the first id that depends on
    /// a cycle of requirements.
    pub fn requirement_graph(&self, mod_ids: &Vec<String>) -> (r: Result<RequirementGraph, AppError>)
        ensures
            r is Ok <==> none_on_cycle(self@, strings_view(mod_ids@)),
            r matches Ok(g) ==> is_graph_for(self@, strings_view(mod_ids@), g@),
            r matches Err(e) ==> exists|k: int, x: Seq<char>|
                first_on_cycle(self@, strings_view(mod_ids@), k, x) && is_circular(e, x),
    {
        let ghost ids = strings_view(mod_ids@);
        let mut graph = RequirementGraph::new();
        let n = mod_ids.len();
        for i in 0..n
            invariant
                n == mod_ids.len(),
                ids == strings_view(mod_ids@),
                forall|j: int| 0 <= j < i ==> (#[trigger] requirements_of(self@, ids[j])) is Some,
                forall|x: Seq<char>| #[trigger] graph@.dom().contains(x) <==> ids.take(i as int).contains(x),
                forall|x: Seq<char>| #[trigger] graph@.dom().contains(x) ==> graph_entry_for(self@, ids, graph@[x], x),
        {
            let found = match self.collect_requirements(&mod_ids[i]) {
                Ok(v) => v,
                Err(e) => {
                    proof {
                        let x = choose|x: Seq<char>| #[trigger] on_cycle_from(self@, ids[i as int], x) && is_circular(e, x);
                        assert(first_on_cycle(self@, ids, i as int, x));
                    }
                    return Err(e);
                },
            };
            let mut within: Vec<String> = Vec::new();
            let k = found.len();
            for j in 0..k
                invariant
                    k == found.len(),
                    ids == strings_view(mod_ids@),
                    strings_view(found@).no_duplicates(),
                    strings_view(within@).no_duplicates(),
                    forall|x: Seq<char>| #[trigger] strings_view(within@).contains(x) <==> (strings_view(
                        found@,
                    ).take(j as int).contains(x) && ids.contains(x)),
            {
                let ghost before = strings_view(within@);
                let ghost fv = strings_view(found@);
                proof {
                    assert(fv.take(j + 1) =~= fv.take(j as int).push(fv[j as int]));
                    assert forall|x: Seq<char>| #[trigger] fv.take(j + 1).contains(x) <==> (fv.take(j as int).contains(x) || x == fv[j as int]) by {
                        vstd::seq_lib::lemma_seq_contains_after_push(fv.take(j as int), fv[j as int], x);
                    }
                }
                if contains_string(mod_ids, &found[j]) {
                    within.push(found[j].clone());
                    proof {
                        assert(strings_view(within@) =~= before.push(fv[j as int]));
                        assert forall|x: Seq<char>| #[trigger] strings_view(within@).contains(x) <==> (before.contains(x) || x == fv[j as int]) by {
                            vstd::seq_lib::lemma_seq_contains_after_push(before, fv[j as int], x);
                        }
                        assert(!fv.take(j as int).contains(fv[j as int])) by {
                            if fv.take(j as int).contains(fv[j as int]) {
                                let q = choose|q: int| 0 <= q < j && fv.take(j as int)[q] == fv[j as int];
                                assert(fv[q] == fv[j as int]);
                            }
                        }
                        lemma_push_no_dup(before, fv[j as int]);
                    }
                }
            }
            let ghost before_graph = graph@;
            proof {
                let fv = strings_view(found@);
                assert(fv.take(k as int) =~= fv);
                assert(strings_view(within@).to_set() =~= fv.to_set().filter(|y: Seq<char>| ids.contains(y)));
                assert(graph_entry_for(self@, ids, strings_view(within@), ids[i as int]));
            }
            graph.insert(mod_ids[i].clone(), within);
            proof {
                assert(ids.take(i + 1) =~= ids.take(i as int).push(ids[i as int]));
                assert forall|x: Seq<char>| #[trigger] ids.take(i + 1).contains(x) <==> (ids.take(i as int).contains(x) || x == ids[i as int]) by {
                    vstd::seq_lib::lemma_seq_contains_after_push(ids.take(i as int), ids[i as int], x);
                }
            }
        }
        proof {
            assert(ids.take(n as int) =~= ids);
        }
        Ok(graph)
    }
}

/// What the graph built for `ids` says matches what the requirements say.
pub proof fn lemma_graph_for(m: DbView, ids: Seq<Seq<char>>, g: Map<Seq<char>, Seq<Seq<char>>>)
    requires
        is_graph_for(m, ids, g),
    ensures
        has_requirement_cycle(g) <==> has_dependency_cycle(m, ids),
        forall|o: Seq<Seq<char>>| is_load_order(g, o) ==> is_dependency_order(m, ids, o),
{
    assert forall|x: Seq<char>, y: Seq<char>| g.dom().contains(x) implies (g[x].contains(y) && g.dom().contains(y)
        <==> #[trigger] requires_within(m, ids, x, y)) by {
        assert(graph_entry_for(m, ids, g[x], x));
        assert(g[x].to_set().contains(y) == g[x].contains(y));
    }
    if has_requirement_cycle(g) {
        let s = choose|s: Set<Seq<char>>| crate::load_order::is_requirement_cycle(g, s);
        assert forall|x: Seq<char>| s.contains(x) implies #[trigger] requires_member_of(m, ids, s, x) by {
            assert(crate::load_order::requires_one_of(g, s, x));
            let a = choose|a: int| 0 <= a < g[x].len() && s.contains(g[x][a]);
            let y = g[x][a];
            assert(g[x].contains(y));
            assert(requires_within(m, ids, x, y));
        }
        assert(is_dependency_cycle(m, ids, s));
    }
    if has_dependency_cycle(m, ids) {
        let s = choose|s: Set<Seq<char>>| is_dependency_cycle(m, ids, s);
        assert forall|x: Seq<char>| s.contains(x) implies #[trigger] crate::load_order::requires_one_of(g, s, x) by {
            assert(requires_member_of(m, ids, s, x));
            let y = choose|y: Seq<char>| s.contains(y) && requires_within(m, ids, x, y);
            assert(g.dom().contains(x));
            assert(g[x].contains(y));
            let a = choose|a: int| 0 <= a < g[x].len() && g[x][a] == y;
        }
        assert(crate::load_order::is_requirement_cycle(g, s));
    }
    assert forall|o: Seq<Seq<char>>| is_load_order(g, o) implies is_dependency_order(m, ids, o) by {
        assert forall|p: int, y: Seq<char>|
            0 <= p < o.len() && #[trigger] requires_within(m, ids, o[p], y) implies name_listed_before(o, p, y) by {
            assert(o.contains(o[p]));
            assert(g.dom().contains(o[p]));
            assert(g[o[p]].contains(y));
            let a = choose|a: int| 0 <= a < g[o[p]].len() && g[o[p]][a] == y;
            assert(g.dom().contains(g[o[p]][a]));
        }
    }
}

impl DependencySnapshot {
    /// Orders `mod_ids` so that each comes after every id among them that it
    /// requires, directly or not. Fails, naming a mod on the cycle, exactly when
    /// one of them depends on a cycle of requirements.
    pub fn resolve_dependency_order(&self, mod_ids: Vec<String>) -> (r: Result<Vec<String>, AppError>)
        ensures
            r is Ok <==> none_on_cycle(self@, strings_view(mod_ids@)),
            r matches Ok(o) ==> is_dependency_order(self@, strings_view(mod_ids@), strings_view(o@)),
            r matches Err(e) ==> exists|k: int, x: Seq<char>|
                first_on_cycle(self@, strings_view(mod_ids@), k, x) && is_circular(e, x),
    {
        let graph = match self.requirement_graph(&mod_ids) {
            Ok(g) => g,
            Err(e) => {
                return Err(e);
            },
        };
        proof {
            lemma_graph_for(self@, strings_view(mod_ids@), graph@);
            law_checked_mods_have_no_cycle(self, strings_view(mod_ids@));
        }
        topo_sort(&graph)
    }

    /// Assigns load order positions: `mod_ids` in dependency order, each paired
    /// with its position. Fails as `resolve_dependency_order` does.
    pub fn assign_load_order(&self, mod_ids: Vec<String>) -> (r: Result<Vec<(String, i32)>, AppError>)
        ensures
            r is Ok <==> none_on_cycle(self@, strings_view(mod_ids@)),
            r matches Ok(pairs) ==> is_dependency_order(
                self@,
                strings_view(mod_ids@),
                pairs@.map_values(|p: (String, i32)| p.0@),
            ) && forall|i: int| 0 <= i < pairs@.len() ==> (#[trigger] pairs@[i]).1 == i as i32,
            r matches Err(e) ==> exists|k: int, x: Seq<char>|
                first_on_cycle(self@, strings_view(mod_ids@), k, x) && is_circular(e, x),
    {
        let ghost ids = strings_view(mod_ids@);
        let sorted = match self.resolve_dependency_order(mod_ids) {
            Ok(o) => o,
            Err(e) => {
                return Err(e);
            },
        };
        let mut pairs: Vec<(String, i32)> = Vec::new();
        let n = sorted.len();
        for i in 0..n
            invariant
                n == sorted.len(),
                pairs@.len() == i,
                forall|k: int| 0 <= k < i ==> (#[trigger] pairs@[k]).0@ == sorted@[k]@ && pairs@[k].1 == k as i32,
        {
            #[verifier::truncate]
            let pos = i as i32;
            pairs.push((sorted[i].clone(), pos));
        }
        proof {
            assert(pairs@.map_values(|p: (String, i32)| p.0@) =~= strings_view(sorted@));
        }
        Ok(pairs)
    }
}

/// What is known of a mod's requirements: the ones stored for it and the ones
/// (direct or transitive) that are not installed.
#[derive(Debug, Clone)]
pub struct DependencyInfo {
    pub mod_id: String,
    pub required_mods: Vec<String>,
    pub missing_mods: Vec<String>,
}

/// The requirements stored for `id`: none when the database does not know it.
pub open spec fn stored_requirements(m: DbView, id: Seq<char>) -> Seq<Seq<char>> {
    if m.dom().contains(id) {
        m[id].0
    } else {
        Seq::empty()
    }
}

/// The ids among the requirements found that are not installed.
pub open spec fn missing_among(m: DbView, found: Set<Seq<char>>) -> Set<Seq<char>> {
    found.filter(|x: Seq<char>| !is_installed(m, x))
}

fn copy_strings(v: &Vec<String>) -> (r: Vec<String>)
    ensures
        strings_view(r@) == strings_view(v@),
{
    let mut out: Vec<String> = Vec::new();
    let n = v.len();
    for i in 0..n
        invariant
            n == v.len(),
            out@.len() == i,
            forall|k: int| 0 <= k < i ==> (#[trigger] out@[k])@ == v@[k]@,
    {
        out.push(v[i].clone());
    }
    proof {
        assert(strings_view(out@) =~= strings_view(v@));
    }
    out
}

proof fn lemma_empty_iff_no_elements(v: Seq<Seq<char>>)
    ensures
        v.len() == 0 <==> v.to_set().is_empty(),
{
    if v.len() > 0 {
        assert(v.to_set().contains(v[0]));
    } else {
        assert(v.to_set() =~= Set::<Seq<char>>::empty());
    }
}

impl DependencySnapshot {
    /// The stored and the missing requirements of `mod_id`; fails as
    /// `missing_requirements` does.
    pub fn get_dependency_info(&self, mod_id: &String) -> (r: Result<DependencyInfo, AppError>)
        ensures
            match requirements_of(self@, mod_id@) {
                Some(found) => r matches Ok(info) && info.mod_id@ == mod_id@ && strings_view(info.required_mods@)
                    == stored_requirements(self@, mod_id@) && strings_view(info.missing_mods@).no_duplicates()
                    && strings_view(info.missing_mods@).to_set() == missing_among(self@, found),
                None => r matches Err(e) && is_cycle_report(self@, mod_id@, e),
            },
    {
        let missing = match self.missing_requirements(mod_id) {
            Ok(v) => v,
            Err(e) => {
                return Err(e);
            },
        };
        let required = match self.lookup(mod_id) {
            Some(v) => copy_strings(v),
            None => {
                let empty: Vec<String> = Vec::new();
                proof {
                    assert(strings_view(empty@) =~= Seq::<Seq<char>>::empty());
                }
                empty
            },
        };
        Ok(DependencyInfo { mod_id: mod_id.clone(), required_mods: required, missing_mods: missing })
    }

    /// The status `mod_id` gets after its requirements are checked: `Enabled`
    /// when all are installed, else `PendingRequirements`. Fails as
    /// `missing_requirements` does.
    pub fn update_mod_status(&self, mod_id: &String) -> (r: Result<InstallStatus, AppError>)
        ensures
            match requirements_of(self@, mod_id@) {
                Some(found) => r == Ok::<InstallStatus, AppError>(
                    if missing_among(self@, found).is_empty() {
                        InstallStatus::Enabled
                    } else {
                        InstallStatus::PendingRequirements
                    },
                ),
                None => r matches Err(e) && is_cycle_report(self@, mod_id@, e),
            },
    {
        let missing = match self.missing_requirements(mod_id) {
            Ok(v) => v,
            Err(e) => {
                return Err(e);
            },
        };
        proof {
            lemma_empty_iff_no_elements(strings_view(missing@));
        }
        if missing.len() == 0 {
            Ok(InstallStatus::Enabled)
        } else {
            Ok(InstallStatus::PendingRequirements)
        }
    }

    /// The status change that installing the missing requirements of `mod_id`
    /// starts with: none when nothing is missing, else `PendingRequirements`.
    /// Fails as `missing_requirements` does.
    pub fn install_missing_dependencies(&self, mod_id: &String) -> (r: Result<Option<InstallStatus>, AppError>)
        ensures
            match requirements_of(self@, mod_id@) {
                Some(found) => r == Ok::<Option<InstallStatus>, AppError>(
                    if missing_among(self@, found).is_empty() {
                        None
                    } else {
                        Some(InstallStatus::PendingRequirements)
                    },
                ),
                None => r matches Err(e) && is_cycle_report(self@, mod_id@, e),
            },
    {
        let missing = match self.missing_requirements(mod_id) {
            Ok(v) => v,
            Err(e) => {
                return Err(e);
            },
        };
        proof {
            lemma_empty_iff_no_elements(strings_view(missing@));
        }
        if missing.len() == 0 {
            Ok(None)
        } else {
            Ok(Some(InstallStatus::PendingRequirements))
        }
    }
}

// ---------------------------------------------------------------------------
// Mods that depend on no cycle hold no cycle among them
// ---------------------------------------------------------------------------

/// No member of a dependency cycle among `ids` exists when none of `ids`
/// depends on a cycle of requirements.
proof fn lemma_no_cycle_member(snap: &DependencySnapshot, ids: Seq<Seq<char>>, s: Set<Seq<char>>, x: Seq<char>)
    requires
        none_on_cycle(snap@, ids),
        is_dependency_cycle(snap@, ids, s),
    ensures
        !s.contains(x),
    decreases reachable_from(snap@, x).len(),
{
    let m = snap@;
    if s.contains(x) {
        assert(ids.contains(x));
        let k = choose|k: int| 0 <= k < ids.len() && ids[k] == x;
        assert(requirements_of(m, ids[k]) is Some);
        assert(requires_member_of(m, ids, s, x));
        let y = choose|y: Seq<char>| s.contains(y) && requires_within(m, ids, x, y);
        assert(ids.contains(y));
        let ky = choose|k: int| 0 <= k < ids.len() && ids[k] == y;
        assert(requirements_of(m, ids[ky]) is Some);
        let fx = reachable_from(m, x);
        let fy = reachable_from(m, y);
        assert(reaches(m, x, y));
        assert forall|z: Seq<char>| #[trigger] fy.contains(z) implies fx.remove(y).contains(z) by {
            lemma_reaches_trans(m, x, y, z);
            if z == y {
                assert(on_cycle_from(m, x, y));
            }
        }
        snap.lemma_direct_listed(x);
        assert forall|z: Seq<char>| #[trigger] snap.listed().contains(z) implies direct_requirements(m, z).subset_of(
            snap.listed(),
        ) by {
            snap.lemma_direct_listed(z);
        }
        lemma_closed_holds_reachable(m, x, snap.listed());
        lemma_set_subset_finite(snap.listed(), fx);
        lemma_len_subset(fy, fx.remove(y));
        lemma_no_cycle_member(snap, ids, s, y);
    }
}

/// When none of a list of mods depends on a cycle of requirements (the
/// circular-requirement check passes for them), no set of them requires one
/// another in a cycle, so ordering them succeeds.
pub proof fn law_checked_mods_have_no_cycle(snap: &DependencySnapshot, ids: Seq<Seq<char>>)
    requires
        none_on_cycle(snap@, ids),
    ensures
        !has_dependency_cycle(snap@, ids),
{
    if has_dependency_cycle(snap@, ids) {
        let s = choose|s: Set<Seq<char>>| is_dependency_cycle(snap@, ids, s);
        let x = choose|x: Seq<char>| s.contains(x);
        lemma_no_cycle_member(snap, ids, s, x);
    }
}

} // verus!
