//! The build graph of dependency packages: each package with its direct
//! dependencies, and the order to build them in.

use vstd::prelude::*;
use crate::ident::str_eq;
use crate::package::PackageId;
use crate::sort::{sort_strings, sort_strs, string_views};
use crate::text::string_of_str;

verus! {

/// A package and its direct dependencies, by name.
pub type AdjView = Seq<(Seq<char>, Seq<Seq<char>>)>;

pub open spec fn names_of(adj: AdjView) -> Seq<Seq<char>> {
    adj.map_values(|e: (Seq<char>, Seq<Seq<char>>)| e.0)
}

/// Whether every name in `deps` is in `done`.
pub open spec fn all_in(deps: Seq<Seq<char>>, done: Set<Seq<char>>) -> bool {
    forall|k: int| 0 <= k < deps.len() ==> done.contains(#[trigger] deps[k])
}

/// The packages, in graph order, not built yet whose dependencies all are.
pub open spec fn ready(adj: AdjView, done: Set<Seq<char>>) -> Seq<Seq<char>>
    decreases adj.len(),
{
    if adj.len() == 0 {
        Seq::empty()
    } else {
        let rest = ready(adj.drop_last(), done);
        let e = adj.last();
        if !done.contains(e.0) && all_in(e.1, done) {
            rest.push(e.0)
        } else {
            rest
        }
    }
}

/// How many packages are not built yet.
pub open spec fn undone(adj: AdjView, done: Set<Seq<char>>) -> nat
    decreases adj.len(),
{
    if adj.len() == 0 {
        0
    } else {
        undone(adj.drop_last(), done) + if done.contains(adj.last().0) {
            0nat
        } else {
            1nat
        }
    }
}

/// Building more packages leaves no more of them to build, and strictly
/// fewer when one of the newly built was not built yet.
pub proof fn lemma_undone_shrinks(adj: AdjView, done: Set<Seq<char>>, more: Set<Seq<char>>)
    requires
        done.subset_of(more),
    ensures
        undone(adj, more) <= undone(adj, done),
        (exists|i: int| 0 <= i < adj.len() && !done.contains(#[trigger] adj[i].0) && more.contains(adj[i].0))
            ==> undone(adj, more) < undone(adj, done),
    decreases adj.len(),
{
    if adj.len() > 0 {
        lemma_undone_shrinks(adj.drop_last(), done, more);
        if exists|i: int| 0 <= i < adj.len() && !done.contains(#[trigger] adj[i].0) && more.contains(adj[i].0) {
            let i = choose|i: int| 0 <= i < adj.len() && !done.contains(#[trigger] adj[i].0) && more.contains(adj[i].0);
            if i < adj.len() - 1 {
                assert(adj.drop_last()[i] == adj[i]);
            }
        }
    }
}

/// A package is ready exactly when it is not built yet and every package
/// it depends on is.
pub proof fn lemma_ready_member(adj: AdjView, done: Set<Seq<char>>, x: Seq<char>)
    ensures
        ready(adj, done).contains(x) <==> exists|i: int|
            0 <= i < adj.len() && #[trigger] adj[i].0 == x && !done.contains(x) && all_in(adj[i].1, done),
    decreases adj.len(),
{
    if adj.len() > 0 {
        let d = adj.drop_last();
        let e = adj.last();
        let n = adj.len() - 1;
        lemma_ready_member(d, done, x);
        assert forall|i: int| 0 <= i < d.len() implies #[trigger] d[i] == adj[i] by {}
        let rd = ready(d, done);
        let cond = !done.contains(e.0) && all_in(e.1, done);
        if ready(adj, done).contains(x) {
            let k = choose|k: int| 0 <= k < ready(adj, done).len() && ready(adj, done)[k] == x;
            if cond && k == rd.len() {
                assert(adj[n].0 == x);
            } else {
                assert(rd[k] == x);
                assert(rd.contains(x));
                let i = choose|i: int| 0 <= i < d.len() && #[trigger] d[i].0 == x && !done.contains(x) && all_in(d[i].1, done);
                assert(adj[i].0 == x);
            }
        }
        if exists|i: int| 0 <= i < adj.len() && #[trigger] adj[i].0 == x && !done.contains(x) && all_in(adj[i].1, done) {
            let i = choose|i: int| 0 <= i < adj.len() && #[trigger] adj[i].0 == x && !done.contains(x) && all_in(adj[i].1, done);
            if i < n {
                assert(d[i].0 == x);
                assert(rd.contains(x));
                let k = choose|k: int| 0 <= k < rd.len() && rd[k] == x;
                if cond {
                    assert(ready(adj, done)[k] == x);
                } else {
                    assert(ready(adj, done)[k] == x);
                }
            } else {
                assert(cond);
                assert(ready(adj, done)[rd.len() as int] == x);
            }
        }
    }
}

/// Building every ready package leaves strictly fewer to build: while
/// some package is ready, the build order makes progress.
pub proof fn lemma_ready_advances(adj: AdjView, done: Set<Seq<char>>)
    requires
        ready(adj, done).len() > 0,
    ensures
        undone(adj, done.union(ready(adj, done).to_set())) < undone(adj, done),
{
    let r = ready(adj, done);
    let x = r[0];
    assert(r.contains(x));
    lemma_ready_member(adj, done, x);
    let i = choose|i: int| 0 <= i < adj.len() && #[trigger] adj[i].0 == x && !done.contains(x) && all_in(adj[i].1, done);
    assert(r.to_set().contains(x));
    lemma_undone_shrinks(adj, done, done.union(r.to_set()));
}

/// The batches of the build after `done` are built: each batch is what is
/// ready once the earlier ones are built. Packages in one batch do not
/// depend on each other. If packages are left that never become ready (a
/// cycle, or a dependency on one of them), there is no order.
pub open spec fn batches_from(adj: AdjView, done: Set<Seq<char>>) -> Result<Seq<Seq<Seq<char>>>, ()>
    decreases undone(adj, done),
{
    let r = ready(adj, done);
    if r.len() == 0 {
        if undone(adj, done) == 0 {
            Ok(Seq::empty())
        } else {
            Err(())
        }
    } else {
        proof {
            lemma_ready_advances(adj, done);
        }
        match batches_from(adj, done.union(r.to_set())) {
            Ok(rest) => Ok(seq![r] + rest),
            Err(e) => Err(e),
        }
    }
}

/// The position of the first `name` in `names`.
pub open spec fn index_of_name(names: Seq<Seq<char>>, name: Seq<char>) -> Option<int>
    decreases names.len(),
{
    if names.len() == 0 {
        None
    } else if names[0] == name {
        Some(0)
    } else {
        match index_of_name(names.drop_first(), name) {
            Some(i) => Some(i + 1),
            None => None,
        }
    }
}

/// The set of built packages, from a flag per package.
pub open spec fn done_set(adj: AdjView, done: Seq<bool>) -> Set<Seq<char>> {
    Set::new(|s: Seq<char>| exists|j: int| 0 <= j < adj.len() && j < done.len() && done[j] && #[trigger] adj[j].0 == s)
}

/// The build graph of the dependency packages: each package with the names
/// of its direct dependencies. Every package appears once.
pub struct DepGraph {
    adjacency: Vec<(String, Vec<String>)>,
}

pub open spec fn entry_view(e: (String, Vec<String>)) -> (Seq<char>, Seq<Seq<char>>) {
    (e.0@, string_views(e.1@))
}

impl View for DepGraph {
    type V = AdjView;

    closed spec fn view(&self) -> AdjView {
        self.adjacency@.map_values(|e: (String, Vec<String>)| entry_view(e))
    }
}

impl DepGraph {
    /// Every package appears once.
    pub open spec fn wf(&self) -> bool {
        names_of(self@).no_duplicates()
    }

    /// Whether `d` is the name of a built package.
    fn is_done(&self, done: &Vec<bool>, d: &str) -> (r: bool)
        requires
            done@.len() == self@.len(),
        ensures
            r == done_set(self@, done@).contains(d@),
    {
        let mut j: usize = 0;
        while j < self.adjacency.len()
            invariant
                j <= self@.len(),
                done@.len() == self@.len(),
                forall|k: int| 0 <= k < j ==> !(done@[k] && #[trigger] self@[k].0 == d@),
            decreases self@.len() - j,
        {
            assert(self@[j as int].0 == self.adjacency@[j as int].0@);
            if done[j] && str_eq(self.adjacency[j].0.as_str(), d) {
                return true;
            }
            j = j + 1;
        }
        false
    }

    /// Whether every dependency of package `i` is built.
    fn deps_done(&self, done: &Vec<bool>, i: usize) -> (r: bool)
        requires
            done@.len() == self@.len(),
            i < self@.len(),
        ensures
            r == all_in(self@[i as int].1, done_set(self@, done@)),
    {
        let deps = &self.adjacency[i].1;
        let ghost dv = self@[i as int].1;
        assert(dv == string_views(deps@));
        let mut k: usize = 0;
        while k < deps.len()
            invariant
                k <= deps@.len(),
                i < self@.len(),
                dv == self@[i as int].1,
                dv == string_views(deps@),
                done@.len() == self@.len(),
                forall|m: int| 0 <= m < k ==> done_set(self@, done@).contains(#[trigger] dv[m]),
            decreases deps@.len() - k,
        {
            assert(dv[k as int] == deps@[k as int]@);
            let ok = self.is_done(done, deps[k].as_str());
            if !ok {
                assert(!done_set(self@, done@).contains(dv[k as int]));
                assert(!all_in(dv, done_set(self@, done@)));
                return false;
            }
            k = k + 1;
        }
        true
    }

    /// The names of all packages of the graph, sorted. The graph is the
    /// transitive closure of the root's dependencies, and package ids are
    /// given in this order, so the order must not depend on anything else.
    pub fn all_packages(&self) -> (r: Vec<String>)
        ensures
            string_views(r@) == sort_strs(names_of(self@)),
    {
        let mut names: Vec<String> = Vec::new();
        let mut i: usize = 0;
        while i < self.adjacency.len()
            invariant
                i <= self@.len(),
                string_views(names@) == names_of(self@).take(i as int),
            decreases self@.len() - i,
        {
            let ghost before = names@;
            names.push(self.adjacency[i].0.clone());
            assert(self@[i as int].0 == self.adjacency@[i as int].0@);
            assert(string_views(names@) =~= string_views(before).push(self@[i as int].0));
            assert(names_of(self@).take(i + 1) =~= names_of(self@).take(i as int).push(self@[i as int].0));
            assert(string_views(names@) =~= names_of(self@).take(i + 1));
            i = i + 1;
        }
        assert(names_of(self@).take(self@.len() as int) =~= names_of(self@));
        sort_strings(names)
    }

    /// The id of a package of the graph: the first one not reserved, plus
    /// the package's position among all packages.
    pub fn pkg_id(&self, name: &str) -> (r: Option<PackageId>)
        requires
            self@.len() + 2 <= u32::MAX,
        ensures
            match index_of_name(sort_strs(names_of(self@)), name@) {
                Some(i) => r == Some(PackageId((PackageId::unreserved_package_min() + i) as u32)),
                None => r is None,
            },
    {
        let all = self.all_packages();
        proof {
            crate::sort::lemma_sort_strs_len(names_of(self@));
        }
        let ghost sv = string_views(all@);
        let mut i: usize = 0;
        assert(sv.skip(0) =~= sv);
        while i < all.len()
            invariant
                i <= all@.len(),
                sv == string_views(all@),
                sv == sort_strs(names_of(self@)),
                all@.len() + 2 <= u32::MAX,
                index_of_name(sv, name@) == match index_of_name(sv.skip(i as int), name@) {
                    Some(k) => Some(k + i),
                    None => None::<int>,
                },
            decreases all@.len() - i,
        {
            proof {
                let rest = sv.skip(i as int);
                assert(rest[0] == all@[i as int]@);
                assert(rest.drop_first() =~= sv.skip(i + 1));
            }
            if str_eq(all[i].as_str(), name) {
                assert(index_of_name(sv, name@) == Some(i as int));
                return Some(PackageId::new(2 + i as u32));
            }
            i = i + 1;
        }
        None
    }

    /// The position of `name` in the graph.
    fn find(&self, name: &str) -> (r: Option<usize>)
        requires
            self.wf(),
        ensures
            match r {
                Some(i) => i < self@.len() && self@[i as int].0 == name@ && index_of_name(names_of(self@), name@) == Some(i as int),
                None => !names_of(self@).contains(name@) && index_of_name(names_of(self@), name@) is None,
            },
    {
        let mut i: usize = 0;
        while i < self.adjacency.len()
            invariant
                self.wf(),
                i <= self@.len(),
                forall|k: int| 0 <= k < i ==> #[trigger] names_of(self@)[k] != name@,
            decreases self@.len() - i,
        {
            assert(self@[i as int].0 == self.adjacency@[i as int].0@);
            if str_eq(self.adjacency[i].0.as_str(), name) {
                proof {
                    lemma_index_of_name(names_of(self@), name@, i as int);
                }
                return Some(i);
            }
            i = i + 1;
        }
        proof {
            assert(!names_of(self@).contains(name@)) by {
                if names_of(self@).contains(name@) {
                    let k = choose|k: int| 0 <= k < names_of(self@).len() && names_of(self@)[k] == name@;
                    assert(names_of(self@)[k] != name@);
                }
            }
            lemma_index_of_name_none(names_of(self@), name@);
        }
        None
    }

    /// Marks the packages among `deps` that are in the graph, and queues
    /// those not marked before.
    fn mark_deps(
        &self,
        deps: &Vec<String>,
        marked: &mut Vec<bool>,
        work: &mut Vec<usize>,
        Ghost(from): Ghost<Seq<char>>,
        Ghost(start): Ghost<Seq<char>>,
    )
        requires
            self.wf(),
            old(marked)@.len() == self@.len(),
            string_views(deps@) == deps_of(self@, from),
            from == start || depends_on(self@, start, from),
            forall|j: int| 0 <= j < self@.len() && #[trigger] old(marked)@[j] ==> depends_on(self@, start, self@[j].0),
            forall|k: int| 0 <= k < old(work)@.len() ==> (#[trigger] old(work)@[k]) < self@.len() && old(marked)@[old(work)@[k] as int],
            old(work)@.no_duplicates(),
        ensures
            final(marked)@.len() == self@.len(),
            forall|j: int| 0 <= j < self@.len() && #[trigger] final(marked)@[j] ==> depends_on(self@, start, self@[j].0),
            forall|j: int| 0 <= j < self@.len() && old(marked)@[j] ==> #[trigger] final(marked)@[j],
            forall|k: int| 0 <= k < final(work)@.len() ==> (#[trigger] final(work)@[k]) < self@.len() && final(marked)@[final(work)@[k] as int],
            final(work)@.no_duplicates(),
            forall|j: int| 0 <= j < self@.len() && #[trigger] final(marked)@[j] && !old(marked)@[j] ==> final(work)@.contains(j as usize),
            forall|x: usize| #[trigger] old(work)@.contains(x) ==> final(work)@.contains(x),
            forall|x: usize| #[trigger] final(work)@.contains(x) && !old(work)@.contains(x) ==> !old(marked)@[x as int],
            unmarked(final(marked)@) + final(work)@.len() == unmarked(old(marked)@) + old(work)@.len(),
            final(work)@.len() >= old(work)@.len(),
            forall|d: Seq<char>| #[trigger] deps_of(self@, from).contains(d) && names_of(self@).contains(d) ==> final(marked)@[
                index_of_name(names_of(self@), d)->0],
    {
        let ghost dv = string_views(deps@);
        let mut i: usize = 0;
        while i < deps.len()
            invariant
                self.wf(),
                i <= deps@.len(),
                dv == string_views(deps@),
                dv == deps_of(self@, from),
                marked@.len() == self@.len(),
                from == start || depends_on(self@, start, from),
                forall|j: int| 0 <= j < self@.len() && #[trigger] marked@[j] ==> depends_on(self@, start, self@[j].0),
                forall|j: int| 0 <= j < self@.len() && old(marked)@[j] ==> #[trigger] marked@[j],
                forall|k: int| 0 <= k < work@.len() ==> (#[trigger] work@[k]) < self@.len() && marked@[work@[k] as int],
                work@.no_duplicates(),
                forall|j: int| 0 <= j < self@.len() && #[trigger] marked@[j] && !old(marked)@[j] ==> work@.contains(j as usize),
                forall|x: usize| #[trigger] old(work)@.contains(x) ==> work@.contains(x),
                forall|x: usize| #[trigger] work@.contains(x) && !old(work)@.contains(x) ==> !old(marked)@[x as int],
                unmarked(marked@) + work@.len() == unmarked(old(marked)@) + old(work)@.len(),
                work@.len() >= old(work)@.len(),
                forall|e: int| 0 <= e < i && names_of(self@).contains(#[trigger] dv[e]) ==> marked@[index_of_name(names_of(self@), dv[e])->0],
            decreases deps@.len() - i,
        {
            assert(dv[i as int] == deps@[i as int]@);
            let ghost m0 = marked@;
            match self.find(deps[i].as_str()) {
                None => {},
                Some(j) => {
                    if !marked[j] {
                        proof {
                            let to = self@[j as int].0;
                            assert(deps_of(self@, from).contains(to)) by {
                                assert(dv[i as int] == to);
                            }
                            if from == start {
                                let p = seq![start, to];
                                assert(dep_path(self@, p));
                            } else {
                                let p = choose|p: Seq<Seq<char>>| #[trigger] dep_path(self@, p) && p[0] == start && p.last() == from;
                                let q = p.push(to);
                                assert forall|k: int| 0 <= k < q.len() - 1 implies deps_of(self@, #[trigger] q[k]).contains(q[k + 1]) by {
                                    if k < p.len() - 1 {
                                        assert(q[k] == p[k] && q[k + 1] == p[k + 1]);
                                    } else {
                                        assert(q[k] == from && q[k + 1] == to);
                                    }
                                }
                                assert(dep_path(self@, q));
                            }
                            lemma_unmarked_set(marked@, j as int);
                            assert(!work@.contains(j)) by {
                                if work@.contains(j) {
                                    let k = choose|k: int| 0 <= k < work@.len() && work@[k] == j;
                                    assert(marked@[work@[k] as int]);
                                }
                            }
                        }
                        let ghost wb = work@;
                        marked.set(j, true);
                        work.push(j);
                        proof {
                            assert(work@.no_duplicates()) by {
                                assert forall|a: int, b: int| 0 <= a < b < work@.len() implies work@[a] != work@[b] by {
                                    if b == work@.len() - 1 {
                                        assert(wb.contains(work@[a]));
                                    } else {
                                        assert(work@[a] == wb[a] && work@[b] == wb[b]);
                                    }
                                }
                            }
                            assert forall|x: usize| #[trigger] old(work)@.contains(x) implies work@.contains(x) by {
                                assert(wb.contains(x));
                                let k = choose|k: int| 0 <= k < wb.len() && wb[k] == x;
                                assert(work@[k] == x);
                            }
                            assert forall|x: usize| #[trigger] work@.contains(x) && !old(work)@.contains(x) implies !old(marked)@[x as int] by {
                                let k = choose|k: int| 0 <= k < work@.len() && work@[k] == x;
                                if k < wb.len() {
                                    assert(wb[k] == x);
                                    assert(wb.contains(x));
                                }
                            }
                            assert forall|jj: int| 0 <= jj < self@.len() && #[trigger] marked@[jj] && !old(marked)@[jj] implies work@.contains(jj as usize) by {
                                if jj == j {
                                    assert(work@[work@.len() - 1] == j);
                                } else {
                                    assert(wb.contains(jj as usize));
                                    let k = choose|k: int| 0 <= k < wb.len() && wb[k] == jj as usize;
                                    assert(work@[k] == jj as usize);
                                }
                            }
                        }
                    }
                },
            }
            proof {
                assert forall|j: int| 0 <= j < self@.len() && m0[j] implies #[trigger] marked@[j] by {}
                assert forall|e: int| 0 <= e < i + 1 && names_of(self@).contains(#[trigger] dv[e]) implies marked@[index_of_name(
                    names_of(self@),
                    dv[e],
                )->0] by {
                    if e < i {
                        let ix = index_of_name(names_of(self@), dv[e])->0;
                        lemma_index_of_name_some_of_contains(names_of(self@), dv[e]);
                        assert(m0[ix]);
                    } else {
                        lemma_index_of_name_some_of_contains(names_of(self@), dv[e]);
                    }
                }
            }
            i = i + 1;
        }
        proof {
            assert forall|d: Seq<char>| #[trigger] deps_of(self@, from).contains(d) && names_of(self@).contains(d) implies marked@[
                index_of_name(names_of(self@), d)->0] by {
                let e = choose|e: int| 0 <= e < dv.len() && dv[e] == d;
            }
        }
    }

    /// The packages that `name` depends on, directly or not, sorted: the
    /// dependencies a build of `name` reads.
    pub fn transitive_deps(&self, name: &str) -> (r: Vec<String>)
        requires
            self.wf(),
        ensures
            string_views(r@) == sort_strs(names_of(self@)).filter(|n: Seq<char>| depends_on(self@, name@, n)),
    {
        let ghost adj = self@;
        let ghost names = names_of(adj);
        let n = self.adjacency.len();
        let mut marked: Vec<bool> = Vec::new();
        while marked.len() < n
            invariant
                marked@.len() <= n,
                forall|k: int| 0 <= k < marked@.len() ==> !marked@[k],
            decreases n - marked@.len(),
        {
            marked.push(false);
        }
        let mut work: Vec<usize> = Vec::new();
        match self.find(name) {
            Some(si) => {
                assert(string_views(self.adjacency@[si as int].1@) == deps_of(adj, name@));
                self.mark_deps(&self.adjacency[si].1, &mut marked, &mut work, Ghost(name@), Ghost(name@));
            },
            None => {
                assert(deps_of(adj, name@) =~= Seq::<Seq<char>>::empty());
            },
        }
        while work.len() > 0
            invariant
                self.wf(),
                adj == self@,
                n == adj.len(),
                names == names_of(adj),
                marked@.len() == adj.len(),
                forall|j: int| 0 <= j < adj.len() && #[trigger] marked@[j] ==> depends_on(adj, name@, adj[j].0),
                forall|k: int| 0 <= k < work@.len() ==> (#[trigger] work@[k]) < adj.len() && marked@[work@[k] as int],
                work@.no_duplicates(),
                forall|d: Seq<char>| #[trigger] deps_of(adj, name@).contains(d) && names.contains(d) ==> marked@[index_of_name(names, d)->0],
                forall|j: int, d: Seq<char>| 0 <= j < adj.len() && #[trigger] marked@[j] && !work@.contains(j as usize)
                    && #[trigger] deps_of(adj, adj[j].0).contains(d) && names.contains(d) ==> marked@[index_of_name(names, d)->0],
            decreases 2 * unmarked(marked@) + work@.len(),
        {
            let ghost mb = marked@;
            let ghost wb = work@;
            let j = match work.pop() {
                Some(x) => x,
                None => 0,
            };
            proof {
                assert(wb.drop_last() == work@);
                assert(j == wb[wb.len() - 1]);
                assert(!work@.contains(j)) by {
                    if work@.contains(j) {
                        let k = choose|k: int| 0 <= k < work@.len() && work@[k] == j;
                        assert(wb[k] == wb[wb.len() - 1]);
                    }
                }
                assert(work@.no_duplicates()) by {
                    assert forall|a: int, b: int| 0 <= a < b < work@.len() implies work@[a] != work@[b] by {
                        assert(work@[a] == wb[a] && work@[b] == wb[b]);
                    }
                }
                lemma_index_of_name(names, adj[j as int].0, j as int);
                assert(string_views(self.adjacency@[j as int].1@) == deps_of(adj, adj[j as int].0));
            }
            let ghost w1 = work@;
            self.mark_deps(&self.adjacency[j].1, &mut marked, &mut work, Ghost(adj[j as int].0), Ghost(name@));
            proof {
                assert forall|d: Seq<char>| #[trigger] deps_of(adj, name@).contains(d) && names.contains(d) implies marked@[index_of_name(names, d)->0] by {
                    lemma_index_of_name_some_of_contains(names, d);
                    assert(mb[index_of_name(names, d)->0]);
                }
                assert forall|jj: int, d: Seq<char>| 0 <= jj < adj.len() && #[trigger] marked@[jj] && !work@.contains(jj as usize)
                    && #[trigger] deps_of(adj, adj[jj].0).contains(d) && names.contains(d) implies marked@[index_of_name(names, d)->0] by {
                    if jj != j {
                        if mb[jj] {
                            assert(!wb.contains(jj as usize)) by {
                                if wb.contains(jj as usize) {
                                    let k = choose|k: int| 0 <= k < wb.len() && wb[k] == jj as usize;
                                    if k < wb.len() - 1 {
                                        assert(w1 == wb.drop_last());
                                        assert(w1[k] == wb[k]);
                                        assert(w1.contains(jj as usize));
                                        assert(work@.contains(jj as usize));
                                        assert(false);
                                    } else {
                                        assert(wb[k] == j);
                                        assert(adj.len() == self.adjacency@.len());
                                        assert(jj as usize == j);
                                        assert(jj == j as int);
                                        assert(false);
                                    }
                                }
                            }
                            lemma_index_of_name_some_of_contains(names, d);
                            assert(mb[index_of_name(names, d)->0]);
                        } else {
                            assert(work@.contains(jj as usize));
                        }
                    } else {
                        assert(adj[jj].0 == adj[j as int].0);
                    }
                }
            }
        }
        proof {
            assert forall|f: Seq<char>| names.contains(f) implies (marked@[index_of_name(names, f)->0] <==> depends_on(adj, name@, f)) by {
                let k = choose|k: int| 0 <= k < names.len() && names[k] == f;
                lemma_index_of_name(names, f, k);
                if depends_on(adj, name@, f) {
                    let p = choose|p: Seq<Seq<char>>| #[trigger] dep_path(adj, p) && p[0] == name@ && p.last() == f;
                    self.lemma_marked_along(marked@, p, p.len() - 1, name@);
                }
            }
        }
        let all = self.all_packages();
        let ghost av = string_views(all@);
        proof {
            crate::sort::lemma_sort_strs_len(names);
        }
        let mut out: Vec<String> = Vec::new();
        let mut k: usize = 0;
        proof {
            assert(av.take(0) =~= Seq::<Seq<char>>::empty());
            reveal(Seq::filter);
        }
        while k < all.len()
            invariant
                self.wf(),
                adj == self@,
                names == names_of(adj),
                av == string_views(all@),
                av == sort_strs(names),
                k <= all@.len(),
                marked@.len() == adj.len(),
                forall|f: Seq<char>| names.contains(f) ==> (marked@[index_of_name(names, f)->0] <==> depends_on(adj, name@, f)),
                string_views(out@) == av.take(k as int).filter(|n: Seq<char>| depends_on(adj, name@, n)),
            decreases all@.len() - k,
        {
            proof {
                let t = av.take(k + 1);
                assert(t.drop_last() =~= av.take(k as int));
                assert(t.last() == all@[k as int]@);
                reveal(Seq::filter);
                crate::sort::lemma_sort_strs_member(names, av[k as int]);
            }
            match self.find(all[k].as_str()) {
                Some(j) => {
                    if marked[j] {
                        let ghost ob = out@;
                        out.push(all[k].clone());
                        assert(string_views(out@) =~= string_views(ob).push(all@[k as int]@));
                    }
                },
                None => {},
            }
            k = k + 1;
        }
        assert(av.take(all@.len() as int) =~= av);
        out
    }

    /// Along a chain of dependencies from `start`, every package of the
    /// graph is marked, once the marks are closed under dependencies.
    proof fn lemma_marked_along(&self, marked: Seq<bool>, p: Seq<Seq<char>>, k: int, start: Seq<char>)
        requires
            self.wf(),
            marked.len() == self@.len(),
            dep_path(self@, p),
            p[0] == start,
            1 <= k < p.len(),
            names_of(self@).contains(p[k]),
            forall|d: Seq<char>| #[trigger] deps_of(self@, start).contains(d) && names_of(self@).contains(d) ==> marked[index_of_name(names_of(self@), d)->0],
            forall|j: int, d: Seq<char>| 0 <= j < self@.len() && #[trigger] marked[j] && #[trigger] deps_of(self@, self@[j].0).contains(d)
                && names_of(self@).contains(d) ==> marked[index_of_name(names_of(self@), d)->0],
        ensures
            marked[index_of_name(names_of(self@), p[k])->0],
        decreases k,
    {
        let names = names_of(self@);
        assert(deps_of(self@, p[k - 1]).contains(p[k]));
        if k > 1 {
            assert(index_of_name(names, p[k - 1]) is Some);
            lemma_index_of_name_some(names, p[k - 1]);
            self.lemma_marked_along(marked, p, k - 1, start);
            let j = index_of_name(names, p[k - 1])->0;
            assert(self@[j].0 == p[k - 1]);
        }
    }

    /// The batches to build in: every package comes after its dependencies,
    /// and packages of one batch do not depend on each other, so a batch
    /// could be built in parallel. `Err` when there is a circular
    /// dependency.
    pub fn topo_batches(&self) -> (r: Result<Vec<Vec<String>>, ()>)
        requires
            self.wf(),
        ensures
            match (r, batches_from(self@, Set::empty())) {
                (Ok(b), Ok(s)) => b@.map_values(|v: Vec<String>| string_views(v@)) == s,
                (Err(_), Err(_)) => true,
                _ => false,
            },
    {
        let n = self.adjacency.len();
        let mut done: Vec<bool> = Vec::new();
        while done.len() < n
            invariant
                done@.len() <= n,
                n == self@.len(),
                forall|k: int| 0 <= k < done@.len() ==> !done@[k],
            decreases n - done@.len(),
        {
            done.push(false);
        }
        assert(done_set(self@, done@) =~= Set::empty());
        let mut batches: Vec<Vec<String>> = Vec::new();
        loop
            invariant
                done@.len() == n,
                n == self@.len(),
                self.wf(),
                batches_from(self@, Set::empty()) == match batches_from(self@, done_set(self@, done@)) {
                    Ok(rest) => Ok(batches@.map_values(|v: Vec<String>| string_views(v@)) + rest),
                    Err(e) => Err(e),
                },
            decreases undone(self@, done_set(self@, done@)),
        {
            let ghost d = done_set(self@, done@);
            let mut batch: Vec<String> = Vec::new();
            let mut next: Vec<bool> = Vec::new();
            let mut i: usize = 0;
            while i < n
                invariant
                    i <= n,
                    done@.len() == n,
                    n == self@.len(),
                    d == done_set(self@, done@),
                    next@.len() == i,
                    string_views(batch@) == ready(self@.take(i as int), d),
                    forall|k: int| 0 <= k < i ==> #[trigger] next@[k] == (done@[k] || (!d.contains(self@[k].0) && all_in(self@[k].1, d))),
                decreases n - i,
            {
                let ghost t = self@.take(i + 1);
                assert(t.drop_last() =~= self@.take(i as int));
                assert(t.last() == self@[i as int]);
                let fresh = !self.is_done(&done, self.adjacency[i].0.as_str()) && self.deps_done(&done, i);
                assert(self@[i as int].0 == self.adjacency@[i as int].0@);
                if fresh {
                    let name = self.adjacency[i].0.clone();
                    let ghost before = batch@;
                    batch.push(name);
                    assert(string_views(batch@) =~= string_views(before).push(self@[i as int].0));
                }
                next.push(done[i] || fresh);
                i = i + 1;
            }
            assert(self@.take(n as int) =~= self@);
            if batch.len() == 0 {
                proof {
                    assert(ready(self@, d).len() == 0);
                }
                let mut all = true;
                let mut k: usize = 0;
                while k < n
                    invariant
                        k <= n,
                        done@.len() == n,
                        all == forall|m: int| 0 <= m < k ==> #[trigger] done@[m],
                    decreases n - k,
                {
                    all = all && done[k];
                    k = k + 1;
                }
                proof {
                    self.lemma_undone_zero(done@);
                }
                if all {
                    return Ok(batches);
                } else {
                    return Err(());
                }
            }
            proof {
                let r = ready(self@, d);
                assert(done_set(self@, next@) =~= d.union(r.to_set())) by {
                    assert forall|s: Seq<char>| done_set(self@, next@).contains(s) implies d.union(r.to_set()).contains(s) by {
                        let j = choose|j: int| 0 <= j < self@.len() && j < next@.len() && next@[j] && #[trigger] self@[j].0 == s;
                        if !done@[j] {
                            lemma_ready_member(self@, d, s);
                            assert(r.contains(s));
                        }
                    }
                    assert forall|s: Seq<char>| d.union(r.to_set()).contains(s) implies done_set(self@, next@).contains(s) by {
                        if d.contains(s) {
                            let j = choose|j: int| 0 <= j < self@.len() && j < done@.len() && done@[j] && #[trigger] self@[j].0 == s;
                            assert(next@[j]);
                        } else {
                            lemma_ready_member(self@, d, s);
                            let j = choose|j: int| 0 <= j < self@.len() && #[trigger] self@[j].0 == s && !d.contains(s) && all_in(self@[j].1, d);
                            assert(next@[j]);
                        }
                    }
                }
                lemma_ready_advances(self@, d);
                let bv = batches@.map_values(|v: Vec<String>| string_views(v@));
                let bv2 = batches@.push(batch).map_values(|v: Vec<String>| string_views(v@));
                assert(bv2 =~= bv.push(r));
                match batches_from(self@, d.union(r.to_set())) {
                    Ok(rest) => {
                        assert(bv + (seq![r] + rest) =~= bv.push(r) + rest);
                    },
                    Err(_) => {},
                }
            }
            batches.push(batch);
            done = next;
        }
    }

    proof fn lemma_undone_zero(&self, done: Seq<bool>)
        requires
            self.wf(),
            done.len() == self@.len(),
        ensures
            (undone(self@, done_set(self@, done)) == 0) == (forall|m: int| 0 <= m < done.len() ==> #[trigger] done[m]),
    {
        let d = done_set(self@, done);
        let names = names_of(self@);
        assert forall|m: int| 0 <= m < done.len() implies (#[trigger] d.contains(self@[m].0) <==> done[m]) by {
            if d.contains(self@[m].0) {
                let j = choose|j: int| 0 <= j < self@.len() && j < done.len() && done[j] && #[trigger] self@[j].0 == self@[m].0;
                assert(names[j] == names[m]);
            }
        }
        lemma_undone_zero_iff(self@, d);
        if forall|m: int| 0 <= m < done.len() ==> #[trigger] done[m] {
            assert forall|m: int| 0 <= m < self@.len() implies d.contains(#[trigger] self@[m].0) by {
                assert(done[m]);
            }
        }
        if forall|m: int| 0 <= m < self@.len() ==> d.contains(#[trigger] self@[m].0) {
            assert forall|m: int| 0 <= m < done.len() implies #[trigger] done[m] by {
                assert(d.contains(self@[m].0));
            }
        }
    }
}

proof fn lemma_undone_zero_iff(adj: AdjView, d: Set<Seq<char>>)
    ensures
        (undone(adj, d) == 0) == (forall|m: int| 0 <= m < adj.len() ==> d.contains(#[trigger] adj[m].0)),
    decreases adj.len(),
{
    if adj.len() > 0 {
        let dl = adj.drop_last();
        let n = adj.len() - 1;
        lemma_undone_zero_iff(dl, d);
        assert forall|m: int| 0 <= m < n implies #[trigger] dl[m] == adj[m] by {}
        if undone(adj, d) == 0 {
            assert(undone(dl, d) == 0);
            assert(d.contains(adj[n].0));
            assert forall|m: int| 0 <= m < adj.len() implies d.contains(#[trigger] adj[m].0) by {
                if m < n {
                    assert(d.contains(dl[m].0));
                }
            }
        }
        if forall|m: int| 0 <= m < adj.len() ==> d.contains(#[trigger] adj[m].0) {
            assert(d.contains(adj[n].0));
            assert forall|m: int| 0 <= m < dl.len() implies d.contains(#[trigger] dl[m].0) by {
                assert(d.contains(adj[m].0));
            }
        }
    }
}

/// The direct dependencies of the package `name`; none when it is not in
/// the graph.
pub open spec fn deps_of(adj: AdjView, name: Seq<char>) -> Seq<Seq<char>> {
    match index_of_name(names_of(adj), name) {
        Some(i) => adj[i].1,
        None => Seq::empty(),
    }
}

/// A chain of dependencies: each package depends directly on the next.
pub open spec fn dep_path(adj: AdjView, p: Seq<Seq<char>>) -> bool {
    &&& p.len() >= 2
    &&& forall|k: int| 0 <= k < p.len() - 1 ==> deps_of(adj, #[trigger] p[k]).contains(p[k + 1])
}

/// Whether `from` depends on `to`, directly or through others.
pub open spec fn depends_on(adj: AdjView, from: Seq<char>, to: Seq<char>) -> bool {
    exists|p: Seq<Seq<char>>| #[trigger] dep_path(adj, p) && p[0] == from && p.last() == to
}

/// A package on a dependency cycle never becomes ready while none of the
/// cycle is built, so the build can never finish.
proof fn lemma_cycle_blocks(adj: AdjView, p: Seq<Seq<char>>, done: Set<Seq<char>>)
    requires
        names_of(adj).no_duplicates(),
        dep_path(adj, p),
        p[0] == p.last(),
        forall|k: int| 0 <= k < p.len() ==> !done.contains(#[trigger] p[k]),
    ensures
        batches_from(adj, done) is Err,
    decreases undone(adj, done),
{
    let r = ready(adj, done);
    let names = names_of(adj);
    assert forall|k: int| 0 <= k < p.len() implies !r.contains(#[trigger] p[k]) by {
        let kk = if k == p.len() - 1 { 0 } else { k };
        assert(p[kk] == p[k]);
        assert(deps_of(adj, p[kk]).contains(p[kk + 1]));
        lemma_ready_member(adj, done, p[kk]);
        if r.contains(p[kk]) {
            let i = choose|i: int| 0 <= i < adj.len() && #[trigger] adj[i].0 == p[kk] && !done.contains(p[kk])
                && all_in(adj[i].1, done);
            assert(names[i] == p[kk]);
            lemma_index_of_name(names, p[kk], i);
            assert(deps_of(adj, p[kk]) == adj[i].1);
            let j = choose|j: int| 0 <= j < adj[i].1.len() && adj[i].1[j] == p[kk + 1];
            assert(done.contains(adj[i].1[j]));
        }
    }
    if r.len() == 0 {
        assert(deps_of(adj, p[0]).contains(p[1]));
        assert(index_of_name(names, p[0]) is Some);
        lemma_index_of_name_some(names, p[0]);
        let i = index_of_name(names, p[0])->0;
        assert(adj[i].0 == p[0]);
        lemma_undone_zero_iff(adj, done);
    } else {
        lemma_ready_advances(adj, done);
        let more = done.union(r.to_set());
        assert forall|k: int| 0 <= k < p.len() implies !more.contains(#[trigger] p[k]) by {
            assert(!r.contains(p[k]));
            assert(!r.to_set().contains(p[k]));
        }
        lemma_cycle_blocks(adj, p, more);
    }
}

/// When a package depends on itself through others, there is no build
/// order: `topo_batches` fails.
pub proof fn lemma_cycle_has_no_order(adj: AdjView, p: Seq<Seq<char>>)
    requires
        names_of(adj).no_duplicates(),
        dep_path(adj, p),
        p[0] == p.last(),
    ensures
        batches_from(adj, Set::empty()) is Err,
{
    lemma_cycle_blocks(adj, p, Set::empty());
}

/// Every dependency named in the graph is a package of the graph.
pub open spec fn closed_graph(adj: AdjView) -> bool {
    forall|i: int, k: int| 0 <= i < adj.len() && 0 <= k < adj[i].1.len() ==> names_of(adj).contains(#[trigger] adj[i].1[k])
}

/// Some package depends on itself, through others or directly.
pub open spec fn has_cycle(adj: AdjView) -> bool {
    exists|p: Seq<Seq<char>>| #[trigger] dep_path(adj, p) && p[0] == p.last()
}

/// A dependency of `x` that is in the graph and not built, where there is
/// one.
spec fn next_unbuilt(adj: AdjView, done: Set<Seq<char>>, x: Seq<char>) -> Seq<char> {
    choose|y: Seq<char>| deps_of(adj, x).contains(y) && names_of(adj).contains(y) && !done.contains(y)
}

/// Following unbuilt dependencies `k` steps from `x`.
spec fn unbuilt_walk(adj: AdjView, done: Set<Seq<char>>, x: Seq<char>, k: nat) -> Seq<Seq<char>>
    decreases k,
{
    if k == 0 {
        seq![x]
    } else {
        let w = unbuilt_walk(adj, done, x, (k - 1) as nat);
        w.push(next_unbuilt(adj, done, w.last()))
    }
}

/// When nothing is ready, every package not built yet has a dependency in
/// the graph that is not built either.
proof fn lemma_stuck_step(adj: AdjView, done: Set<Seq<char>>, x: Seq<char>)
    requires
        names_of(adj).no_duplicates(),
        closed_graph(adj),
        ready(adj, done).len() == 0,
        names_of(adj).contains(x),
        !done.contains(x),
    ensures
        deps_of(adj, x).contains(next_unbuilt(adj, done, x)),
        names_of(adj).contains(next_unbuilt(adj, done, x)),
        !done.contains(next_unbuilt(adj, done, x)),
{
    let names = names_of(adj);
    let i = choose|i: int| 0 <= i < names.len() && names[i] == x;
    lemma_index_of_name(names, x, i);
    lemma_ready_member(adj, done, x);
    assert(adj[i].0 == x);
    assert(!ready(adj, done).contains(x));
    assert(!all_in(adj[i].1, done));
    let k = choose|k: int| 0 <= k < adj[i].1.len() && !done.contains(#[trigger] adj[i].1[k]);
    let y = adj[i].1[k];
    assert(deps_of(adj, x) == adj[i].1);
    assert(deps_of(adj, x).contains(y));
    assert(names.contains(y));
}

proof fn lemma_unbuilt_walk(adj: AdjView, done: Set<Seq<char>>, x: Seq<char>, k: nat)
    requires
        names_of(adj).no_duplicates(),
        closed_graph(adj),
        ready(adj, done).len() == 0,
        names_of(adj).contains(x),
        !done.contains(x),
    ensures
        unbuilt_walk(adj, done, x, k).len() == k + 1,
        unbuilt_walk(adj, done, x, k)[0] == x,
        forall|j: int| 0 <= j <= k ==> names_of(adj).contains(#[trigger] unbuilt_walk(adj, done, x, k)[j])
            && !done.contains(unbuilt_walk(adj, done, x, k)[j]),
        forall|j: int| 0 <= j < k ==> deps_of(adj, #[trigger] unbuilt_walk(adj, done, x, k)[j]).contains(
            unbuilt_walk(adj, done, x, k)[j + 1],
        ),
    decreases k,
{
    if k > 0 {
        lemma_unbuilt_walk(adj, done, x, (k - 1) as nat);
        let w = unbuilt_walk(adj, done, x, (k - 1) as nat);
        lemma_stuck_step(adj, done, w.last());
        let w2 = unbuilt_walk(adj, done, x, k);
        assert forall|j: int| 0 <= j <= k implies names_of(adj).contains(#[trigger] w2[j]) && !done.contains(w2[j]) by {
            if j < k {
                assert(w2[j] == w[j]);
            }
        }
        assert forall|j: int| 0 <= j < k implies deps_of(adj, #[trigger] w2[j]).contains(w2[j + 1]) by {
            if j < k - 1 {
                assert(w2[j] == w[j] && w2[j + 1] == w[j + 1]);
            } else {
                assert(w2[j] == w.last());
            }
        }
    }
}

/// When nothing is ready but something is left to build, and every
/// dependency is in the graph, some package depends on itself.
#[verifier::spinoff_prover]
#[verifier::rlimit(50)]
proof fn lemma_stuck_has_cycle(adj: AdjView, done: Set<Seq<char>>)
    requires
        names_of(adj).no_duplicates(),
        closed_graph(adj),
        ready(adj, done).len() == 0,
        undone(adj, done) > 0,
    ensures
        has_cycle(adj),
{
    let names = names_of(adj);
    lemma_undone_zero_iff(adj, done);
    let m = choose|m: int| 0 <= m < adj.len() && !done.contains(#[trigger] adj[m].0);
    let x = adj[m].0;
    assert(names[m] == x);
    let n = adj.len();
    lemma_unbuilt_walk(adj, done, x, n as nat);
    let w = unbuilt_walk(adj, done, x, n as nat);
    assert(w.to_set().subset_of(names.to_set())) by {
        assert forall|y: Seq<char>| w.to_set().contains(y) implies names.to_set().contains(y) by {
            let j = choose|j: int| 0 <= j < w.len() && w[j] == y;
            assert(names.contains(w[j]));
        }
    }
    names.lemma_cardinality_of_set();
    vstd::set_lib::lemma_len_subset(w.to_set(), names.to_set());
    if w.no_duplicates() {
        w.unique_seq_to_set();
        assert(false);
    }
    let (i, j) = choose|i: int, j: int| 0 <= i < w.len() && 0 <= j < w.len() && i != j && w[i] == w[j];
    let lo = if i < j { i } else { j };
    let hi = if i < j { j } else { i };
    let p = w.subrange(lo, hi + 1);
    assert(p.len() >= 2);
    assert forall|k: int| 0 <= k < p.len() - 1 implies deps_of(adj, #[trigger] p[k]).contains(p[k + 1]) by {
        assert(p[k] == w[lo + k] && p[k + 1] == w[lo + k + 1]);
    }
    assert(dep_path(adj, p));
    assert(p[0] == p.last());
}

proof fn lemma_failure_has_cycle(adj: AdjView, done: Set<Seq<char>>)
    requires
        names_of(adj).no_duplicates(),
        closed_graph(adj),
        batches_from(adj, done) is Err,
    ensures
        has_cycle(adj),
    decreases undone(adj, done),
{
    let r = ready(adj, done);
    if r.len() == 0 {
        lemma_stuck_has_cycle(adj, done);
    } else {
        lemma_ready_advances(adj, done);
        lemma_failure_has_cycle(adj, done.union(r.to_set()));
    }
}

/// When every dependency is a package of the graph, there is a build
/// order exactly when no package depends on itself.
pub proof fn lemma_order_exists_iff_no_cycle(adj: AdjView)
    requires
        names_of(adj).no_duplicates(),
        closed_graph(adj),
    ensures
        batches_from(adj, Set::empty()) is Err <==> has_cycle(adj),
{
    if batches_from(adj, Set::empty()) is Err {
        lemma_failure_has_cycle(adj, Set::empty());
    }
    if has_cycle(adj) {
        let p = choose|p: Seq<Seq<char>>| #[trigger] dep_path(adj, p) && p[0] == p.last();
        lemma_cycle_has_no_order(adj, p);
    }
}

/// The batches after `done`: each package's dependencies are built before
/// its batch (already, or in an earlier batch), and a package of a later
/// batch waits for one of the batch just before it. So a package's batch
/// is given by its longest chain of dependencies not built yet.
#[verifier::spinoff_prover]
#[verifier::rlimit(50)]
pub proof fn lemma_batches_by_longest_chain(adj: AdjView, done: Set<Seq<char>>)
    requires
        names_of(adj).no_duplicates(),
        batches_from(adj, done) is Ok,
    ensures
        forall|k: int, x: Seq<char>| 0 <= k < batches_from(adj, done)->Ok_0.len()
            && #[trigger] batches_from(adj, done)->Ok_0[k].contains(x) ==> {
                &&& !done.contains(x)
                &&& forall|y: Seq<char>| #[trigger] deps_of(adj, x).contains(y) ==> done.contains(y)
                    || exists|j: int| 0 <= j < k && #[trigger] batches_from(adj, done)->Ok_0[j].contains(y)
            },
        forall|k: int, x: Seq<char>| 1 <= k < batches_from(adj, done)->Ok_0.len()
            && #[trigger] batches_from(adj, done)->Ok_0[k].contains(x) ==> exists|y: Seq<char>|
                #[trigger] deps_of(adj, x).contains(y) && batches_from(adj, done)->Ok_0[k - 1].contains(y),
    decreases undone(adj, done),
{
    let names = names_of(adj);
    let r = ready(adj, done);
    let bs = batches_from(adj, done)->Ok_0;
    if r.len() == 0 {
        assert(bs.len() == 0);
    } else {
        lemma_ready_advances(adj, done);
        let more = done.union(r.to_set());
        lemma_batches_by_longest_chain(adj, more);
        let rest = batches_from(adj, more)->Ok_0;
        assert(bs == seq![r] + rest);
        assert(bs[0] == r);
        assert forall|k: int, x: Seq<char>| 0 <= k < bs.len() && #[trigger] bs[k].contains(x) implies {
            &&& !done.contains(x)
            &&& forall|y: Seq<char>| #[trigger] deps_of(adj, x).contains(y) ==> done.contains(y)
                || exists|j: int| 0 <= j < k && #[trigger] bs[j].contains(y)
        } by {
            if k == 0 {
                lemma_ready_member(adj, done, x);
                let i = choose|i: int| 0 <= i < adj.len() && #[trigger] adj[i].0 == x && !done.contains(x)
                    && all_in(adj[i].1, done);
                assert(names[i] == x);
                lemma_index_of_name(names, x, i);
                assert(deps_of(adj, x) == adj[i].1);
                assert forall|y: Seq<char>| #[trigger] deps_of(adj, x).contains(y) implies done.contains(y) by {
                    let q = choose|q: int| 0 <= q < adj[i].1.len() && adj[i].1[q] == y;
                    assert(done.contains(adj[i].1[q]));
                }
            } else {
                assert(bs[k] == rest[k - 1]);
                assert(!more.contains(x));
                assert forall|y: Seq<char>| #[trigger] deps_of(adj, x).contains(y) implies done.contains(y)
                    || exists|j: int| 0 <= j < k && #[trigger] bs[j].contains(y) by {
                    if !done.contains(y) {
                        if r.to_set().contains(y) {
                            assert(bs[0].contains(y));
                        } else {
                            let j = choose|j: int| 0 <= j < k - 1 && #[trigger] rest[j].contains(y);
                            assert(bs[j + 1] == rest[j]);
                            assert(bs[j + 1].contains(y));
                        }
                    }
                }
            }
        }
        assert forall|k: int, x: Seq<char>| 1 <= k < bs.len() && #[trigger] bs[k].contains(x) implies exists|y: Seq<char>|
            #[trigger] deps_of(adj, x).contains(y) && bs[k - 1].contains(y) by {
            assert(bs[k] == rest[k - 1]);
            if k == 1 {
                let r2 = ready(adj, more);
                assert(rest.len() > 0);
                assert(r2.len() > 0);
                assert(rest[0] == r2);
                lemma_ready_member(adj, more, x);
                let i = choose|i: int| 0 <= i < adj.len() && #[trigger] adj[i].0 == x && !more.contains(x)
                    && all_in(adj[i].1, more);
                assert(names[i] == x);
                lemma_index_of_name(names, x, i);
                assert(deps_of(adj, x) == adj[i].1);
                assert(!r.to_set().contains(x));
                assert(!r.contains(x));
                lemma_ready_member(adj, done, x);
                assert(!all_in(adj[i].1, done));
                let q = choose|q: int| 0 <= q < adj[i].1.len() && !done.contains(#[trigger] adj[i].1[q]);
                let y = adj[i].1[q];
                assert(more.contains(y));
                assert(r.to_set().contains(y));
                assert(deps_of(adj, x).contains(y));
                assert(bs[0].contains(y));
            } else {
                let y = choose|y: Seq<char>| #[trigger] deps_of(adj, x).contains(y) && rest[k - 2].contains(y);
                assert(bs[k - 1] == rest[k - 2]);
            }
        }
    }
}

/// A package of batch `k` (building from nothing) has a chain of `k`
/// dependency steps below it.
proof fn lemma_chain_reaches(adj: AdjView, k: int, x: Seq<char>) -> (p: Seq<Seq<char>>)
    requires
        names_of(adj).no_duplicates(),
        batches_from(adj, Set::empty()) is Ok,
        0 <= k < batches_from(adj, Set::empty())->Ok_0.len(),
        batches_from(adj, Set::empty())->Ok_0[k].contains(x),
    ensures
        p.len() == k + 1,
        p[0] == x,
        k >= 1 ==> dep_path(adj, p),
    decreases k,
{
    let bs = batches_from(adj, Set::empty())->Ok_0;
    if k == 0 {
        seq![x]
    } else {
        lemma_batches_by_longest_chain(adj, Set::empty());
        let y = choose|y: Seq<char>| #[trigger] deps_of(adj, x).contains(y) && bs[k - 1].contains(y);
        let q = lemma_chain_reaches(adj, k - 1, y);
        let p = seq![x] + q;
        assert(p[1] == y);
        assert forall|i: int| 0 <= i < p.len() - 1 implies deps_of(adj, #[trigger] p[i]).contains(p[i + 1]) by {
            if i > 0 {
                assert(p[i] == q[i - 1] && p[i + 1] == q[i]);
            }
        }
        p
    }
}

/// A package of batch `k` (building from nothing) has no chain of more
/// than `k` dependency steps below it.
proof fn lemma_chain_bounded(adj: AdjView, k: int, x: Seq<char>, p: Seq<Seq<char>>)
    requires
        names_of(adj).no_duplicates(),
        batches_from(adj, Set::empty()) is Ok,
        0 <= k < batches_from(adj, Set::empty())->Ok_0.len(),
        batches_from(adj, Set::empty())->Ok_0[k].contains(x),
        dep_path(adj, p),
        p[0] == x,
    ensures
        p.len() <= k + 1,
    decreases p.len(),
{
    let bs = batches_from(adj, Set::empty())->Ok_0;
    lemma_batches_by_longest_chain(adj, Set::empty());
    let y = p[1];
    assert(deps_of(adj, p[0]).contains(p[1]));
    assert(!Set::<Seq<char>>::empty().contains(y));
    let j = choose|j: int| 0 <= j < k && #[trigger] bs[j].contains(y);
    if p.len() > 2 {
        let q = p.drop_first();
        assert forall|i: int| 0 <= i < q.len() - 1 implies deps_of(adj, #[trigger] q[i]).contains(q[i + 1]) by {
            assert(q[i] == p[i + 1] && q[i + 1] == p[i + 2]);
        }
        lemma_chain_bounded(adj, j, y, q);
    }
}

/// The batch of a package, building from nothing, is the length of its
/// longest chain of dependencies: in batch `k` it has a chain of `k`
/// dependency steps below it, and none longer.
pub proof fn lemma_batch_is_longest_chain(adj: AdjView, k: int, x: Seq<char>)
    requires
        names_of(adj).no_duplicates(),
        batches_from(adj, Set::empty()) is Ok,
        0 <= k < batches_from(adj, Set::empty())->Ok_0.len(),
        batches_from(adj, Set::empty())->Ok_0[k].contains(x),
    ensures
        k >= 1 ==> exists|p: Seq<Seq<char>>| #[trigger] dep_path(adj, p) && p[0] == x && p.len() == k + 1,
        forall|p: Seq<Seq<char>>| #[trigger] dep_path(adj, p) && p[0] == x ==> p.len() <= k + 1,
{
    let p = lemma_chain_reaches(adj, k, x);
    assert forall|q: Seq<Seq<char>>| #[trigger] dep_path(adj, q) && q[0] == x implies q.len() <= k + 1 by {
        lemma_chain_bounded(adj, k, x, q);
    }
}


proof fn lemma_index_of_name(names: Seq<Seq<char>>, name: Seq<char>, i: int)
    requires
        names.no_duplicates(),
        0 <= i < names.len(),
        names[i] == name,
    ensures
        index_of_name(names, name) == Some(i),
    decreases names.len(),
{
    if i > 0 {
        assert(names[0] != name) by {
            assert(names[0] != names[i]);
        }
        let t = names.drop_first();
        assert(t.no_duplicates()) by {
            assert forall|a: int, b: int| 0 <= a < b < t.len() implies t[a] != t[b] by {
                assert(t[a] == names[a + 1] && t[b] == names[b + 1]);
            }
        }
        assert(t[i - 1] == name);
        lemma_index_of_name(t, name, i - 1);
    }
}

proof fn lemma_index_of_name_none(names: Seq<Seq<char>>, name: Seq<char>)
    requires
        !names.contains(name),
    ensures
        index_of_name(names, name) is None,
    decreases names.len(),
{
    if names.len() > 0 {
        assert(names[0] != name);
        let t = names.drop_first();
        assert(!t.contains(name)) by {
            if t.contains(name) {
                let k = choose|k: int| 0 <= k < t.len() && t[k] == name;
                assert(names[k + 1] == name);
            }
        }
        lemma_index_of_name_none(t, name);
    }
}

/// How many packages are not marked.
pub open spec fn unmarked(m: Seq<bool>) -> nat
    decreases m.len(),
{
    if m.len() == 0 {
        0
    } else {
        unmarked(m.drop_last()) + if m.last() { 0nat } else { 1nat }
    }
}

proof fn lemma_unmarked_set(m: Seq<bool>, i: int)
    requires
        0 <= i < m.len(),
        !m[i],
    ensures
        unmarked(m.update(i, true)) + 1 == unmarked(m),
    decreases m.len(),
{
    let w = m.update(i, true);
    if i < m.len() - 1 {
        assert(w.drop_last() =~= m.drop_last().update(i, true));
        lemma_unmarked_set(m.drop_last(), i);
    } else {
        assert(w.drop_last() =~= m.drop_last());
    }
}

proof fn lemma_index_of_name_some(names: Seq<Seq<char>>, name: Seq<char>)
    requires
        index_of_name(names, name) is Some,
    ensures
        0 <= index_of_name(names, name)->0 < names.len(),
        names[index_of_name(names, name)->0] == name,
        names.contains(name),
    decreases names.len(),
{
    if names[0] != name {
        lemma_index_of_name_some(names.drop_first(), name);
        let i = index_of_name(names.drop_first(), name)->0;
        assert(names[i + 1] == name);
    }
}

proof fn lemma_index_of_name_some_of_contains(names: Seq<Seq<char>>, name: Seq<char>)
    requires
        names.contains(name),
    ensures
        index_of_name(names, name) is Some,
        0 <= index_of_name(names, name)->0 < names.len(),
        names[index_of_name(names, name)->0] == name,
    decreases names.len(),
{
    if names[0] != name {
        let k = choose|k: int| 0 <= k < names.len() && names[k] == name;
        assert(names.drop_first()[k - 1] == name);
        lemma_index_of_name_some_of_contains(names.drop_first(), name);
    }
    lemma_index_of_name_some(names, name);
}

/// Whether `s` is one of the strings of `v`.
fn contains_str(v: &Vec<String>, s: &str) -> (r: bool)
    ensures
        r == string_views(v@).contains(s@),
{
    let mut i: usize = 0;
    while i < v.len()
        invariant
            i <= v@.len(),
            forall|k: int| 0 <= k < i ==> #[trigger] string_views(v@)[k] != s@,
        decreases v@.len() - i,
    {
        if str_eq(v[i].as_str(), s) {
            assert(string_views(v@)[i as int] == s@);
            return true;
        }
        i = i + 1;
    }
    false
}

/// The position of the first name of `q` that is not in `visited`.
pub open spec fn first_unvisited(q: Seq<Seq<char>>, visited: Seq<Seq<char>>) -> Option<int>
    decreases q.len(),
{
    if q.len() == 0 {
        None
    } else if !visited.contains(q[0]) {
        Some(0)
    } else {
        match first_unvisited(q.drop_first(), visited) {
            Some(i) => Some(i + 1),
            None => None,
        }
    }
}

/// The names of `deps` that are not in `visited`, in order.
pub open spec fn unvisited(deps: Seq<Seq<char>>, visited: Seq<Seq<char>>) -> Seq<Seq<char>>
    decreases deps.len(),
{
    if deps.len() == 0 {
        Seq::empty()
    } else if visited.contains(deps.last()) {
        unvisited(deps.drop_last(), visited)
    } else {
        unvisited(deps.drop_last(), visited).push(deps.last())
    }
}

/// The discovery of the dependency graph as plain values: the names still
/// queued, those visited in order, the packages recorded with their
/// dependencies, and the package whose manifest is being read.
pub ghost struct DiscoveryView {
    pub queue: Seq<Seq<char>>,
    pub visited: Seq<Seq<char>>,
    pub adjacency: AdjView,
    pub pending: Option<Seq<char>>,
}

/// Finds the transitive dependencies breadth first, from the root
/// package's direct ones. Reading a package's manifest is left to the
/// caller: it asks [`DepDiscovery::next_package`] which package to read,
/// and hands the direct dependencies it found to [`DepDiscovery::record`],
/// until there is no package left; then [`DepDiscovery::into_graph`] gives
/// the graph.
pub struct DepDiscovery {
    queue: Vec<String>,
    head: usize,
    visited: Vec<String>,
    adjacency: Vec<(String, Vec<String>)>,
    pending: Option<String>,
}

impl View for DepDiscovery {
    type V = DiscoveryView;

    closed spec fn view(&self) -> DiscoveryView {
        DiscoveryView {
            queue: string_views(self.queue@).skip(self.head as int),
            visited: string_views(self.visited@),
            adjacency: self.adjacency@.map_values(|e: (String, Vec<String>)| entry_view(e)),
            pending: match self.pending {
                Some(p) => Some(p@),
                None => None,
            },
        }
    }
}

impl DepDiscovery {
    /// The packages visited are those recorded and the pending one, each
    /// once.
    pub closed spec fn wf(&self) -> bool {
        &&& self.head <= self.queue@.len()
        &&& self@.visited == match self@.pending {
            Some(p) => names_of(self@.adjacency).push(p),
            None => names_of(self@.adjacency),
        }
        &&& self@.visited.no_duplicates()
    }

    /// Starts from the direct dependencies of the root package.
    pub fn new(root_deps: &[&str]) -> (r: Self)
        ensures
            r.wf(),
            r@.queue == root_deps@.map_values(|d: &str| d@),
            r@.visited == Seq::<Seq<char>>::empty(),
            r@.adjacency == AdjView::empty(),
            r@.pending is None,
    {
        let mut queue: Vec<String> = Vec::new();
        let mut i: usize = 0;
        while i < root_deps.len()
            invariant
                i <= root_deps@.len(),
                string_views(queue@) == root_deps@.take(i as int).map_values(|d: &str| d@),
            decreases root_deps@.len() - i,
        {
            let ghost before = queue@;
            queue.push(string_of_str(root_deps[i]));
            assert(string_views(queue@) =~= string_views(before).push(root_deps@[i as int]@));
            assert(root_deps@.take(i + 1).map_values(|d: &str| d@) =~= root_deps@.take(i as int).map_values(
                |d: &str| d@,
            ).push(root_deps@[i as int]@));
            i = i + 1;
        }
        assert(root_deps@.take(root_deps@.len() as int) =~= root_deps@);
        let r = DepDiscovery { queue, head: 0, visited: Vec::new(), adjacency: Vec::new(), pending: None };
        assert(r@.queue =~= string_views(r.queue@));
        assert(r@.visited =~= Seq::<Seq<char>>::empty());
        assert(r@.adjacency =~= AdjView::empty());
        assert(names_of(r@.adjacency) =~= Seq::<Seq<char>>::empty());
        r
    }

    /// The next package whose manifest must be read: the first queued one
    /// not visited yet, which becomes visited and pending. `None` when the
    /// queue is exhausted: the graph is complete.
    pub fn next_package(&mut self) -> (r: Option<String>)
        requires
            old(self).wf(),
            old(self)@.pending is None,
        ensures
            final(self).wf(),
            final(self)@.adjacency == old(self)@.adjacency,
            match first_unvisited(old(self)@.queue, old(self)@.visited) {
                Some(i) => {
                    &&& r matches Some(name) && name@ == old(self)@.queue[i]
                    &&& final(self)@.queue == old(self)@.queue.skip(i + 1)
                    &&& final(self)@.visited == old(self)@.visited.push(old(self)@.queue[i])
                    &&& final(self)@.pending == Some(old(self)@.queue[i])
                },
                None => {
                    &&& r is None
                    &&& final(self)@.queue == Seq::<Seq<char>>::empty()
                    &&& final(self)@.visited == old(self)@.visited
                    &&& final(self)@.pending is None
                },
            },
    {
        let ghost q0 = old(self)@.queue;
        let ghost qv = string_views(self.queue@);
        let ghost h0 = self.head as int;
        while self.head < self.queue.len()
            invariant
                0 <= h0 <= self.head <= self.queue@.len(),
                qv == string_views(self.queue@),
                q0 == qv.skip(h0),
                q0 == old(self)@.queue,
                self@.visited == old(self)@.visited,
                self@.adjacency == old(self)@.adjacency,
                self@.pending is None,
                old(self)@.pending is None,
                self.visited == old(self).visited,
                self.adjacency == old(self).adjacency,
                old(self).wf(),
                first_unvisited(q0, self@.visited) == match first_unvisited(qv.skip(self.head as int), self@.visited) {
                    Some(i) => Some(i + self.head - h0),
                    None => None::<int>,
                },
            decreases self.queue@.len() - self.head,
        {
            let h = self.head;
            proof {
                let rest = qv.skip(h as int);
                assert(rest[0] == qv[h as int]);
                assert(rest.drop_first() =~= qv.skip(h + 1));
                assert(qv[h as int] == self.queue@[h as int]@);
            }
            self.head = self.head + 1;
            if !contains_str(&self.visited, self.queue[h].as_str()) {
                let name = self.queue[h].clone();
                let ghost before = self.visited@;
                self.visited.push(name.clone());
                self.pending = Some(name.clone());
                proof {
                    assert(string_views(before) == old(self)@.visited);
                    assert(!old(self)@.visited.contains(qv[h as int]));
                    assert(qv.skip(h as int)[0] == qv[h as int]);
                    assert(first_unvisited(qv.skip(h as int), old(self)@.visited) == Some(0int));
                    assert(first_unvisited(q0, old(self)@.visited) == Some(h - h0));
                    assert(q0[h - h0] == qv[h as int]);
                    assert(name@ == qv[h as int]);
                    assert(string_views(self.visited@) =~= string_views(before).push(qv[h as int]));
                    assert(string_views(self.queue@) == qv);
                    assert(self@.queue =~= qv.skip(h + 1));
                    assert(q0.skip(h - h0 + 1).len() == qv.skip(h + 1).len());
                    assert forall|k: int| 0 <= k < qv.skip(h + 1).len() implies #[trigger] q0.skip(h - h0 + 1)[k] == qv.skip(h + 1)[k] by {
                        assert(q0[h - h0 + 1 + k] == qv.skip(h0)[h - h0 + 1 + k]);
                    }
                    assert(q0.skip(h - h0 + 1) =~= qv.skip(h + 1));
                    assert(self@.pending == Some(qv[h as int]));
                    assert(self@.visited.no_duplicates());
                    assert(before == old(self).visited@);
                    assert(string_views(before) == old(self)@.visited);
                    assert(old(self)@.visited == names_of(old(self)@.adjacency));
                    assert(self@.adjacency == old(self)@.adjacency);
                    assert(self@.visited =~= names_of(self@.adjacency).push(qv[h as int]));
                    let i = h - h0;
                    assert(old(self)@.queue == q0);
                    assert(first_unvisited(old(self)@.queue, old(self)@.visited) == Some(i));
                    assert(self@.queue == old(self)@.queue.skip(i + 1));
                    assert(name@ == old(self)@.queue[i]);
                }
                return Some(name);
            }
        }
        proof {
            assert(qv.skip(self.head as int).len() == 0);
        }
        None
    }

    /// Records the direct dependencies read from the pending package's
    /// manifest, and queues those not visited yet.
    pub fn record(&mut self, deps: Vec<String>)
        requires
            old(self).wf(),
            old(self)@.pending is Some,
        ensures
            final(self).wf(),
            final(self)@.adjacency == old(self)@.adjacency.push((old(self)@.pending->0, string_views(deps@))),
            final(self)@.queue == old(self)@.queue + unvisited(string_views(deps@), old(self)@.visited),
            final(self)@.visited == old(self)@.visited,
            final(self)@.pending is None,
    {
        let ghost q0 = self@.queue;
        let ghost dv = string_views(deps@);
        let mut i: usize = 0;
        assert(dv.take(0) =~= Seq::<Seq<char>>::empty());
        assert(q0 + unvisited(dv.take(0), self@.visited) =~= q0);
        while i < deps.len()
            invariant
                i <= deps@.len(),
                dv == string_views(deps@),
                self.head <= self.queue@.len(),
                self@.queue == q0 + unvisited(dv.take(i as int), self@.visited),
                self.visited == old(self).visited,
                self.adjacency == old(self).adjacency,
                self.pending == old(self).pending,
            decreases deps@.len() - i,
        {
            proof {
                let t = dv.take(i + 1);
                assert(t.drop_last() =~= dv.take(i as int));
                assert(t.last() == dv[i as int]);
                assert(dv[i as int] == deps@[i as int]@);
            }
            if !contains_str(&self.visited, deps[i].as_str()) {
                let ghost before = self.queue@;
                self.queue.push(deps[i].clone());
                proof {
                    let sb = string_views(before);
                    assert(string_views(self.queue@) =~= sb.push(dv[i as int]));
                    assert(sb.skip(self.head as int) == q0 + unvisited(dv.take(i as int), self@.visited));
                    assert(self@.queue =~= sb.skip(self.head as int).push(dv[i as int]));
                    assert(!self@.visited.contains(dv[i as int]));
                    assert(unvisited(dv.take(i + 1), self@.visited) == unvisited(dv.take(i as int), self@.visited).push(dv[i as int]));
                    assert(self@.queue =~= q0 + unvisited(dv.take(i + 1), self@.visited));
                }
            } else {
                assert(self@.queue =~= q0 + unvisited(dv.take(i + 1), self@.visited));
            }
            i = i + 1;
        }
        assert(dv.take(deps@.len() as int) =~= dv);
        let name = match self.pending.take() {
            Some(p) => p,
            None => string_of_str(""),
        };
        let ghost before = self.adjacency@;
        self.adjacency.push((name, deps));
        proof {
            assert(self@.adjacency =~= before.map_values(|e: (String, Vec<String>)| entry_view(e)).push(
                (name@, dv),
            ));
            assert(names_of(self@.adjacency) =~= names_of(old(self)@.adjacency).push(name@));
        }
    }

    /// The graph found, once no package is pending.
    pub fn into_graph(self) -> (r: DepGraph)
        requires
            self.wf(),
            self@.pending is None,
        ensures
            r.wf(),
            r@ == self@.adjacency,
    {
        DepGraph { adjacency: self.adjacency }
    }
}

} // verus!
