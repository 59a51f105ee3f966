use vstd::prelude::*;
use vstd::set_lib::*;
use crate::graph::{LockFile, Package};

verus! {

/// Package `j` declares a dependency on the name of package `i`.
pub open spec fn is_dependent(g: Seq<(String, Package)>, j: int, i: int) -> bool {
    0 <= j < g.len() && 0 <= i < g.len() && g[j].1.depends_on(g[i].1.name@)
}

/// No package of the graph depends on package `i`: it is top-level.
pub open spec fn is_root(g: Seq<(String, Package)>, i: int) -> bool {
    forall|j: int| #![trigger g[j]] !is_dependent(g, j, i)
}

/// A walk from a package up through its dependents to a top-level package,
/// visiting no package twice.
pub open spec fn is_chain(g: Seq<(String, Package)>, c: Seq<usize>) -> bool {
    &&& c.len() > 0
    &&& forall|k: int| 0 <= k < c.len() ==> #[trigger] c[k] < g.len()
    &&& forall|k: int| 0 <= k < c.len() - 1 ==> is_dependent(g, #[trigger] c[k + 1] as int, c[k] as int)
    &&& is_root(g, c.last() as int)
    &&& c.no_duplicates()
}

/// No chain from the same package is shorter than `c`.
#[verifier::opaque]
pub open spec fn is_shortest(g: Seq<(String, Package)>, c: Seq<usize>) -> bool {
    forall|c2: Seq<usize>| is_chain(g, c2) && c2[0] == c[0] ==> c.len() <= c2.len()
}

/// Package `i` answers the query: same name, and same version when one is given.
pub open spec fn is_match(g: Seq<(String, Package)>, i: int, name: Seq<char>, version: Option<Seq<char>>) -> bool {
    &&& 0 <= i < g.len()
    &&& g[i].1.name@ == name
    &&& match version {
        Some(v) => g[i].1.version@ == v,
        None => true,
    }
}

/// Reverse dependencies: for each declared dependency name, the positions of
/// the packages that declare it, in graph order.
pub struct ReverseIndex {
    pub names: Vec<String>,
    pub dependents: Vec<Vec<usize>>,
}

impl ReverseIndex {
    /// The index is exactly the reverse of graph `g`.
    pub open spec fn indexes(&self, g: Seq<(String, Package)>) -> bool {
        &&& self.names@.len() == self.dependents@.len()
        &&& forall|a: int, b: int|
            0 <= a < b < self.names@.len() ==> (#[trigger] self.names@[a])@ != (#[trigger] self.names@[b])@
        &&& forall|e: int, x: int, y: int|
            0 <= e < self.dependents@.len() && 0 <= x < y < self.dependents@[e].len()
                ==> (#[trigger] self.dependents@[e][x]) < (#[trigger] self.dependents@[e][y])
        &&& forall|e: int, x: int|
            0 <= e < self.dependents@.len() && 0 <= x < self.dependents@[e].len() ==> {
                let j = #[trigger] self.dependents@[e][x];
                j < g.len() && g[j as int].1.depends_on(self.names@[e]@)
            }
        &&& forall|e: int, j: int|
            0 <= e < self.names@.len() && 0 <= j < g.len() && #[trigger] g[j].1.depends_on(
                (#[trigger] self.names@[e])@,
            ) ==> self.dependents@[e]@.contains(j as usize)
        &&& forall|j: int, k: int|
            0 <= j < g.len() && 0 <= k < g[j].1.dependencies@.len() ==> has_name(
                self.names@,
                (#[trigger] g[j].1.dependencies@[k]).0@,
            )
    }

    /// Position of the entry for dependency name `name`, if any.
    pub fn position(&self, name: &String) -> (r: Option<usize>)
        requires
            self.names@.len() == self.dependents@.len(),
        ensures
            match r {
                Some(e) => e < self.names@.len() && self.names@[e as int]@ == name@,
                None => forall|e: int| 0 <= e < self.names@.len() ==> (#[trigger] self.names@[e])@ != name@,
            },
    {
        let mut e: usize = 0;
        while e < self.names.len()
            invariant
                e <= self.names@.len(),
                forall|f: int| 0 <= f < e ==> (#[trigger] self.names@[f])@ != name@,
            decreases self.names@.len() - e,
        {
            if self.names[e] == *name {
                return Some(e);
            }
            e = e + 1;
        }
        None
    }

    pub fn contains_key(&self, name: &str) -> (r: bool)
        requires
            self.names@.len() == self.dependents@.len(),
        ensures
            r == exists|e: int| 0 <= e < self.names@.len() && (#[trigger] self.names@[e])@ == name@,
    {
        let n = String::from_str(name);
        self.position(&n).is_some()
    }

    /// The dependents of the packages named `name`.
    pub fn get(&self, name: &str) -> (r: Option<&Vec<usize>>)
        requires
            self.names@.len() == self.dependents@.len(),
        ensures
            match r {
                Some(l) => exists|e: int|
                    0 <= e < self.names@.len() && (#[trigger] self.names@[e])@ == name@ && *l
                        == self.dependents@[e],
                None => forall|e: int| 0 <= e < self.names@.len() ==> (#[trigger] self.names@[e])@ != name@,
            },
    {
        let n = String::from_str(name);
        match self.position(&n) {
            Some(e) => Some(&self.dependents[e]),
            None => None,
        }
    }
}

/// Some entry of `names` is `d`.
pub open spec fn has_name(names: Seq<String>, d: Seq<char>) -> bool {
    exists|e: int| 0 <= e < names.len() && (#[trigger] names[e])@ == d
}

/// Position of `d` in `names`, if it is there.
fn find_name(names: &Vec<String>, d: &String) -> (r: Option<usize>)
    ensures
        match r {
            Some(e) => e < names@.len() && names@[e as int]@ == d@,
            None => forall|e: int| 0 <= e < names@.len() ==> (#[trigger] names@[e])@ != d@,
        },
{
    let mut e: usize = 0;
    while e < names.len()
        invariant
            e <= names@.len(),
            forall|f: int| 0 <= f < e ==> (#[trigger] names@[f])@ != d@,
        decreases names@.len() - e,
    {
        if names[e] == *d {
            return Some(e);
        }
        e = e + 1;
    }
    None
}

/// A package of a chain, as reported.
pub struct DependencyNode {
    pub name: String,
    pub version: String,
}

/// Answers chain queries over one package graph.
pub struct DependencyTracer {
    pub lock_file: LockFile,
    pub reverse: ReverseIndex,
}

impl DependencyTracer {
    pub open spec fn wf(&self) -> bool {
        self.reverse.indexes(self.lock_file.packages@)
    }

    /// Builds the reverse index once; the tracer owns the graph from then on.
    pub fn new(lock_file: LockFile) -> (r: DependencyTracer)
        ensures
            r.lock_file == lock_file,
            r.wf(),
    {
        let reverse = Self::build_reverse_deps(&lock_file);
        DependencyTracer { lock_file, reverse }
    }

    /// For every package P and every dependency name D that P declares, P is
    /// listed under D.
    pub fn build_reverse_deps(lock_file: &LockFile) -> (r: ReverseIndex)
        ensures
            r.indexes(lock_file.packages@),
    {
        let ghost g = lock_file.packages@;
        let mut names: Vec<String> = Vec::new();
        let mut lists: Vec<Vec<usize>> = Vec::new();
        let mut j: usize = 0;
        while j < lock_file.packages.len()
            invariant
                g == lock_file.packages@,
                j <= g.len(),
                names@.len() == lists@.len(),
                forall|a: int, b: int| 0 <= a < b < names@.len() ==> (#[trigger] names@[a])@ != (#[trigger] names@[b])@,
                forall|e: int, x: int, y: int|
                    0 <= e < lists@.len() && 0 <= x < y < lists@[e].len()
                        ==> (#[trigger] lists@[e][x]) < (#[trigger] lists@[e][y]),
                forall|e: int, x: int|
                    0 <= e < lists@.len() && 0 <= x < lists@[e].len() ==> {
                        let i = #[trigger] lists@[e][x];
                        i < j && g[i as int].1.depends_on(names@[e]@)
                    },
                forall|e: int| 0 <= e < lists@.len() ==> (#[trigger] lists@[e]).len() > 0,
                forall|e: int, i: int|
                    0 <= e < names@.len() && 0 <= i < j && #[trigger] g[i].1.depends_on((#[trigger] names@[e])@)
                        ==> lists@[e]@.contains(i as usize),
                forall|i: int, k: int|
                    0 <= i < j && 0 <= k < g[i].1.dependencies@.len() ==> has_name(names@, (#[trigger] g[i].1.dependencies@[k]).0@),
            decreases g.len() - j,
        {
            let p: &Package = &lock_file.packages[j].1;
            let mut k: usize = 0;
            while k < p.dependencies.len()
                invariant
                    g == lock_file.packages@,
                    j < g.len(),
                    *p == g[j as int].1,
                    k <= p.dependencies@.len(),
                    names@.len() == lists@.len(),
                    forall|a: int, b: int| 0 <= a < b < names@.len() ==> (#[trigger] names@[a])@ != (#[trigger] names@[b])@,
                    forall|e: int, x: int, y: int|
                        0 <= e < lists@.len() && 0 <= x < y < lists@[e].len()
                            ==> (#[trigger] lists@[e][x]) < (#[trigger] lists@[e][y]),
                    forall|e: int, x: int|
                        0 <= e < lists@.len() && 0 <= x < lists@[e].len() ==> {
                            let i = #[trigger] lists@[e][x];
                            i <= j && g[i as int].1.depends_on(names@[e]@)
                        },
                    forall|e: int| 0 <= e < lists@.len() ==> (#[trigger] lists@[e]).len() > 0,
                    forall|e: int, i: int|
                        0 <= e < names@.len() && 0 <= i < j && #[trigger] g[i].1.depends_on((#[trigger] names@[e])@)
                            ==> lists@[e]@.contains(i as usize),
                    forall|i: int, kk: int|
                        0 <= i < j && 0 <= kk < g[i].1.dependencies@.len() ==> has_name(names@, (#[trigger] g[i].1.dependencies@[kk]).0@),
                    forall|kk: int| 0 <= kk < k ==> exists|e: int|
                        0 <= e < names@.len() && (#[trigger] names@[e])@ == (#[trigger] p.dependencies@[kk]).0@
                            && lists@[e]@.contains(j),
                decreases p.dependencies@.len() - k,
            {
                let d: &String = &p.dependencies[k].0;
                assert(p.depends_on(d@)) by {
                    assert(p.dependencies@[k as int].0@ == d@);
                }
                let ghost old_names = names@;
                let ghost old_lists = lists@;
                let pos = find_name(&names, d);
                match pos {
                    Some(e) => {
                        assert(lists@[e as int].len() > 0);
                        let len = lists[e].len();
                        if lists[e][len - 1] != j {
                            lists[e].push(j);
                        }
                        assert(lists@[e as int]@.contains(j)) by {
                            assert(lists@[e as int]@[lists@[e as int].len() - 1] == j);
                        }
                        assert forall|kk: int| 0 <= kk < k + 1 implies exists|f: int|
                            0 <= f < names@.len() && (#[trigger] names@[f])@ == (#[trigger] p.dependencies@[kk]).0@
                                && lists@[f]@.contains(j) by {
                            if kk < k {
                                let f = choose|f: int| 0 <= f < old_names.len() && (#[trigger] old_names[f])@ == (p.dependencies@[kk]).0@
                                    && old_lists[f]@.contains(j);
                                if f != e {
                                    assert(lists@[f] == old_lists[f]);
                                } else {
                                    assert(lists@[e as int]@.contains(j));
                                }
                                assert(names@[f]@ == p.dependencies@[kk].0@);
                            } else {
                                assert(names@[e as int]@ == p.dependencies@[kk].0@);
                            }
                        }
                        assert forall|ee: int, i: int|
                            0 <= ee < names@.len() && 0 <= i < j && #[trigger] g[i].1.depends_on((#[trigger] names@[ee])@)
                                implies lists@[ee]@.contains(i as usize) by {
                            assert(old_lists[ee]@.contains(i as usize));
                            if ee == e {
                                let x = choose|x: int| 0 <= x < old_lists[ee].len() && old_lists[ee][x] == i as usize;
                                assert(lists@[ee][x] == i as usize);
                            }
                        }
                    },
                    None => {
                        names.push(d.clone());
                        let mut l: Vec<usize> = Vec::new();
                        l.push(j);
                        lists.push(l);
                        let ghost last = names@.len() - 1;
                        assert(lists@[last]@[0] == j);
                        assert forall|kk: int| 0 <= kk < k + 1 implies exists|f: int|
                            0 <= f < names@.len() && (#[trigger] names@[f])@ == (#[trigger] p.dependencies@[kk]).0@
                                && lists@[f]@.contains(j) by {
                            if kk < k {
                                let f = choose|f: int| 0 <= f < old_names.len() && (#[trigger] old_names[f])@ == (p.dependencies@[kk]).0@
                                    && old_lists[f]@.contains(j);
                                assert(lists@[f] == old_lists[f]);
                                assert(names@[f]@ == p.dependencies@[kk].0@);
                            } else {
                                assert(names@[last]@ == p.dependencies@[kk].0@);
                            }
                        }
                        assert forall|ee: int, i: int|
                            0 <= ee < names@.len() && 0 <= i < j && #[trigger] g[i].1.depends_on((#[trigger] names@[ee])@)
                                implies lists@[ee]@.contains(i as usize) by {
                            if ee < last {
                                assert(old_lists[ee]@.contains(i as usize));
                                assert(lists@[ee] == old_lists[ee]);
                            } else {
                                let kk = choose|kk: int| 0 <= kk < g[i].1.dependencies@.len() && (#[trigger] g[i].1.dependencies@[kk]).0@ == d@;
                                assert(has_name(old_names, g[i].1.dependencies@[kk].0@));
                                let f = choose|f: int| 0 <= f < old_names.len() && (#[trigger] old_names[f])@ == (g[i].1.dependencies@[kk]).0@;
                                assert(old_names[f]@ != d@);
                            }
                        }
                        assert forall|i: int, kk: int|
                            0 <= i < j && 0 <= kk < g[i].1.dependencies@.len() implies has_name(names@, (#[trigger] g[i].1.dependencies@[kk]).0@) by {
                            assert(has_name(old_names, g[i].1.dependencies@[kk].0@));
                            let f = choose|f: int| 0 <= f < old_names.len() && (#[trigger] old_names[f])@ == (g[i].1.dependencies@[kk]).0@;
                            assert(names@[f] == old_names[f]);
                        }
                    },
                }
                k = k + 1;
            }
            assert forall|e: int|
                0 <= e < names@.len() && #[trigger] g[j as int].1.depends_on((#[trigger] names@[e])@)
                    implies lists@[e]@.contains(j) by {
                let kk = choose|kk: int| 0 <= kk < p.dependencies@.len() && (#[trigger] p.dependencies@[kk]).0@ == names@[e]@;
                let f = choose|f: int| 0 <= f < names@.len() && (#[trigger] names@[f])@ == (p.dependencies@[kk]).0@
                    && lists@[f]@.contains(j);
                assert(f == e);
            }
            assert forall|kk: int| 0 <= kk < g[j as int].1.dependencies@.len() implies has_name(names@, (#[trigger] g[j as int].1.dependencies@[kk]).0@) by {
                let f = choose|f: int| 0 <= f < names@.len() && (#[trigger] names@[f])@ == (#[trigger] p.dependencies@[kk]).0@
                    && lists@[f]@.contains(j);
            }
            j = j + 1;
        }
        ReverseIndex { names, dependents: lists }
    }

    /// The reverse-index entry of the name of package `u`; `None` only when
    /// nothing depends on `u`.
    fn dependents_entry(&self, u: usize) -> (r: Option<usize>)
        requires
            self.wf(),
            u < self.lock_file.packages@.len(),
        ensures
            match r {
                Some(e) => e < self.reverse.names@.len() && self.reverse.names@[e as int]@
                    == self.lock_file.packages@[u as int].1.name@,
                None => is_root(self.lock_file.packages@, u as int),
            },
    {
        let ghost g = self.lock_file.packages@;
        let r = self.reverse.position(&self.lock_file.packages[u].1.name);
        if r.is_none() {
            assert forall|j: int| #![trigger g[j]] !is_dependent(g, j, u as int) by {
                if is_dependent(g, j, u as int) {
                    let k = choose|k: int| 0 <= k < g[j].1.dependencies@.len() && (#[trigger] g[j].1.dependencies@[k]).0@ == g[u as int].1.name@;
                    assert(has_name(self.reverse.names@, g[j].1.dependencies@[k].0@));
                }
            }
        }
        r
    }

    /// A shortest chain from package `m` to a top-level package, found
    /// breadth-first; ties go to the dependent listed first.
    pub fn shortest_chain(&self, m: usize) -> (r: Option<Vec<usize>>)
        requires
            self.wf(),
            m < self.lock_file.packages@.len(),
        ensures
            match r {
                Some(c) => is_chain(self.lock_file.packages@, c@) && c@[0] == m && is_shortest(self.lock_file.packages@, c@),
                None => forall|c: Seq<usize>| is_chain(self.lock_file.packages@, c) ==> c[0] != m,
            },
    {
        let ghost g = self.lock_file.packages@;
        let n = self.lock_file.packages.len();
        let mut f = Frontier::start(n, m);
        let mut head: usize = 0;
        let mut found: Option<usize> = None;
        while head < f.queue.len() && found.is_none()
            invariant
                g == self.lock_file.packages@,
                self.wf(),
                n == g.len(),
                m < n,
                f.links(g, m as int),
                f.queue@.len() > 0,
                f.queue@[0] == m,
                head <= f.queue@.len(),
                f.settled(g, head as int),
                f.ordered(head as int),
                match found {
                    Some(x) => x < n && f.visited@[x as int] && is_root(g, x as int) && head < f.queue@.len()
                        && f.queue@[head as int] == x,
                    None => true,
                },
            decreases n - head, if found.is_none() { 1int } else { 0int },
        {
            let u = f.queue[head];
            match self.dependents_entry(u) {
                None => {
                    found = Some(u);
                },
                Some(e) => {
                    if self.reverse.dependents[e].len() == 0 {
                        assert forall|j: int| #![trigger g[j]] !is_dependent(g, j, u as int) by {
                            if is_dependent(g, j, u as int) {
                                assert(self.reverse.dependents@[e as int]@.contains(j as usize));
                            }
                        }
                        found = Some(u);
                    } else {
                        f.expand(self, head, e);
                        head = head + 1;
                    }
                },
            }
        }
        match found {
            Some(root) => {
                let c = f.chain_to(Ghost(g), m, root);
                proof {
                    reveal(is_shortest);
                    assert forall|c2: Seq<usize>| is_chain(g, c2) && c2[0] == m implies c@.len() <= c2.len() by {
                        if c2.len() < c@.len() {
                            let k = c2.len() - 1;
                            f.lemma_early_steps_settled(g, m as int, head as int, c2, k);
                            let q = choose|q: int| 0 <= q < f.queue@.len() && f.queue@[q] == c2[k];
                            f.lemma_nearer_is_settled(head as int, q);
                            assert(f.queue@[q] == c2[k]);
                        }
                    }
                }
                Some(c)
            },
            None => {
                proof {
                    assert forall|c: Seq<usize>| is_chain(g, c) implies c[0] != m by {
                        if c[0] == m {
                            assert forall|v: int| 0 <= v < n && #[trigger] f.visited@[v] implies forall|j: int|
                                is_dependent(g, j, v) ==> f.visited@[j] by {
                                let q = choose|q: int| 0 <= q < f.queue@.len() && f.queue@[q] == v;
                                assert(f.queue@[q] == v);
                            }
                            lemma_closed_reach(g, c, f.visited@, c.len() - 1);
                            let last = c[c.len() - 1] as int;
                            let q = choose|q: int| 0 <= q < f.queue@.len() && f.queue@[q] == last;
                            assert(f.queue@[q] == last);
                        }
                    }
                }
                None
            },
        }
    }


    /// Appends to `out`, in depth-first order, every chain that begins with
    /// the walk `path`; a dependent already on the walk is not followed.
    fn collect_chains(&self, path: &mut Vec<usize>, out: &mut Vec<Vec<usize>>)
        requires
            self.wf(),
            is_walk(self.lock_file.packages@, old(path)@),
        ensures
            final(path)@ == old(path)@,
            final(out)@.len() >= old(out)@.len(),
            forall|k: int| 0 <= k < old(out)@.len() ==> #[trigger] final(out)@[k] == old(out)@[k],
            forall|k: int|
                old(out)@.len() <= k < final(out)@.len() ==> is_chain(self.lock_file.packages@, (#[trigger] final(out)@[k])@)
                    && extends(final(out)@[k]@, old(path)@),
            forall|c: Seq<usize>|
                is_chain(self.lock_file.packages@, c) && extends(c, old(path)@) ==> found_in(
                    final(out)@,
                    old(out)@.len() as int,
                    c,
                ),
            distinct_from(final(out)@, old(out)@.len() as int),
        decreases self.lock_file.packages@.len() - old(path)@.len(),
    {
        let ghost g = self.lock_file.packages@;
        let ghost walk0 = path@;
        let ghost out0 = out@;
        let n = self.lock_file.packages.len();
        let u = path[path.len() - 1];
        proof {
            lemma_distinct_len(path@, n as nat);
        }
        let entry = self.dependents_entry(u);
        let mut root = entry.is_none();
        if let Some(e) = entry {
            if self.reverse.dependents[e].len() == 0 {
                assert forall|j: int| #![trigger g[j]] !is_dependent(g, j, u as int) by {
                    if is_dependent(g, j, u as int) {
                        assert(self.reverse.dependents@[e as int]@.contains(j as usize));
                    }
                }
                root = true;
            }
        }
        if root {
            let c = copy_walk(path);
            out.push(c);
            proof {
                assert(is_chain(g, walk0));
                assert(extends(walk0, walk0)) by {
                    assert(walk0.subrange(0, walk0.len() as int) =~= walk0);
                }
                assert(out@[out0.len() as int]@ == walk0);
                assert forall|c: Seq<usize>| is_chain(g, c) && extends(c, walk0) implies found_in(out@, out0.len() as int, c) by {
                    let t = walk0.len() - 1;
                    assert(c.subrange(0, walk0.len() as int)[t] == c[t]);
                    if c.len() > walk0.len() {
                        let t = walk0.len() - 1;
                        assert(c[t] == walk0[t]);
                        assert(is_dependent(g, c[t + 1] as int, c[t] as int));
                    }
                    assert(c =~= walk0) by {
                        assert forall|i: int| 0 <= i < c.len() implies c[i] == walk0[i] by {
                            assert(c.subrange(0, walk0.len() as int)[i] == c[i]);
                        }
                    }
                    assert(out@[out0.len() as int]@ == c);
                }
            }
            return;
        }
        let e = entry.unwrap();
        let deps: &Vec<usize> = &self.reverse.dependents[e];
        let mut x: usize = 0;
        while x < deps.len()
            invariant
                g == self.lock_file.packages@,
                self.wf(),
                n == g.len(),
                path@ == walk0,
                old(path)@ == walk0,
                is_walk(g, walk0),
                u == walk0.last(),
                *deps == self.reverse.dependents@[e as int],
                e < self.reverse.names@.len(),
                self.reverse.names@[e as int]@ == g[u as int].1.name@,
                x <= deps@.len(),
                out@.len() >= out0.len(),
                forall|k: int| 0 <= k < out0.len() ==> #[trigger] out@[k] == out0[k],
                forall|k: int|
                    out0.len() <= k < out@.len() ==> is_chain(g, (#[trigger] out@[k])@) && extends(out@[k]@, walk0),
                forall|c: Seq<usize>|
                    is_chain(g, c) && extends(c, walk0) && c.len() > walk0.len() && listed_before(deps@, x as int, c[walk0.len() as int])
                        ==> found_in(out@, out0.len() as int, c),
                distinct_from(out@, out0.len() as int),
                forall|k: int|
                    out0.len() <= k < out@.len() ==> (#[trigger] out@[k])@.len() > walk0.len() && listed_before(
                        deps@,
                        x as int,
                        out@[k]@[walk0.len() as int],
                    ),
            decreases deps@.len() - x,
        {
            let w = deps[x];
            assert(w < n && g[w as int].1.depends_on(g[u as int].1.name@)) by {
                assert(self.reverse.dependents@[e as int]@[x as int] == w);
            }
            let ghost out1 = out@;
            if !walk_contains(path, w) {
                proof {
                    assert(walk0.push(w).no_duplicates()) by {
                        assert forall|a: int, b: int| 0 <= a < b < walk0.len() + 1 implies walk0.push(w)[a] != walk0.push(w)[b] by {
                            if b == walk0.len() {
                                assert(walk0[a] != w);
                            }
                        }
                    }
                    assert forall|k: int| 0 <= k < walk0.push(w).len() implies #[trigger] walk0.push(w)[k] < n as nat by {
                        if k < walk0.len() {
                            assert(walk0.push(w)[k] == walk0[k]);
                        }
                    }
                    lemma_distinct_len(walk0.push(w), n as nat);
                }
                path.push(w);
                assert(is_walk(g, path@)) by {
                    assert(path@.last() == w);
                    assert forall|k: int| 0 <= k < path@.len() - 1 implies is_dependent(g, #[trigger] path@[k + 1] as int, path@[k] as int) by {
                        if k < walk0.len() - 1 {
                            assert(path@[k + 1] == walk0[k + 1]);
                        }
                    }
                }
                assert(path@.len() <= n && path@.len() == walk0.len() + 1);
                self.collect_chains(path, out);
                path.pop();
                assert(path@ =~= walk0);
                proof {
                    assert forall|k: int|
                        out0.len() <= k < out@.len() implies is_chain(g, (#[trigger] out@[k])@) && extends(out@[k]@, walk0) by {
                        if k >= out1.len() {
                            lemma_extends_shorter(out@[k]@, walk0.push(w), walk0);
                        } else {
                            assert(out@[k] == out1[k]);
                        }
                    }
                    assert forall|k: int|
                        out0.len() <= k < out@.len() implies (#[trigger] out@[k])@.len() > walk0.len() && listed_before(
                            deps@,
                            x + 1,
                            out@[k]@[walk0.len() as int],
                        ) by {
                        if k >= out1.len() {
                            lemma_extends_push(out@[k]@, walk0, w);
                            assert(deps@[x as int] == w);
                        } else {
                            assert(out@[k] == out1[k]);
                            let y = choose|y: int| 0 <= y < x && #[trigger] deps@[y] == out1[k]@[walk0.len() as int];
                        }
                    }
                    assert forall|a: int, b: int| out0.len() <= a < b < out@.len() implies (#[trigger] out@[a])@ != (#[trigger] out@[b])@ by {
                        if b < out1.len() {
                            assert(out@[a] == out1[a]);
                            assert(out@[b] == out1[b]);
                        } else if a < out1.len() {
                            assert(out@[a] == out1[a]);
                            let y = choose|y: int| 0 <= y < x && #[trigger] deps@[y] == out1[a]@[walk0.len() as int];
                            lemma_extends_push(out@[b]@, walk0, w);
                            assert(self.reverse.dependents@[e as int]@[y] < self.reverse.dependents@[e as int]@[x as int]);
                        }
                    }
                    assert forall|c: Seq<usize>|
                        is_chain(g, c) && extends(c, walk0) && c.len() > walk0.len() && listed_before(deps@, x + 1, c[walk0.len() as int])
                            implies found_in(out@, out0.len() as int, c) by {
                        let y = choose|y: int| 0 <= y < x + 1 && #[trigger] deps@[y] == c[walk0.len() as int];
                        if y < x {
                            assert(listed_before(deps@, x as int, c[walk0.len() as int]));
                            let k = choose|k: int| out0.len() <= k < out1.len() && (#[trigger] out1[k])@ == c;
                            assert(out@[k] == out1[k]);
                        } else {
                            assert(extends(c, walk0.push(w))) by {
                                assert(c.subrange(0, walk0.len() + 1int) =~= walk0.push(w)) by {
                                    assert(c.subrange(0, walk0.len() as int) == walk0);
                                    assert forall|i: int| 0 <= i < walk0.len() implies c[i] == walk0[i] by {
                                        assert(c.subrange(0, walk0.len() as int)[i] == c[i]);
                                    }
                                }
                            }
                        }
                    }
                }
            } else {
                proof {
                    assert forall|c: Seq<usize>|
                        is_chain(g, c) && extends(c, walk0) && c.len() > walk0.len() && listed_before(deps@, x + 1, c[walk0.len() as int])
                            implies found_in(out@, out0.len() as int, c) by {
                        let y = choose|y: int| 0 <= y < x + 1 && #[trigger] deps@[y] == c[walk0.len() as int];
                        if y < x {
                            assert(listed_before(deps@, x as int, c[walk0.len() as int]));
                        } else {
                            let i = choose|i: int| 0 <= i < walk0.len() && walk0[i] == w;
                            assert(c.subrange(0, walk0.len() as int)[i] == c[i]);
                            assert(c[i] == c[walk0.len() as int]);
                        }
                    }
                }
            }
            x = x + 1;
        }
        proof {
            assert forall|c: Seq<usize>| is_chain(g, c) && extends(c, walk0) implies found_in(out@, out0.len() as int, c) by {
                let t = walk0.len() - 1;
                assert(c.subrange(0, walk0.len() as int)[t] == c[t]);
                if c.len() == walk0.len() {
                    let w = deps@[0];
                    assert(self.reverse.dependents@[e as int]@[0] == w);
                    assert(is_dependent(g, w as int, c.last() as int));
                } else {
                    assert(is_dependent(g, c[t + 1] as int, c[t] as int));
                    assert(self.reverse.dependents@[e as int]@.contains(c[t + 1]));
                    let y = choose|y: int| 0 <= y < deps@.len() && deps@[y] == c[t + 1];
                    assert(deps@[y] == c[walk0.len() as int]);
                    assert(listed_before(deps@, deps@.len() as int, c[walk0.len() as int]));
                }
            }
        }
    }

    /// Every chain from package `m`, in depth-first order.
    pub fn all_chains(&self, m: usize) -> (r: Vec<Vec<usize>>)
        requires
            self.wf(),
            m < self.lock_file.packages@.len(),
        ensures
            forall|k: int| 0 <= k < r@.len() ==> is_chain(self.lock_file.packages@, (#[trigger] r@[k])@) && r@[k]@[0] == m,
            forall|c: Seq<usize>|
                is_chain(self.lock_file.packages@, c) && c[0] == m ==> exists|k: int| 0 <= k < r@.len() && (#[trigger] r@[k])@ == c,
            distinct_from(r@, 0),
    {
        let ghost g = self.lock_file.packages@;
        let mut path: Vec<usize> = Vec::new();
        path.push(m);
        let mut out: Vec<Vec<usize>> = Vec::new();
        self.collect_chains(&mut path, &mut out);
        proof {
            assert forall|k: int| 0 <= k < out@.len() implies is_chain(g, (#[trigger] out@[k])@) && out@[k]@[0] == m by {
                assert(out@[k]@.subrange(0, 1)[0] == out@[k]@[0]);
            }
            assert forall|c: Seq<usize>| is_chain(g, c) && c[0] == m implies exists|k: int| 0 <= k < out@.len() && (#[trigger] out@[k])@ == c by {
                assert(extends(c, path@)) by {
                    assert(c.subrange(0, 1) =~= path@);
                }
                assert(found_in(out@, 0, c));
            }
        }
        out
    }

    /// `cs` answers the query `name` / `version` in the given mode: every
    /// entry is a chain from a matching package, grouped by matching package
    /// in graph order; the shortest mode gives one chain for each matching
    /// package from which a top-level package can be reached, the all-paths
    /// mode gives every chain.
    pub open spec fn answers(
        &self,
        name: Seq<char>,
        version: Option<Seq<char>>,
        all_paths: bool,
        cs: Seq<Vec<usize>>,
    ) -> bool {
        let g = self.lock_file.packages@;
        &&& forall|k: int|
            0 <= k < cs.len() ==> is_chain(g, (#[trigger] cs[k])@) && is_match(g, cs[k]@[0] as int, name, version)
        &&& forall|a: int, b: int| 0 <= a < b < cs.len() ==> (#[trigger] cs[a])@[0] <= (#[trigger] cs[b])@[0]
        &&& all_paths ==> forall|c: Seq<usize>|
            is_chain(g, c) && is_match(g, c[0] as int, name, version) ==> found_in(cs, 0, c)
        &&& all_paths ==> distinct_from(cs, 0)
        &&& !all_paths ==> forall|a: int, b: int|
            0 <= a < b < cs.len() ==> (#[trigger] cs[a])@[0] < (#[trigger] cs[b])@[0]
        &&& !all_paths ==> forall|k: int| 0 <= k < cs.len() ==> is_shortest(g, (#[trigger] cs[k])@)
        &&& !all_paths ==> forall|c: Seq<usize>|
            is_chain(g, c) && is_match(g, c[0] as int, name, version) ==> exists|k: int|
                0 <= k < cs.len() && (#[trigger] cs[k])@[0] == c[0]
    }

    /// The chains answering a query, as package positions.
    #[verifier::rlimit(80)]
    pub fn trace_indices(&self, name: &String, version: &Option<String>, all_paths: bool) -> (r: Vec<Vec<usize>>)
        requires
            self.wf(),
        ensures
            self.answers(name@, opt_view(version), all_paths, r@),
    {
        let ghost g = self.lock_file.packages@;
        let ghost ver = opt_view(version);
        let n = self.lock_file.packages.len();
        let mut out: Vec<Vec<usize>> = Vec::new();
        let mut i: usize = 0;
        while i < n
            invariant
                g == self.lock_file.packages@,
                ver == opt_view(version),
                self.wf(),
                n == g.len(),
                i <= n,
                forall|k: int|
                    0 <= k < out@.len() ==> is_chain(g, (#[trigger] out@[k])@) && is_match(g, out@[k]@[0] as int, name@, ver)
                        && out@[k]@[0] < i,
                forall|a: int, b: int| 0 <= a < b < out@.len() ==> (#[trigger] out@[a])@[0] <= (#[trigger] out@[b])@[0],
                all_paths ==> forall|c: Seq<usize>|
                    is_chain(g, c) && is_match(g, c[0] as int, name@, ver) && c[0] < i ==> found_in(out@, 0, c),
                all_paths ==> distinct_from(out@, 0),
                !all_paths ==> forall|a: int, b: int|
                    0 <= a < b < out@.len() ==> (#[trigger] out@[a])@[0] < (#[trigger] out@[b])@[0],
                !all_paths ==> forall|k: int| 0 <= k < out@.len() ==> is_shortest(g, (#[trigger] out@[k])@),
                !all_paths ==> forall|c: Seq<usize>|
                    is_chain(g, c) && is_match(g, c[0] as int, name@, ver) && c[0] < i ==> exists|k: int|
                        0 <= k < out@.len() && (#[trigger] out@[k])@[0] == c[0],
            decreases n - i,
        {
            let p: &Package = &self.lock_file.packages[i].1;
            let hit = answers_query(p, name, version);
            let ghost out1 = out@;
            if hit {
                assert(is_match(g, i as int, name@, ver));
                if all_paths {
                    let mut chains = self.all_chains(i);
                    let ghost found = chains@;
                    out.append(&mut chains);
                    proof {
                        assert forall|k: int| 0 <= k < out@.len() implies is_chain(g, (#[trigger] out@[k])@)
                            && is_match(g, out@[k]@[0] as int, name@, ver) && out@[k]@[0] < i + 1 by {
                            if k >= out1.len() {
                                assert(out@[k] == found[k - out1.len()]);
                            } else {
                                assert(out@[k] == out1[k]);
                            }
                        }
                        assert forall|a: int, b: int| 0 <= a < b < out@.len() implies (#[trigger] out@[a])@[0] <= (#[trigger] out@[b])@[0] by {
                            if b >= out1.len() {
                                assert(out@[b] == found[b - out1.len()]);
                                if a >= out1.len() {
                                    assert(out@[a] == found[a - out1.len()]);
                                } else {
                                    assert(out@[a] == out1[a]);
                                }
                            } else {
                                assert(out@[a] == out1[a]);
                                assert(out@[b] == out1[b]);
                            }
                        }
                        assert forall|a: int, b: int| 0 <= a < b < out@.len() implies (#[trigger] out@[a])@ != (#[trigger] out@[b])@ by {
                            if b >= out1.len() {
                                assert(out@[b] == found[b - out1.len()]);
                                if a >= out1.len() {
                                    assert(out@[a] == found[a - out1.len()]);
                                } else {
                                    assert(out@[a] == out1[a]);
                                }
                            } else {
                                assert(out@[a] == out1[a]);
                                assert(out@[b] == out1[b]);
                            }
                        }
                        assert forall|c: Seq<usize>|
                            is_chain(g, c) && is_match(g, c[0] as int, name@, ver) && c[0] < i + 1 implies found_in(out@, 0, c) by {
                            if c[0] < i {
                                let k = choose|k: int| 0 <= k < out1.len() && (#[trigger] out1[k])@ == c;
                                assert(out@[k] == out1[k]);
                            } else {
                                let k = choose|k: int| 0 <= k < found.len() && (#[trigger] found[k])@ == c;
                                assert(out@[out1.len() + k] == found[k]);
                            }
                        }
                    }
                } else {
                    match self.shortest_chain(i) {
                        Some(c) => {
                            out.push(c);
                            proof {
                                assert forall|k: int| 0 <= k < out@.len() implies is_chain(g, (#[trigger] out@[k])@)
                                    && is_match(g, out@[k]@[0] as int, name@, ver) && out@[k]@[0] < i + 1 by {
                                    if k < out1.len() {
                                        assert(out@[k] == out1[k]);
                                    }
                                }
                                assert forall|k: int| 0 <= k < out@.len() implies is_shortest(g, (#[trigger] out@[k])@) by {
                                    if k < out1.len() {
                                        assert(out@[k] == out1[k]);
                                    }
                                }
                                assert forall|a: int, b: int| 0 <= a < b < out@.len() implies (#[trigger] out@[a])@[0] < (#[trigger] out@[b])@[0] by {
                                    assert(out@[a] == out1[a]);
                                    if b < out1.len() {
                                        assert(out@[b] == out1[b]);
                                    }
                                }
                                assert forall|cc: Seq<usize>|
                                    is_chain(g, cc) && is_match(g, cc[0] as int, name@, ver) && cc[0] < i + 1 implies exists|k: int|
                                        0 <= k < out@.len() && (#[trigger] out@[k])@[0] == cc[0] by {
                                    if cc[0] < i {
                                        let k = choose|k: int| 0 <= k < out1.len() && (#[trigger] out1[k])@[0] == cc[0];
                                        assert(out@[k] == out1[k]);
                                    } else {
                                        assert(out@[out1.len() as int]@[0] == cc[0]);
                                    }
                                }
                            }
                        },
                        None => {},
                    }
                }
            } else {
                assert forall|c: Seq<usize>| is_chain(g, c) && is_match(g, c[0] as int, name@, ver) implies c[0] != i by {
                    if c[0] == i {
                        assert(p.name@ == name@);
                    }
                }
            }
            i = i + 1;
        }
        out
    }

    /// Why is `name` (at `version`, when given) installed: the chains from
    /// each matching package up to a top-level package. An unknown name gives
    /// no chains.
    pub fn trace(&self, name: &str, version: Option<&str>, all_paths: bool) -> (r: Vec<Vec<DependencyNode>>)
        requires
            self.wf(),
        ensures
            exists|cs: Seq<Vec<usize>>|
                self.answers(name@, opt_str_view(version), all_paths, cs) && reports(
                    self.lock_file.packages@,
                    cs,
                    r@,
                ),
    {
        let name_s = String::from_str(name);
        let version_s: Option<String> = match version {
            Some(v) => Some(String::from_str(v)),
            None => None,
        };
        let cs = self.trace_indices(&name_s, &version_s, all_paths);
        let r = self.to_nodes(&cs);
        r
    }

    /// The reported form of chains given as package positions.
    pub fn to_nodes(&self, cs: &Vec<Vec<usize>>) -> (r: Vec<Vec<DependencyNode>>)
        requires
            forall|k: int, t: int|
                0 <= k < cs@.len() && 0 <= t < cs@[k]@.len() ==> #[trigger] cs@[k]@[t] < self.lock_file.packages@.len(),
        ensures
            reports(self.lock_file.packages@, cs@, r@),
    {
        let ghost g = self.lock_file.packages@;
        let mut r: Vec<Vec<DependencyNode>> = Vec::new();
        let mut k: usize = 0;
        while k < cs.len()
            invariant
                g == self.lock_file.packages@,
                forall|k: int, t: int|
                    0 <= k < cs@.len() && 0 <= t < cs@[k]@.len() ==> #[trigger] cs@[k]@[t] < g.len(),
                k <= cs@.len(),
                reports(g, cs@.subrange(0, k as int), r@),
            decreases cs@.len() - k,
        {
            let c: &Vec<usize> = &cs[k];
            let mut nodes: Vec<DependencyNode> = Vec::new();
            let mut t: usize = 0;
            while t < c.len()
                invariant
                    g == self.lock_file.packages@,
                    *c == cs@[k as int],
                    k < cs@.len(),
                    forall|k: int, t: int|
                        0 <= k < cs@.len() && 0 <= t < cs@[k]@.len() ==> #[trigger] cs@[k]@[t] < g.len(),
                    t <= c@.len(),
                    nodes@.len() == t,
                    forall|x: int| 0 <= x < t ==> node_is(g, c@[x], #[trigger] nodes@[x]),
                decreases c@.len() - t,
            {
                let i = c[t];
                assert(cs@[k as int]@[t as int] < g.len());
                let p: &Package = &self.lock_file.packages[i].1;
                nodes.push(DependencyNode { name: p.name.clone(), version: p.version.clone() });
                t = t + 1;
            }
            let ghost r0 = r@;
            r.push(nodes);
            proof {
                let sub = cs@.subrange(0, k + 1);
                assert forall|a: int| 0 <= a < sub.len() implies (#[trigger] r@[a])@.len() == sub[a]@.len()
                    && forall|x: int| 0 <= x < sub[a]@.len() ==> node_is(g, sub[a]@[x], #[trigger] r@[a]@[x]) by {
                    if a < k {
                        assert(r@[a] == r0[a]);
                        assert(sub[a] == cs@.subrange(0, k as int)[a]);
                    }
                }
            }
            k = k + 1;
        }
        assert(cs@.subrange(0, cs@.len() as int) =~= cs@);
        r
    }
}


/// The package has the name asked for, and the version when one is asked for.
fn answers_query(p: &Package, name: &String, version: &Option<String>) -> (r: bool)
    ensures
        r == (p.name@ == name@ && match opt_view(version) {
            Some(v) => p.version@ == v,
            None => true,
        }),
{
    if p.name != *name {
        return false;
    }
    match version {
        Some(v) => p.version == *v,
        None => true,
    }
}

/// The reported node `d` names package `i` of `g`.
pub open spec fn node_is(g: Seq<(String, Package)>, i: usize, d: DependencyNode) -> bool {
    d.name@ == g[i as int].1.name@ && d.version@ == g[i as int].1.version@
}

/// `r` reports the chains `cs` of `g`, node for position.
pub open spec fn reports(g: Seq<(String, Package)>, cs: Seq<Vec<usize>>, r: Seq<Vec<DependencyNode>>) -> bool {
    &&& r.len() == cs.len()
    &&& forall|a: int|
        0 <= a < cs.len() ==> (#[trigger] r[a])@.len() == cs[a]@.len() && forall|x: int|
            0 <= x < cs[a]@.len() ==> node_is(g, cs[a]@[x], #[trigger] r[a]@[x])
}

pub open spec fn opt_view(v: &Option<String>) -> Option<Seq<char>> {
    match v {
        Some(s) => Some(s@),
        None => None,
    }
}

pub open spec fn opt_str_view(v: Option<&str>) -> Option<Seq<char>> {
    match v {
        Some(s) => Some(s@),
        None => None,
    }
}

/// Shortest-mode answers are repeatable in length: any two shortest chains
/// from the same package (as every shortest-mode answer of `trace` gives,
/// see `answers`) have the same length.
pub proof fn lemma_shortest_mode_repeatable(g: Seq<(String, Package)>, c1: Seq<usize>, c2: Seq<usize>)
    requires
        is_chain(g, c1),
        is_chain(g, c2),
        is_shortest(g, c1),
        is_shortest(g, c2),
        c1[0] == c2[0],
    ensures
        c1.len() == c2.len(),
{
    reveal(is_shortest);
    assert(c1.len() <= c2.len());
    assert(c2.len() <= c1.len());
}

/// A query that no package matches is answered with no chain.
pub proof fn lemma_unknown_name_no_chains(
    t: DependencyTracer,
    name: Seq<char>,
    version: Option<Seq<char>>,
    all_paths: bool,
    cs: Seq<Vec<usize>>,
)
    requires
        t.answers(name, version, all_paths, cs),
        forall|i: int| !is_match(t.lock_file.packages@, i, name, version),
    ensures
        cs.len() == 0,
{
    if cs.len() > 0 {
        assert(is_match(t.lock_file.packages@, cs[0]@[0] as int, name, version));
    }
}

/// A walk upward through dependents: non-empty, in range, no package twice.
pub open spec fn is_walk(g: Seq<(String, Package)>, p: Seq<usize>) -> bool {
    &&& p.len() > 0
    &&& forall|k: int| 0 <= k < p.len() ==> #[trigger] p[k] < g.len()
    &&& forall|k: int| 0 <= k < p.len() - 1 ==> is_dependent(g, #[trigger] p[k + 1] as int, p[k] as int)
    &&& p.no_duplicates()
}

/// Some entry of `out` from position `from` on is `c`.
pub open spec fn found_in(out: Seq<Vec<usize>>, from: int, c: Seq<usize>) -> bool {
    exists|k: int| from <= k < out.len() && (#[trigger] out[k])@ == c
}

/// `w` is among the first `x` entries of `deps`.
pub open spec fn listed_before(deps: Seq<usize>, x: int, w: usize) -> bool {
    exists|y: int| 0 <= y < x && #[trigger] deps[y] == w
}

/// No two entries of `out` from position `from` on are the same chain.
pub open spec fn distinct_from(out: Seq<Vec<usize>>, from: int) -> bool {
    forall|a: int, b: int| from <= a < b < out.len() ==> (#[trigger] out[a])@ != (#[trigger] out[b])@
}

/// A chain that begins with `p` followed by `w` has `w` right after `p`.
proof fn lemma_extends_push(c: Seq<usize>, p: Seq<usize>, w: usize)
    requires
        extends(c, p.push(w)),
    ensures
        c.len() > p.len(),
        c[p.len() as int] == w,
{
    assert(c.subrange(0, p.len() + 1int)[p.len() as int] == c[p.len() as int]);
}

/// `c` begins with `p`.
pub open spec fn extends(c: Seq<usize>, p: Seq<usize>) -> bool {
    c.len() >= p.len() && c.subrange(0, p.len() as int) == p
}

proof fn lemma_extends_shorter(c: Seq<usize>, p: Seq<usize>, q: Seq<usize>)
    requires
        extends(c, p),
        extends(p, q),
    ensures
        extends(c, q),
{
    assert(c.subrange(0, q.len() as int) =~= q) by {
        assert forall|i: int| 0 <= i < q.len() implies c.subrange(0, q.len() as int)[i] == q[i] by {
            assert(c.subrange(0, p.len() as int)[i] == c[i]);
            assert(p.subrange(0, q.len() as int)[i] == p[i]);
        }
    }
}

/// A sequence of distinct positions below `n` has at most `n` entries.
proof fn lemma_distinct_len(s: Seq<usize>, n: nat)
    requires
        s.no_duplicates(),
        forall|k: int| 0 <= k < s.len() ==> #[trigger] s[k] < n,
    ensures
        s.len() <= n,
{
    let t = s.map_values(|x: usize| x as int);
    assert(t.no_duplicates()) by {
        assert forall|a: int, b: int| 0 <= a < t.len() && 0 <= b < t.len() && a != b implies t[a] != t[b] by {
            assert(s[a] != s[b]);
        }
    }
    t.unique_seq_to_set();
    lemma_int_range(0, n as int);
    assert forall|v: int| t.to_set().contains(v) implies set_int_range(0, n as int).contains(v) by {
        let k = choose|k: int| 0 <= k < t.len() && t[k] == v;
        assert(s[k] < n);
    }
    lemma_len_subset(t.to_set(), set_int_range(0, n as int));
}

/// A copy of a walk.
fn copy_walk(p: &Vec<usize>) -> (r: Vec<usize>)
    ensures
        r@ == p@,
{
    let mut r: Vec<usize> = Vec::new();
    let mut k: usize = 0;
    while k < p.len()
        invariant
            k <= p@.len(),
            r@ == p@.subrange(0, k as int),
        decreases p@.len() - k,
    {
        r.push(p[k]);
        k = k + 1;
        assert(r@ =~= p@.subrange(0, k as int));
    }
    assert(r@ =~= p@);
    r
}

/// `w` lies on the walk `p`.
fn walk_contains(p: &Vec<usize>, w: usize) -> (r: bool)
    ensures
        r == p@.contains(w),
{
    let mut k: usize = 0;
    while k < p.len()
        invariant
            k <= p@.len(),
            forall|i: int| 0 <= i < k ==> p@[i] != w,
        decreases p@.len() - k,
    {
        if p[k] == w {
            return true;
        }
        k = k + 1;
    }
    false
}

/// State of a breadth-first search upward from one package: which packages
/// were reached, through which dependent, and in what order.
struct Frontier {
    visited: Vec<bool>,
    parent: Vec<usize>,
    queue: Vec<usize>,
    dist: Ghost<Seq<nat>>,
    seen: Ghost<Set<int>>,
}

impl Frontier {
    /// Bookkeeping that holds throughout a search from `m` over graph `g`:
    /// each reached package other than `m` was reached from a reached package
    /// it depends on, one step farther from `m`.
    spec fn links(&self, g: Seq<(String, Package)>, m: int) -> bool {
        let n = g.len();
        let dist = self.dist@;
        let seen = self.seen@;
        &&& 0 <= m < n
        &&& self.visited@.len() == n
        &&& self.parent@.len() == n
        &&& dist.len() == n
        &&& self.queue@.len() <= n
        &&& seen.finite()
        &&& self.queue@.len() == seen.len()
        &&& seen.subset_of(set_int_range(0, n as int))
        &&& forall|v: int| 0 <= v < n ==> (#[trigger] self.visited@[v] <==> seen.contains(v))
        &&& forall|q: int| 0 <= q < self.queue@.len() ==> #[trigger] self.queue@[q] < n && self.visited@[self.queue@[q] as int]
        &&& forall|v: int| 0 <= v < n && #[trigger] self.visited@[v] ==> exists|q: int| 0 <= q < self.queue@.len() && self.queue@[q] == v
        &&& self.visited@[m]
        &&& dist[m] == 0
        &&& forall|v: int|
            0 <= v < n && v != m && #[trigger] self.visited@[v] ==> {
                let p = self.parent@[v] as int;
                p < n && self.visited@[p] && is_dependent(g, v, p) && dist[v] == dist[p] + 1
            }
    }

    /// The first `head` queued packages are not top-level and all their
    /// dependents were reached.
    spec fn settled(&self, g: Seq<(String, Package)>, head: int) -> bool {
        forall|q: int|
            0 <= q < head ==> !is_root(g, #[trigger] self.queue@[q] as int) && forall|j: int|
                is_dependent(g, j, self.queue@[q] as int) ==> self.visited@[j] && self.dist@[j] <= self.dist@[self.queue@[q] as int]
                    + 1
    }

    /// Distances along the queue never decrease, and no queued package is more
    /// than one step farther than the one at `head`.
    spec fn ordered(&self, head: int) -> bool {
        &&& forall|a: int, b: int|
            0 <= a < b < self.queue@.len() ==> self.dist@[(#[trigger] self.queue@[a]) as int] <= self.dist@[(
            #[trigger] self.queue@[b]) as int]
        &&& head < self.queue@.len() ==> forall|q: int|
            0 <= q < self.queue@.len() ==> self.dist@[(#[trigger] self.queue@[q]) as int] <= self.dist@[self.queue@[head] as int]
                + 1
    }

    /// A queued package strictly nearer than the one at `head` was queued
    /// before it.
    proof fn lemma_nearer_is_settled(&self, head: int, q: int)
        requires
            self.ordered(head),
            0 <= head < self.queue@.len(),
            0 <= q < self.queue@.len(),
            self.dist@[self.queue@[q] as int] < self.dist@[self.queue@[head] as int],
        ensures
            q < head,
    {
        if q > head {
            assert(self.dist@[self.queue@[head] as int] <= self.dist@[self.queue@[q] as int]);
        }
    }

    /// Along a walk from `m`, each of the first steps nearer than the package
    /// at `head` reaches a package no farther than its step count.
    proof fn lemma_early_steps_settled(&self, g: Seq<(String, Package)>, m: int, head: int, c: Seq<usize>, k: int)
        requires
            self.links(g, m),
            self.settled(g, head),
            self.ordered(head),
            0 <= head < self.queue@.len(),
            0 <= k < c.len(),
            k < self.dist@[self.queue@[head] as int],
            c[0] == m,
            forall|t: int| 0 <= t < c.len() ==> #[trigger] c[t] < g.len(),
            forall|t: int| 0 <= t < c.len() - 1 ==> is_dependent(g, #[trigger] c[t + 1] as int, c[t] as int),
        ensures
            self.visited@[c[k] as int],
            self.dist@[c[k] as int] <= k,
        decreases k,
    {
        if k > 0 {
            self.lemma_early_steps_settled(g, m, head, c, k - 1);
            let t = k - 1;
            assert(is_dependent(g, c[t + 1] as int, c[t] as int));
            assert(c[t] < g.len());
            let q = choose|q: int| 0 <= q < self.queue@.len() && self.queue@[q] == c[t];
            assert(self.queue@[q] == c[t]);
            self.lemma_nearer_is_settled(head, q);
        }
    }

    fn start(n: usize, m: usize) -> (r: Frontier)
        requires
            m < n,
        ensures
            forall|g: Seq<(String, Package)>| g.len() == n ==> r.links(g, m as int) && r.settled(g, 0),
            r.ordered(0),
            r.queue@.len() == 1,
            r.queue@[0] == m,
    {
        let mut visited: Vec<bool> = Vec::new();
        let mut parent: Vec<usize> = Vec::new();
        let mut i: usize = 0;
        while i < n
            invariant
                i <= n,
                visited@.len() == i,
                parent@.len() == i,
                forall|v: int| 0 <= v < i ==> !(#[trigger] visited@[v]),
            decreases n - i,
        {
            visited.push(false);
            parent.push(0);
            i = i + 1;
        }
        visited.set(m, true);
        let mut queue: Vec<usize> = Vec::new();
        queue.push(m);
        let ghost dist = Seq::new(n as nat, |v: int| 0nat);
        let ghost seen = Set::empty().insert(m as int);
        let r = Frontier { visited, parent, queue, dist: Ghost(dist), seen: Ghost(seen) };
        proof {
            lemma_int_range(0, n as int);
            assert forall|v: int| 0 <= v < n && #[trigger] r.visited@[v] implies exists|q: int|
                0 <= q < r.queue@.len() && r.queue@[q] == v by {
                assert(v == m);
                assert(r.queue@[0] == v);
            }
        }
        r
    }

    /// Reaches every dependent of the package queued at `head`, whose
    /// reverse-index entry is `e`.
    #[verifier::rlimit(50)]
    fn expand(&mut self, t: &DependencyTracer, head: usize, e: usize)
        requires
            t.wf(),
            old(self).links(t.lock_file.packages@, old(self).queue@[0] as int),
            old(self).settled(t.lock_file.packages@, head as int),
            old(self).ordered(head as int),
            head < old(self).queue@.len(),
            e < t.reverse.names@.len(),
            t.reverse.names@[e as int]@ == t.lock_file.packages@[old(self).queue@[head as int] as int].1.name@,
            t.reverse.dependents@[e as int].len() > 0,
        ensures
            final(self).queue@[0] == old(self).queue@[0],
            final(self).queue@[head as int] == old(self).queue@[head as int],
            final(self).links(t.lock_file.packages@, old(self).queue@[0] as int),
            final(self).settled(t.lock_file.packages@, head + 1),
            final(self).ordered(head + 1),
            final(self).queue@.len() >= old(self).queue@.len(),
    {
        let ghost g = t.lock_file.packages@;
        let ghost m = self.queue@[0] as int;
        let n = t.lock_file.packages.len();
        let u = self.queue[head];
        let ghost du = self.dist@[u as int];
        let deps: &Vec<usize> = &t.reverse.dependents[e];
        let mut x: usize = 0;
        while x < deps.len()
            invariant
                g == t.lock_file.packages@,
                t.wf(),
                n == g.len(),
                *deps == t.reverse.dependents@[e as int],
                e < t.reverse.names@.len(),
                t.reverse.names@[e as int]@ == g[u as int].1.name@,
                head < self.queue@.len(),
                self.queue@[head as int] == u,
                self.queue@[0] == m,
                self.queue@.len() >= old(self).queue@.len(),
                self.links(g, m),
                self.settled(g, head as int),
                self.dist@[u as int] == du,
                forall|a: int, b: int|
                    0 <= a < b < self.queue@.len() ==> self.dist@[(#[trigger] self.queue@[a]) as int] <= self.dist@[(
                    #[trigger] self.queue@[b]) as int],
                forall|q: int| 0 <= q < self.queue@.len() ==> self.dist@[(#[trigger] self.queue@[q]) as int] <= du + 1,
                x <= deps@.len(),
                forall|y: int| 0 <= y < x ==> self.visited@[#[trigger] deps@[y] as int] && self.dist@[deps@[y] as int] <= du + 1,
            decreases deps@.len() - x,
        {
            let w = deps[x];
            assert(w < n && g[w as int].1.depends_on(g[u as int].1.name@)) by {
                assert(t.reverse.dependents@[e as int]@[x as int] == w);
            }
            if !self.visited[w] {
                let ghost old_queue = self.queue@;
                let ghost old_visited = self.visited@;
                let ghost old_parent = self.parent@;
                let ghost old_dist = self.dist@;
                proof {
                    lemma_int_range(0, n as int);
                    lemma_len_subset(self.seen@.insert(w as int), set_int_range(0, n as int));
                }
                let ghost new_dist = self.dist@.update(w as int, self.dist@[u as int] + 1);
                let ghost new_seen = self.seen@.insert(w as int);
                self.dist = Ghost(new_dist);
                self.seen = Ghost(new_seen);
                self.visited.set(w, true);
                self.parent.set(w, u);
                self.queue.push(w);
                assert forall|v: int| 0 <= v < n && #[trigger] self.visited@[v] implies exists|q: int|
                    0 <= q < self.queue@.len() && self.queue@[q] == v by {
                    if v == w {
                        assert(self.queue@[self.queue@.len() - 1] == v);
                    } else {
                        assert(old_visited[v]);
                        let q = choose|q: int| 0 <= q < old_queue.len() && old_queue[q] == v;
                        assert(self.queue@[q] == v);
                    }
                }
                assert forall|v: int|
                    0 <= v < n && v != m && #[trigger] self.visited@[v] implies {
                        let p = self.parent@[v] as int;
                        p < n && self.visited@[p] && is_dependent(g, v, p) && self.dist@[v] == self.dist@[p] + 1
                    } by {
                    if v != w {
                        assert(old_visited[v]);
                        let p = old_parent[v] as int;
                        assert(p != w);
                    }
                }
                assert forall|q: int| 0 <= q < self.queue@.len() implies #[trigger] self.queue@[q] < n
                    && self.visited@[self.queue@[q] as int] by {
                    if q < old_queue.len() {
                        assert(self.queue@[q] == old_queue[q]);
                    }
                }
                assert forall|q: int|
                    0 <= q < head implies !is_root(g, #[trigger] self.queue@[q] as int) && forall|j: int|
                        is_dependent(g, j, self.queue@[q] as int) ==> self.visited@[j] && self.dist@[j] <= self.dist@[self.queue@[q] as int]
                            + 1 by {
                    assert(self.queue@[q] == old_queue[q]);
                    assert(old_visited[old_queue[q] as int]);
                    assert forall|j: int| is_dependent(g, j, self.queue@[q] as int) implies self.visited@[j] && self.dist@[j] <= self.dist@[self.queue@[q] as int]
                        + 1 by {
                        assert(old_visited[j]);
                    }
                }
                assert forall|a: int, b: int|
                    0 <= a < b < self.queue@.len() implies self.dist@[(#[trigger] self.queue@[a]) as int] <= self.dist@[(
                    #[trigger] self.queue@[b]) as int] by {
                    assert(self.queue@[a] == old_queue[a]);
                    assert(old_visited[old_queue[a] as int]);
                    if b < old_queue.len() {
                        assert(self.queue@[b] == old_queue[b]);
                        assert(old_visited[old_queue[b] as int]);
                    }
                }
                assert forall|q: int| 0 <= q < self.queue@.len() implies self.dist@[(#[trigger] self.queue@[q]) as int] <= du + 1 by {
                    if q < old_queue.len() {
                        assert(self.queue@[q] == old_queue[q]);
                        assert(old_visited[old_queue[q] as int]);
                    }
                }
                assert forall|y: int| 0 <= y < x implies self.visited@[#[trigger] deps@[y] as int] && self.dist@[deps@[y] as int] <= du + 1 by {
                    assert(old_visited[deps@[y] as int]);
                }
            }
            x = x + 1;
        }
        proof {
            assert(!is_root(g, u as int)) by {
                let w = deps@[0];
                assert(t.reverse.dependents@[e as int]@[0] == w);
                assert(is_dependent(g, w as int, u as int));
            }
            assert forall|j: int| is_dependent(g, j, u as int) implies self.visited@[j] && self.dist@[j] <= self.dist@[u as int] + 1 by {
                assert(t.reverse.dependents@[e as int]@.contains(j as usize));
                let y = choose|y: int| 0 <= y < deps@.len() && deps@[y] == j as usize;
                assert(self.visited@[deps@[y] as int]);
            }
            assert(self.settled(g, head + 1)) by {
                assert forall|q: int|
                    0 <= q < head + 1 implies !is_root(g, #[trigger] self.queue@[q] as int) && forall|j: int|
                        is_dependent(g, j, self.queue@[q] as int) ==> self.visited@[j] && self.dist@[j] <= self.dist@[self.queue@[q] as int]
                            + 1 by {
                    if q == head {
                        assert(self.queue@[q] == u);
                    }
                }
            }
            if head + 1 < self.queue@.len() {
                assert(self.dist@[self.queue@[head as int] as int] <= self.dist@[self.queue@[head + 1] as int]);
            }
        }
    }

    /// The chain from `m` up to the reached top-level package `root`, read off
    /// the recorded dependents.
    fn chain_to(&self, g: Ghost<Seq<(String, Package)>>, m: usize, root: usize) -> (c: Vec<usize>)
        requires
            self.links(g@, m as int),
            root < g@.len(),
            self.visited@[root as int],
            is_root(g@, root as int),
        ensures
            is_chain(g@, c@),
            c@[0] == m,
            c@.len() == self.dist@[root as int] + 1,
    {
        let ghost g = g@;
        let ghost n = g.len();
        let ghost dist = self.dist@;
        let mut path: Vec<usize> = Vec::new();
        path.push(root);
        let mut cur: usize = root;
        while cur != m
            invariant
                self.links(g, m as int),
                n == g.len(),
                dist == self.dist@,
                root < n,
                cur < n,
                self.visited@[cur as int],
                path@.len() >= 1,
                path@[0] == root,
                path@.last() == cur,
                forall|k: int|
                    0 <= k < path@.len() ==> #[trigger] path@[k] < n && dist[path@[k] as int] + k == dist[root as int],
                forall|k: int|
                    0 <= k < path@.len() - 1 ==> is_dependent(g, #[trigger] path@[k] as int, path@[k + 1] as int),
            decreases dist[cur as int],
        {
            assert(self.visited@[cur as int]);
            cur = self.parent[cur];
            path.push(cur);
        }
        let len = path.len();
        let mut c: Vec<usize> = Vec::new();
        let mut k: usize = 0;
        while k < len
            invariant
                len == path@.len(),
                k <= len,
                c@.len() == k,
                forall|t: int| 0 <= t < k ==> #[trigger] c@[t] == path@[len - 1 - t],
            decreases len - k,
        {
            c.push(path[len - 1 - k]);
            k = k + 1;
        }
        proof {
            assert forall|t: int| 0 <= t < c@.len() - 1 implies is_dependent(g, #[trigger] c@[t + 1] as int, c@[t] as int) by {
                assert(c@[t + 1] == path@[len - 2 - t]);
                assert(c@[t] == path@[(len - 2 - t) + 1]);
            }
            assert forall|a: int, b: int| 0 <= a < c@.len() && 0 <= b < c@.len() && a != b implies c@[a] != c@[b] by {
                assert(c@[a] == path@[len - 1 - a]);
                assert(c@[b] == path@[len - 1 - b]);
            }
            assert(c@.last() == path@[0]);
            assert(c@[0] == path@[len - 1]);
            assert(dist[path@[len - 1] as int] + (len - 1) == dist[root as int]);
            assert forall|t: int| 0 <= t < c@.len() implies #[trigger] c@[t] < g.len() by {
                assert(c@[t] == path@[len - 1 - t]);
            }
        }
        c
    }
}

/// Starting from a visited package, a walk up through dependents stays among
/// visited packages when the visited set is closed under dependents.
proof fn lemma_closed_reach(g: Seq<(String, Package)>, c: Seq<usize>, visited: Seq<bool>, k: int)
    requires
        0 <= k < c.len(),
        forall|t: int| 0 <= t < c.len() ==> #[trigger] c[t] < g.len(),
        forall|t: int| 0 <= t < c.len() - 1 ==> is_dependent(g, #[trigger] c[t + 1] as int, c[t] as int),
        visited.len() == g.len(),
        visited[c[0] as int],
        forall|v: int| 0 <= v < g.len() && #[trigger] visited[v] ==> forall|j: int| is_dependent(g, j, v) ==> visited[j],
    ensures
        visited[c[k] as int],
    decreases k,
{
    if k > 0 {
        lemma_closed_reach(g, c, visited, k - 1);
        let t = k - 1;
        assert(is_dependent(g, c[t + 1] as int, c[t] as int));
    }
}

} // verus!
