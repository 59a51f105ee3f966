use vstd::prelude::*;

verus! {

/// One resolved package of a lock file: an exact version and the dependency
/// ranges it declares, copied as written.
pub struct Package {
    pub name: String,
    pub version: String,
    /// Depended-on package name and its declared range, one entry per name.
    pub dependencies: Vec<(String, String)>,
}

/// The composite key under which a package is stored: `name@version`.
pub open spec fn key_of(name: Seq<char>, version: Seq<char>) -> Seq<char> {
    name + seq!['@'] + version
}

impl Package {
    /// The package declares a dependency on the name `dep`.
    pub open spec fn depends_on(&self, dep: Seq<char>) -> bool {
        exists|k: int| 0 <= k < self.dependencies@.len() && (#[trigger] self.dependencies@[k]).0@ == dep
    }

    /// No dependency name is declared twice.
    pub open spec fn wf(&self) -> bool {
        forall|a: int, b: int|
            0 <= a < b < self.dependencies@.len() ==> (#[trigger] self.dependencies@[a]).0@
                != (#[trigger] self.dependencies@[b]).0@
    }

    pub fn new(name: String, version: String) -> (r: Package)
        ensures
            r.name == name,
            r.version == version,
            r.dependencies@.len() == 0,
            r.wf(),
    {
        Package { name, version, dependencies: Vec::new() }
    }

    /// Position of the dependency declared on `dep`, if any.
    pub fn find_dependency(&self, dep: &String) -> (r: Option<usize>)
        ensures
            match r {
                Some(k) => k < self.dependencies@.len() && self.dependencies@[k as int].0@ == dep@,
                None => !self.depends_on(dep@),
            },
    {
        let mut k: usize = 0;
        while k < self.dependencies.len()
            invariant
                k <= self.dependencies@.len(),
                forall|j: int| 0 <= j < k ==> (#[trigger] self.dependencies@[j]).0@ != dep@,
            decreases self.dependencies@.len() - k,
        {
            if self.dependencies[k].0 == *dep {
                return Some(k);
            }
            k = k + 1;
        }
        None
    }

    pub fn has_dependency(&self, dep: &str) -> (r: bool)
        ensures
            r == self.depends_on(dep@),
    {
        let d = String::from_str(dep);
        self.find_dependency(&d).is_some()
    }

    /// Declares a dependency; a second declaration of the same name replaces
    /// the range of the first.
    pub fn add_dependency(&mut self, dep: String, range: String)
        requires
            old(self).wf(),
        ensures
            final(self).wf(),
            final(self).name == old(self).name,
            final(self).version == old(self).version,
            old(self).depends_on(dep@) ==> exists|k: int|
                0 <= k < old(self).dependencies@.len() && old(self).dependencies@[k].0@ == dep@
                    && final(self).dependencies@ == old(self).dependencies@.update(k, (dep, range)),
            !old(self).depends_on(dep@) ==> final(self).dependencies@ == old(self).dependencies@.push(
                (dep, range),
            ),
    {
        match self.find_dependency(&dep) {
            Some(k) => {
                self.dependencies.set(k, (dep, range));
            },
            None => {
                self.dependencies.push((dep, range));
            },
        }
    }
}

/// The package graph of one lock file: packages keyed by `name@version`.
pub struct LockFile {
    pub packages: Vec<(String, Package)>,
}

impl LockFile {
    /// Keys are unique.
    pub open spec fn wf(&self) -> bool {
        forall|a: int, b: int|
            0 <= a < b < self.packages@.len() ==> (#[trigger] self.packages@[a]).0@
                != (#[trigger] self.packages@[b]).0@
    }

    /// Every package is stored under its own `name@version` key.
    pub open spec fn keyed_by_identity(&self) -> bool {
        forall|i: int|
            0 <= i < self.packages@.len() ==> (#[trigger] self.packages@[i]).0@ == key_of(
                self.packages@[i].1.name@,
                self.packages@[i].1.version@,
            )
    }

    pub open spec fn has_key(&self, key: Seq<char>) -> bool {
        exists|i: int| 0 <= i < self.packages@.len() && (#[trigger] self.packages@[i]).0@ == key
    }

    /// The package stored under `key`.
    pub open spec fn lookup(&self, key: Seq<char>) -> Option<Package> {
        if self.has_key(key) {
            let i = choose|i: int| 0 <= i < self.packages@.len() && (#[trigger] self.packages@[i]).0@ == key;
            Some(self.packages@[i].1)
        } else {
            None
        }
    }

    /// With unique keys, each entry is what its key looks up.
    pub proof fn lemma_entry_lookup(&self, j: int)
        requires
            self.wf(),
            0 <= j < self.packages@.len(),
        ensures
            self.lookup(self.packages@[j].0@) == Some(self.packages@[j].1),
    {
        assert(self.has_key(self.packages@[j].0@));
    }

    pub fn new() -> (r: LockFile)
        ensures
            r.packages@.len() == 0,
            r.wf(),
            r.keyed_by_identity(),
    {
        LockFile { packages: Vec::new() }
    }

    pub fn len(&self) -> (r: usize)
        ensures
            r == self.packages@.len(),
    {
        self.packages.len()
    }

    /// Position of the entry stored under `key`, if any.
    pub fn find(&self, key: &String) -> (r: Option<usize>)
        ensures
            match r {
                Some(i) => i < self.packages@.len() && self.packages@[i as int].0@ == key@,
                None => !self.has_key(key@),
            },
    {
        let mut i: usize = 0;
        while i < self.packages.len()
            invariant
                i <= self.packages@.len(),
                forall|j: int| 0 <= j < i ==> (#[trigger] self.packages@[j]).0@ != key@,
            decreases self.packages@.len() - i,
        {
            if self.packages[i].0 == *key {
                return Some(i);
            }
            i = i + 1;
        }
        None
    }

    pub fn contains_key(&self, key: &str) -> (r: bool)
        ensures
            r == self.has_key(key@),
    {
        let k = String::from_str(key);
        self.find(&k).is_some()
    }

    pub fn get(&self, key: &str) -> (r: Option<&Package>)
        requires
            self.wf(),
        ensures
            match r {
                Some(p) => self.lookup(key@) == Some(*p),
                None => self.lookup(key@).is_none(),
            },
    {
        let k = String::from_str(key);
        match self.find(&k) {
            Some(i) => {
                assert(self.has_key(key@));
                Some(&self.packages[i].1)
            },
            None => None,
        }
    }

    /// Stores `package` under `key`; an entry already under that key is replaced.
    pub fn insert(&mut self, key: String, package: Package)
        requires
            old(self).wf(),
        ensures
            final(self).wf(),
            final(self).lookup(key@) == Some(package),
            forall|k: Seq<char>| k != key@ ==> final(self).lookup(k) == old(self).lookup(k),
            old(self).keyed_by_identity() && key@ == key_of(package.name@, package.version@)
                ==> final(self).keyed_by_identity(),
    {
        let ghost key_v = key@;
        match self.find(&key) {
            Some(i) => {
                self.packages.set(i, (key, package));
                assert(final(self).packages@[i as int].0@ == key_v);
            },
            None => {
                self.packages.push((key, package));
                assert(final(self).packages@.last().0@ == key_v);
            },
        }
        assert forall|k: Seq<char>| k != key_v implies final(self).lookup(k) == old(self).lookup(k) by {
            if old(self).has_key(k) {
                let i = choose|i: int| 0 <= i < old(self).packages@.len() && (#[trigger] old(self).packages@[i]).0@ == k;
                assert(final(self).packages@[i].0@ == k);
            }
            if final(self).has_key(k) {
                let i = choose|i: int| 0 <= i < final(self).packages@.len() && (#[trigger] final(self).packages@[i]).0@ == k;
                assert(old(self).packages@[i].0@ == k);
            }
        }
    }

    /// Stores `package` under its own key `name@version`.
    pub fn add(&mut self, package: Package)
        requires
            old(self).wf(),
        ensures
            final(self).wf(),
            final(self).lookup(key_of(package.name@, package.version@)) == Some(package),
            forall|k: Seq<char>|
                k != key_of(package.name@, package.version@) ==> final(self).lookup(k) == old(
                    self,
                ).lookup(k),
            old(self).keyed_by_identity() ==> final(self).keyed_by_identity(),
    {
        let key = package.name.clone().concat("@").concat(package.version.as_str());
        proof {
            reveal_strlit("@");
        }
        assert(key@ =~= key_of(package.name@, package.version@));
        self.insert(key, package);
    }
}

} // verus!
