use vstd::prelude::*;
use crate::graph::{key_of, LockFile, Package};
use crate::json::{member, member_of, parse_json, json_document, Json};
use crate::query::{parse_package_query, version_at};
use crate::text::{find_char, indent_of, split_lines, starts_with, strip_cr, trim_spaces, unquote, without_cr, lines_of};

verus! {

/// Why a lock file could not be read into a package graph.
pub enum ParseError {
    /// The file could not be read; the cause as the system gave it.
    IoError(String),
    /// The file name is none of the three known lock-file names.
    UnsupportedFormat(String),
    /// The content does not follow the dialect its name announces; names the dialect.
    MalformedInput(String),
}

impl ParseError {
    /// A one-line description for the user.
    pub fn message(&self) -> (r: String)
        ensures
            r@ == match self {
                ParseError::IoError(cause) => "cannot read lock file: "@ + cause@,
                ParseError::UnsupportedFormat(name) => "unsupported lock file: "@ + name@,
                ParseError::MalformedInput(dialect) => "malformed "@ + dialect@,
            },
    {
        match self {
            ParseError::IoError(cause) => String::from_str("cannot read lock file: ").concat(cause.as_str()),
            ParseError::UnsupportedFormat(name) => String::from_str("unsupported lock file: ").concat(name.as_str()),
            ParseError::MalformedInput(dialect) => String::from_str("malformed ").concat(dialect.as_str()),
        }
    }
}

/// The dialect a lock-file name announces.
pub enum Dialect {
    Npm,
    Yarn,
    Pnpm,
}

pub open spec fn dialect_of(file_name: Seq<char>) -> Option<Dialect> {
    if file_name == "package-lock.json"@ {
        Some(Dialect::Npm)
    } else if file_name == "yarn.lock"@ {
        Some(Dialect::Yarn)
    } else if file_name == "pnpm-lock.yaml"@ {
        Some(Dialect::Pnpm)
    } else {
        None
    }
}

/// A package graph as every parser leaves it: unique keys, each package
/// stored under its own `name@version`.
pub open spec fn well_keyed(g: LockFile) -> bool {
    g.wf() && g.keyed_by_identity()
}

pub fn dialect(file_name: &str) -> (r: Option<Dialect>)
    ensures
        r == dialect_of(file_name@),
{
    let f = String::from_str(file_name);
    let npm = String::from_str("package-lock.json");
    let yarn = String::from_str("yarn.lock");
    let pnpm = String::from_str("pnpm-lock.yaml");
    if f == npm {
        Some(Dialect::Npm)
    } else if f == yarn {
        Some(Dialect::Yarn)
    } else if f == pnpm {
        Some(Dialect::Pnpm)
    } else {
        None
    }
}

fn malformed(dialect: &str) -> (r: ParseError)
    ensures
        r matches ParseError::MalformedInput(d) && d@ == dialect@,
{
    ParseError::MalformedInput(String::from_str(dialect))
}

/// `node_modules/` stands in `path` at position `p`.
pub open spec fn marker_at(path: Seq<char>, p: int) -> bool {
    0 <= p && p + "node_modules/"@.len() <= path.len() && path.subrange(p, p + "node_modules/"@.len()) == "node_modules/"@
}

/// The last `node_modules/` of `path` stands at `p`.
pub open spec fn last_marker(path: Seq<char>, p: int) -> bool {
    marker_at(path, p) && forall|q: int| p < q ==> !#[trigger] marker_at(path, q)
}

/// What follows the last `node_modules/` of an install path, when that is
/// not empty.
pub open spec fn installed_name(path: Seq<char>) -> Option<Seq<char>> {
    if exists|p: int| last_marker(path, p) {
        let p = choose|p: int| last_marker(path, p);
        let name = path.subrange(p + "node_modules/"@.len(), path.len() as int);
        if name.len() > 0 {
            Some(name)
        } else {
            None
        }
    } else {
        None
    }
}

/// The name under which an npm install path holds its package: what follows
/// the last `node_modules/`; `None` for the project itself and for paths
/// outside `node_modules`.
pub fn install_name(path: &String) -> (r: Option<String>)
    ensures
        match r {
            Some(name) => installed_name(path@) == Some(name@),
            None => installed_name(path@) is None,
        },
{
    let marker = String::from_str("node_modules/");
    let m = marker.as_str().unicode_len();
    let s = path.as_str();
    let n = s.unicode_len();
    proof {
        reveal_strlit("node_modules/");
    }
    if m > n {
        return None;
    }
    let mut p: usize = n - m + 1;
    while p > 0
        invariant
            n == path@.len(),
            m == marker@.len(),
            m == "node_modules/"@.len(),
            marker@ == "node_modules/"@,
            p + m <= n + 1,
            s@ == path@,
            forall|q: int| p <= q ==> !#[trigger] marker_at(path@, q),
        decreases p,
    {
        let start = p - 1;
        let piece = String::from_str(s.substring_char(start, start + m));
        if piece == marker {
            proof {
                assert(last_marker(path@, start as int));
                assert forall|p2: int| last_marker(path@, p2) implies p2 == start by {
                    if p2 < start {
                        assert(!marker_at(path@, start as int));
                    }
                }
            }
            if start + m == n {
                return None;
            }
            return Some(String::from_str(s.substring_char(start + m, n)));
        }
        p = p - 1;
    }
    None
}

/// The members of the `packages` object of an npm lock document.
pub open spec fn npm_entries(doc: Json) -> Seq<(String, Json)> {
    match doc {
        Json::Object(fields) => match member_of(fields@, "packages"@) {
            Some(Json::Object(entries)) => entries@,
            _ => Seq::empty(),
        },
        _ => Seq::empty(),
    }
}

/// The name and version of the package an npm install-path entry holds.
pub open spec fn npm_entry(path: Seq<char>, entry: Json) -> Option<(Seq<char>, Seq<char>)> {
    match entry {
        Json::Object(ef) => match (installed_name(path), member_of(ef@, "version"@)) {
            (Some(name), Some(Json::Text(v))) => Some((name, v@)),
            _ => None,
        },
        _ => None,
    }
}

/// The members of the `dependencies` object of an npm install-path entry.
pub open spec fn npm_deps(entry: Json) -> Seq<(String, Json)> {
    match entry {
        Json::Object(ef) => match member_of(ef@, "dependencies"@) {
            Some(Json::Object(ds)) => ds@,
            _ => Seq::empty(),
        },
        _ => Seq::empty(),
    }
}

/// Some member of `ds` is named `d` and holds the string `r`.
pub open spec fn declared_in(ds: Seq<(String, Json)>, d: Seq<char>, r: Seq<char>) -> bool {
    exists|j: int| 0 <= j < ds.len() && #[trigger] ds[j].0@ == d && (ds[j].1 matches Json::Text(t) && t@ == r)
}

/// The declared dependencies of `p` are the string members of `ds`: each
/// declared range is the string of a member of that name, and each string
/// member is declared.
pub open spec fn deps_match(p: Package, ds: Seq<(String, Json)>) -> bool {
    &&& forall|k: int|
        0 <= k < p.dependencies@.len() ==> declared_in(ds, (#[trigger] p.dependencies@[k]).0@, p.dependencies@[k].1@)
    &&& forall|j: int| 0 <= j < ds.len() && (#[trigger] ds[j]).1 is Text ==> p.depends_on(ds[j].0@)
}

/// Some entry of `entries` holds a package of the name, version and
/// dependencies of `p`.
pub open spec fn entry_gives(entries: Seq<(String, Json)>, p: Package) -> bool {
    exists|k: int|
        0 <= k < entries.len() && npm_entry(entries[k].0@, entries[k].1) == Some((p.name@, p.version@)) && deps_match(
            p,
            npm_deps(entries[k].1),
        )
}

/// Declares on `pkg` every string member of an npm `dependencies` object.
fn copy_dependencies(pkg: &mut Package, ds: &Vec<(String, Json)>)
    requires
        old(pkg).wf(),
        old(pkg).dependencies@.len() == 0,
    ensures
        final(pkg).wf(),
        final(pkg).name == old(pkg).name,
        final(pkg).version == old(pkg).version,
        deps_match(*final(pkg), ds@),
{
    let ghost name0 = pkg.name;
    let ghost version0 = pkg.version;
    let mut k: usize = 0;
    while k < ds.len()
        invariant
            k <= ds@.len(),
            pkg.wf(),
            pkg.name == name0,
            pkg.version == version0,
            deps_match(*pkg, ds@.subrange(0, k as int)),
        decreases ds@.len() - k,
    {
        let ghost before = *pkg;
        let ghost pre = ds@.subrange(0, k as int);
        let ghost post = ds@.subrange(0, k + 1);
        if let Json::Text(range) = &ds[k].1 {
            let d = ds[k].0.clone();
            pkg.add_dependency(d, range.clone());
            proof {
                let dn = ds@[k as int].0@;
                assert(post[k as int] == ds@[k as int]);
                assert forall|kk: int| 0 <= kk < pkg.dependencies@.len() implies declared_in(post, (#[trigger] pkg.dependencies@[kk]).0@, pkg.dependencies@[kk].1@) by {
                    if kk < before.dependencies@.len() && pkg.dependencies@[kk] == before.dependencies@[kk] {
                        assert(declared_in(pre, before.dependencies@[kk].0@, before.dependencies@[kk].1@));
                        let j = choose|j: int|
                            0 <= j < pre.len() && #[trigger] pre[j].0@ == before.dependencies@[kk].0@ && (pre[j].1 matches Json::Text(t)
                                && t@ == before.dependencies@[kk].1@);
                        assert(post[j] == pre[j]);
                    } else {
                        assert(ds@[k as int].1 == Json::Text(*range));
                        if before.depends_on(dn) {
                            let idx = choose|idx: int| 0 <= idx < before.dependencies@.len() && before.dependencies@[idx].0@ == dn
                                && pkg.dependencies@ == before.dependencies@.update(idx, (ds@[k as int].0, *range));
                            assert(kk == idx);
                        } else {
                            assert(kk == before.dependencies@.len());
                        }
                        assert(pkg.dependencies@[kk] == (ds@[k as int].0, *range));
                        assert(post[k as int].0@ == pkg.dependencies@[kk].0@);
                        assert(post[k as int].1 == Json::Text(*range));
                    }
                }
                assert forall|j: int| 0 <= j < post.len() && (#[trigger] post[j]).1 is Text implies pkg.depends_on(post[j].0@) by {
                    if j < k {
                        assert(post[j] == pre[j]);
                        assert(before.depends_on(pre[j].0@));
                        let kk = choose|kk: int| 0 <= kk < before.dependencies@.len() && (#[trigger] before.dependencies@[kk]).0@ == pre[j].0@;
                        if before.depends_on(dn) {
                            let idx = choose|idx: int| 0 <= idx < before.dependencies@.len() && before.dependencies@[idx].0@ == dn
                                && pkg.dependencies@ == before.dependencies@.update(idx, (ds@[k as int].0, *range));
                            assert(pkg.dependencies@[kk].0@ == pre[j].0@);
                        } else {
                            assert(pkg.dependencies@[kk] == before.dependencies@[kk]);
                        }
                    } else {
                        if before.depends_on(dn) {
                            let idx = choose|idx: int| 0 <= idx < before.dependencies@.len() && before.dependencies@[idx].0@ == dn
                                && pkg.dependencies@ == before.dependencies@.update(idx, (ds@[k as int].0, *range));
                            assert(pkg.dependencies@[idx].0@ == dn);
                        } else {
                            assert(pkg.dependencies@[before.dependencies@.len() as int].0@ == dn);
                        }
                    }
                }
            }
        } else {
            proof {
                assert forall|kk: int| 0 <= kk < pkg.dependencies@.len() implies declared_in(post, (#[trigger] pkg.dependencies@[kk]).0@, pkg.dependencies@[kk].1@) by {
                    assert(declared_in(pre, pkg.dependencies@[kk].0@, pkg.dependencies@[kk].1@));
                    let j = choose|j: int|
                        0 <= j < pre.len() && #[trigger] pre[j].0@ == pkg.dependencies@[kk].0@ && (pre[j].1 matches Json::Text(t)
                            && t@ == pkg.dependencies@[kk].1@);
                    assert(post[j] == pre[j]);
                }
                assert forall|j: int| 0 <= j < post.len() && (#[trigger] post[j]).1 is Text implies pkg.depends_on(post[j].0@) by {
                    if j < k {
                        assert(post[j] == pre[j]);
                    }
                }
            }
        }
        assert(deps_match(*pkg, post));
        k = k + 1;
    }
    assert(ds@.subrange(0, ds@.len() as int) =~= ds@);
}

/// `g` is the package graph of npm lock document `doc`: well keyed, holding
/// a package for every install-path entry with a name and a version, and
/// nothing that no entry gives.
pub open spec fn npm_graph_of(doc: Json, g: LockFile) -> bool {
    &&& well_keyed(g)
    &&& forall|k: int|
        0 <= k < npm_entries(doc).len() && (#[trigger] npm_entry(npm_entries(doc)[k].0@, npm_entries(doc)[k].1)) is Some
            ==> {
            let (name, version) = npm_entry(npm_entries(doc)[k].0@, npm_entries(doc)[k].1)->Some_0;
            g.has_key(key_of(name, version))
        }
    &&& forall|i: int| 0 <= i < g.packages@.len() ==> entry_gives(npm_entries(doc), #[trigger] g.packages@[i].1)
}

/// The package graph of an npm lock document (the `packages` map of lock
/// file versions 2 and 3). Each install path under `node_modules` whose entry
/// carries a `version` string becomes one package, with the string members of
/// its `dependencies` object as declared dependencies.
pub fn npm_graph(doc: &Json) -> (r: LockFile)
    ensures
        npm_graph_of(*doc, r),
{
    let mut lf = LockFile::new();
    let packages_key = String::from_str("packages");
    let version_key = String::from_str("version");
    let deps_key = String::from_str("dependencies");
    proof {
        reveal_strlit("packages");
        reveal_strlit("version");
        reveal_strlit("dependencies");
    }
    if let Json::Object(fields) = doc {
        if let Some(Json::Object(entries)) = member(fields, &packages_key) {
            let ghost es = npm_entries(*doc);
            assert(es == entries@);
            let mut i: usize = 0;
            while i < entries.len()
                invariant
                    i <= entries@.len(),
                    es == entries@,
                    es == npm_entries(*doc),
                    version_key@ == "version"@,
                    deps_key@ == "dependencies"@,
                    well_keyed(lf),
                    forall|k: int|
                        0 <= k < i && (#[trigger] npm_entry(es[k].0@, es[k].1)) is Some ==> {
                            let (name, version) = npm_entry(es[k].0@, es[k].1)->Some_0;
                            lf.has_key(key_of(name, version))
                        },
                    forall|j: int| 0 <= j < lf.packages@.len() ==> entry_gives(es.subrange(0, i as int), #[trigger] lf.packages@[j].1),
                decreases entries@.len() - i,
            {
                let (path, entry) = &entries[i];
                let ghost old_lf = lf;
                if let (Some(name), Json::Object(ef)) = (install_name(path), entry) {
                    if let Some(Json::Text(version)) = member(ef, &version_key) {
                        let ghost pair = (name@, version@);
                        assert(npm_entry(es[i as int].0@, es[i as int].1) == Some(pair));
                        let mut pkg = Package::new(name, version.clone());
                        match member(ef, &deps_key) {
                            Some(Json::Object(ds)) => {
                                copy_dependencies(&mut pkg, ds);
                            },
                            _ => {},
                        }
                        assert(deps_match(pkg, npm_deps(es[i as int].1)));
                        let ghost new_key = key_of(pkg.name@, pkg.version@);
                        assert(pkg.name@ == pair.0 && pkg.version@ == pair.1);
                        lf.add(pkg);
                        proof {
                            assert forall|k: int|
                                0 <= k < i + 1 && (#[trigger] npm_entry(es[k].0@, es[k].1)) is Some implies {
                                    let (name, version) = npm_entry(es[k].0@, es[k].1)->Some_0;
                                    lf.has_key(key_of(name, version))
                                } by {
                                let (nm, vr) = npm_entry(es[k].0@, es[k].1)->Some_0;
                                if key_of(nm, vr) != new_key && k < i {
                                    assert(old_lf.lookup(key_of(nm, vr)) is Some);
                                    assert(lf.lookup(key_of(nm, vr)) is Some);
                                }
                                if key_of(nm, vr) == new_key || k == i {
                                    if k == i {
                                        assert(key_of(nm, vr) == new_key);
                                    }
                                    assert(lf.lookup(new_key) is Some);
                                }
                            }
                            assert forall|j: int| 0 <= j < lf.packages@.len() implies entry_gives(es.subrange(0, i + 1), #[trigger] lf.packages@[j].1) by {
                                lf.lemma_entry_lookup(j);
                                let kj = lf.packages@[j].0@;
                                if kj == new_key {
                                    assert(lf.packages@[j].1 == pkg);
                                    assert(es.subrange(0, i + 1)[i as int] == es[i as int]);
                                } else {
                                    let q = old_lf.lookup(kj)->Some_0;
                                    let jj = choose|jj: int| 0 <= jj < old_lf.packages@.len() && (#[trigger] old_lf.packages@[jj]).0@ == kj;
                                    old_lf.lemma_entry_lookup(jj);
                                    assert(entry_gives(es.subrange(0, i as int), old_lf.packages@[jj].1));
                                    let k = choose|k: int| 0 <= k < i && npm_entry(es.subrange(0, i as int)[k].0@, es.subrange(0, i as int)[k].1) == Some(
                                        (old_lf.packages@[jj].1.name@, old_lf.packages@[jj].1.version@),
                                    );
                                    assert(es.subrange(0, i as int)[k] == es.subrange(0, i + 1)[k]);
                                }
                            }
                        }
                    }
                }
                i = i + 1;
            }
            assert(es.subrange(0, es.len() as int) =~= es);
        }
    }
    lf
}

/// Reads an npm `package-lock.json` text.
pub fn parse_npm(text: &str) -> (r: Result<LockFile, ParseError>)
    ensures
        json_document(text@).is_none() <==> r is Err,
        match json_document(text@) {
            Some(doc) => r matches Ok(g) && npm_graph_of(doc, g),
            None => true,
        },
        match r {
            Ok(g) => well_keyed(g),
            Err(e) => e matches ParseError::MalformedInput(d) && d@ == "package-lock.json"@,
        },
{
    match parse_json(text) {
        Some(doc) => Ok(npm_graph(&doc)),
        None => Err(malformed("package-lock.json")),
    }
}

/// A graph in which some key looks up a package is not empty; adding a
/// package leaves one that is.
proof fn lemma_nonempty_after_add(before: LockFile, after: LockFile, key: Seq<char>)
    requires
        after.lookup(key) is Some,
    ensures
        after.packages@.len() > 0,
{
    assert(after.has_key(key));
}

/// An unindented line that is neither blank nor a comment: in a yarn lock
/// file the header of a block, in a pnpm lock file the start of a section.
pub open spec fn top_level_line(line: Seq<char>) -> bool {
    let l = without_cr(line);
    l.len() > 0 && l[0] != ' ' && l[0] != '#'
}

/// Some line of `lines` is a block header.
pub open spec fn has_yarn_header(lines: Seq<String>) -> bool {
    exists|j: int| 0 <= j < lines.len() && top_level_line((#[trigger] lines[j])@)
}

/// Some line of the text `text` is a yarn block header.
pub open spec fn yarn_text_has_header(text: Seq<char>) -> bool {
    exists|j: int| 0 <= j < lines_of(text).len() && top_level_line(#[trigger] lines_of(text)[j])
}

/// Closes the block being read: a block without a `version` line cannot
/// become a package.
fn close_block(lf: &mut LockFile, block: Package, open: bool, has_version: bool, dialect: &str) -> (r: Result<(), ParseError>)
    requires
        well_keyed(*old(lf)),
    ensures
        well_keyed(*final(lf)),
        r is Ok && open ==> final(lf).packages@.len() > 0,
        old(lf).packages@.len() > 0 ==> final(lf).packages@.len() > 0,
        r is Err ==> (r->Err_0 matches ParseError::MalformedInput(d) && d@ == dialect@),
{
    if open {
        if !has_version {
            return Err(malformed(dialect));
        }
        let ghost before = *lf;
        let ghost new_key = key_of(block.name@, block.version@);
        lf.add(block);
        proof {
            lemma_nonempty_after_add(before, *lf, new_key);
        }
    }
    Ok(())
}

/// Reads the lines of a yarn v1 `yarn.lock`. A block starts with an
/// unindented `name@range[, name@range...]:` line; its first key gives the
/// name. Indented by two: `version "x"` and `dependencies:`; indented deeper
/// under `dependencies:`: `name "range"`. Blank lines and `#` comments are
/// skipped.
pub fn parse_yarn_lines(lines: &Vec<String>) -> (r: Result<LockFile, ParseError>)
    ensures
        match r {
            Ok(g) => well_keyed(g) && (has_yarn_header(lines@) ==> g.packages@.len() > 0),
            Err(e) => e matches ParseError::MalformedInput(d) && d@ == "yarn.lock"@,
        },
{
    let mut lf = LockFile::new();
    let mut block = Package::new(String::new(), String::new());
    let mut open = false;
    let mut has_version = false;
    let mut in_deps = false;
    let version_prefix = "version ";
    let deps_header = String::from_str("dependencies:");
    let mut i: usize = 0;
    while i < lines.len()
        invariant
            i <= lines@.len(),
            well_keyed(lf),
            block.wf(),
            has_yarn_header(lines@.subrange(0, i as int)) ==> open || lf.packages@.len() > 0,
        decreases lines@.len() - i,
    {
        let l = strip_cr(lines[i].as_str());
        let line = l.as_str();
        let n = line.unicode_len();
        let ind = indent_of(line);
        proof {
            assert(lines@.subrange(0, i + 1).drop_last() =~= lines@.subrange(0, i as int));
            if has_yarn_header(lines@.subrange(0, i + 1)) && !top_level_line(lines@[i as int]@) {
                let j = choose|j: int| 0 <= j < i + 1 && top_level_line((#[trigger] lines@.subrange(0, i + 1)[j])@);
                assert(lines@.subrange(0, i + 1)[j] == lines@.subrange(0, i as int)[j]);
            }
        }
        if ind < n && line.get_char(ind) != '#' {
            if ind == 0 {
                let closed = close_block(&mut lf, block, open, has_version, "yarn.lock");
                if closed.is_err() {
                    return Err(malformed("yarn.lock"));
                }
                if line.get_char(n - 1) != ':' {
                    return Err(malformed("yarn.lock"));
                }
                let head = line.substring_char(0, n - 1);
                let first_end = match find_char(head, ',') {
                    Some(c) => c,
                    None => n - 1,
                };
                let key = unquote(trim_spaces(head.substring_char(0, first_end)).as_str());
                let (name, range) = parse_package_query(key.as_str());
                if range.is_none() {
                    return Err(malformed("yarn.lock"));
                }
                block = Package::new(name, String::new());
                open = true;
                has_version = false;
                in_deps = false;
            } else {
                if !open {
                    return Err(malformed("yarn.lock"));
                }
                let content = trim_spaces(line);
                let c = content.as_str();
                if ind < 4 {
                    in_deps = content == deps_header;
                    if starts_with(c, version_prefix) {
                        let m = c.unicode_len();
                        let skip = version_prefix.unicode_len();
                        let rest = trim_spaces(c.substring_char(skip, m));
                        block.version = unquote(rest.as_str());
                        has_version = true;
                    }
                } else if in_deps {
                    match find_char(c, ' ') {
                        Some(sp) => {
                            let m = c.unicode_len();
                            let dep = unquote(c.substring_char(0, sp));
                            let range = unquote(trim_spaces(c.substring_char(sp + 1, m)).as_str());
                            block.add_dependency(dep, range);
                        },
                        None => {
                            return Err(malformed("yarn.lock"));
                        },
                    }
                }
            }
        }
        i = i + 1;
    }
    assert(lines@.subrange(0, lines@.len() as int) =~= lines@);
    match close_block(&mut lf, block, open, has_version, "yarn.lock") {
        Ok(()) => Ok(lf),
        Err(e) => Err(e),
    }
}

/// Reads a yarn v1 `yarn.lock` text.
pub fn parse_yarn(text: &str) -> (r: Result<LockFile, ParseError>)
    ensures
        match r {
            Ok(g) => well_keyed(g) && (yarn_text_has_header(text@) ==> g.packages@.len() > 0),
            Err(e) => e matches ParseError::MalformedInput(d) && d@ == "yarn.lock"@,
        },
{
    let lines = split_lines(text);
    proof {
        if yarn_text_has_header(text@) {
            let j = choose|j: int| 0 <= j < lines_of(text@).len() && top_level_line(#[trigger] lines_of(text@)[j]);
            assert(lines@[j]@ == lines_of(text@)[j]);
            assert(has_yarn_header(lines@));
        }
    }
    parse_yarn_lines(&lines)
}

/// The first `c` of `s` stands at `p`.
pub open spec fn first_at(s: Seq<char>, c: char, p: int) -> bool {
    0 <= p < s.len() && s[p] == c && forall|q: int| 0 <= q < p ==> s[q] != c
}

/// A pnpm package key without one leading `/` and without the peer suffix
/// that starts at the first `(`.
pub open spec fn pnpm_key_body(key: Seq<char>) -> Seq<char> {
    let start: int = if key.len() > 0 && key[0] == '/' { 1 } else { 0 };
    let end: int = if exists|p: int| first_at(key, '(', p) {
        choose|p: int| first_at(key, '(', p)
    } else {
        key.len() as int
    };
    key.subrange(start, end)
}

/// Name and version of a pnpm package key, split at the version `@` of its body.
pub open spec fn pnpm_key_of(key: Seq<char>) -> Option<(Seq<char>, Seq<char>)> {
    let body = pnpm_key_body(key);
    if exists|p: int| version_at(body, p) {
        let p = choose|p: int| version_at(body, p);
        Some((body.subrange(0, p), body.subrange(p + 1, body.len() as int)))
    } else {
        None
    }
}

/// `name@version` from a pnpm package key such as `/name@version`,
/// `name@version` or `/name@version(peer@1.0.0)`.
pub fn pnpm_key(key: &str) -> (r: Option<(String, String)>)
    ensures
        match r {
            Some((name, version)) => pnpm_key_of(key@) == Some((name@, version@)),
            None => pnpm_key_of(key@) is None,
        },
{
    let n = key.unicode_len();
    let start: usize = if n > 0 && key.get_char(0) == '/' { 1 } else { 0 };
    let end: usize = match find_char(key, '(') {
        Some(p) => {
            assert(first_at(key@, '(', p as int));
            assert forall|p2: int| first_at(key@, '(', p2) implies p2 == p by {
                if p2 < p {
                    assert(key@[p2] != '(');
                } else if p2 > p {
                    assert(key@[p as int] != '(');
                }
            }
            if p >= start {
                p
            } else {
                n
            }
        },
        None => n,
    };
    let ghost body = pnpm_key_body(key@);
    assert(start <= end) by {
        if end < start {
            assert(key@[0] == '/');
        }
    }
    let piece = key.substring_char(start, end);
    assert(piece@ == body) by {
        if start == 1 && end == 0 {
        }
    }
    let (name, version) = parse_package_query(piece);
    proof {
        assert forall|p1: int, p2: int| version_at(body, p1) && version_at(body, p2) implies p1 == p2 by {
            if p1 < p2 {
                assert(body[p2] != '@');
            } else if p2 < p1 {
                assert(body[p1] != '@');
            }
        }
    }
    match version {
        Some(v) => Some((name, v)),
        None => None,
    }
}

/// Line `i` lies in the `packages:` section: an earlier line is exactly
/// `packages:` and no unindented line comes between.
pub open spec fn packages_open(lines: Seq<String>, i: int) -> bool {
    exists|p: int|
        0 <= p < i && without_cr((#[trigger] lines[p])@) == "packages:"@ && forall|k: int|
            p < k < i ==> !top_level_line(#[trigger] lines[k]@)
}

/// A line indented by exactly two that is neither blank nor a comment.
pub open spec fn pnpm_entry_line(line: Seq<char>) -> bool {
    let l = without_cr(line);
    l.len() > 2 && l[0] == ' ' && l[1] == ' ' && l[2] != ' ' && l[2] != '#'
}

/// Some line before `i` is a package key line of the `packages:` section.
pub open spec fn pnpm_entry_before(lines: Seq<String>, i: int) -> bool {
    exists|j: int| 0 <= j < i && pnpm_entry_line((#[trigger] lines[j])@) && packages_open(lines, j)
}

/// Line `i` of a text's lines lies in its `packages:` section.
pub open spec fn text_packages_open(ls: Seq<Seq<char>>, i: int) -> bool {
    exists|p: int|
        0 <= p < i && without_cr(#[trigger] ls[p]) == "packages:"@ && forall|k: int|
            p < k < i ==> !top_level_line(#[trigger] ls[k])
}

/// Some line of the text `text` is a package key line of its `packages:` section.
pub open spec fn pnpm_text_has_entry(text: Seq<char>) -> bool {
    exists|j: int|
        0 <= j < lines_of(text).len() && pnpm_entry_line(#[trigger] lines_of(text)[j]) && text_packages_open(lines_of(text), j)
}

proof fn lemma_pnpm_lines_agree(lines: Seq<String>, ls: Seq<Seq<char>>)
    requires
        lines.len() == ls.len(),
        forall|i: int| 0 <= i < lines.len() ==> (#[trigger] lines[i])@ == ls[i],
    ensures
        (exists|j: int| 0 <= j < ls.len() && pnpm_entry_line(#[trigger] ls[j]) && text_packages_open(ls, j))
            ==> pnpm_entry_before(lines, lines.len() as int),
{
    if exists|j: int| 0 <= j < ls.len() && pnpm_entry_line(#[trigger] ls[j]) && text_packages_open(ls, j) {
        let j = choose|j: int| 0 <= j < ls.len() && pnpm_entry_line(#[trigger] ls[j]) && text_packages_open(ls, j);
        let p = choose|p: int|
            0 <= p < j && without_cr(#[trigger] ls[p]) == "packages:"@ && forall|k: int|
                p < k < j ==> !top_level_line(#[trigger] ls[k]);
        assert(lines[p]@ == ls[p]);
        assert forall|k: int| p < k < j implies !top_level_line(#[trigger] lines[k]@) by {
            assert(lines[k]@ == ls[k]);
        }
        assert(packages_open(lines, j));
        assert(lines[j]@ == ls[j]);
    }
}

/// Reads the lines of a `pnpm-lock.yaml`: within the unindented `packages:`
/// section, each key indented by two (`/name@version:`) is one package, and
/// the `name: version` lines of its `dependencies:` map are its declared
/// dependencies. Other sections are skipped.
pub fn parse_pnpm_lines(lines: &Vec<String>) -> (r: Result<LockFile, ParseError>)
    ensures
        match r {
            Ok(g) => well_keyed(g) && (pnpm_entry_before(lines@, lines@.len() as int) ==> g.packages@.len() > 0),
            Err(e) => e matches ParseError::MalformedInput(d) && d@ == "pnpm-lock.yaml"@,
        },
{
    let mut lf = LockFile::new();
    let mut block = Package::new(String::new(), String::new());
    let mut open = false;
    let mut in_packages = false;
    let mut in_deps = false;
    let packages_header = String::from_str("packages:");
    let deps_header = String::from_str("dependencies:");
    let mut i: usize = 0;
    while i < lines.len()
        invariant
            i <= lines@.len(),
            well_keyed(lf),
            block.wf(),
            packages_header@ == "packages:"@,
            packages_open(lines@, i as int) ==> in_packages,
            pnpm_entry_before(lines@, i as int) ==> open || lf.packages@.len() > 0,
        decreases lines@.len() - i,
    {
        let l = strip_cr(lines[i].as_str());
        let line = l.as_str();
        let n = line.unicode_len();
        let ind = indent_of(line);
        let ghost top = top_level_line(lines@[i as int]@);
        let ghost entry = pnpm_entry_line(lines@[i as int]@) && packages_open(lines@, i as int);
        proof {
            if packages_open(lines@, i + 1) && !top {
                let p = choose|p: int|
                    0 <= p < i + 1 && without_cr((#[trigger] lines@[p])@) == "packages:"@ && forall|k: int|
                        p < k < i + 1 ==> !top_level_line(#[trigger] lines@[k]@);
                if p == i {
                    reveal_strlit("packages:");
                    assert(top);
                }
                assert(packages_open(lines@, i as int));
            }
            if pnpm_entry_line(lines@[i as int]@) {
                assert(line@[0] == ' ' && line@[1] == ' ');
                assert(ind == 2);
            }
        }
        if ind < n && line.get_char(ind) != '#' {
            let content = trim_spaces(line);
            let c = content.as_str();
            if ind == 0 || (in_packages && ind == 2) {
                if open {
                    let ghost before = lf;
                    let ghost new_key = key_of(block.name@, block.version@);
                    lf.add(block);
                    proof {
                        lemma_nonempty_after_add(before, lf, new_key);
                    }
                    block = Package::new(String::new(), String::new());
                    open = false;
                }
                in_deps = false;
            }
            if ind == 0 {
                in_packages = content == packages_header;
                proof {
                    if without_cr(lines@[i as int]@) == "packages:"@ {
                        reveal_strlit("packages:");
                        let (a, b) = choose|a: int, b: int|
                            0 <= a <= b <= line@.len() && content@ == line@.subrange(a, b) && (forall|q: int| 0 <= q < a ==> line@[q] == ' ')
                                && (forall|q: int| b <= q < line@.len() ==> line@[q] == ' ') && (a < b ==> line@[a] != ' ' && line@[b - 1] != ' ');
                        assert(a == 0);
                        assert(line@ == "packages:"@);
                        assert(line@[line@.len() - 1] == ':');
                        if b < line@.len() {
                            assert(line@[line@.len() - 1] == ' ');
                        }
                        assert(b == line@.len());
                        assert(content@ =~= packages_header@);
                    }
                }
            } else if in_packages && ind == 2 {
                let m = c.unicode_len();
                if m == 0 || c.get_char(m - 1) != ':' {
                    return Err(malformed("pnpm-lock.yaml"));
                }
                let key = unquote(trim_spaces(c.substring_char(0, m - 1)).as_str());
                match pnpm_key(key.as_str()) {
                    Some((name, version)) => {
                        block = Package::new(name, version);
                        open = true;
                    },
                    None => {
                        return Err(malformed("pnpm-lock.yaml"));
                    },
                }
            } else if open && ind == 4 {
                in_deps = content == deps_header;
            } else if open && in_deps && ind >= 6 {
                match find_char(c, ':') {
                    Some(p) => {
                        let m = c.unicode_len();
                        let dep = unquote(trim_spaces(c.substring_char(0, p)).as_str());
                        let version = unquote(trim_spaces(c.substring_char(p + 1, m)).as_str());
                        block.add_dependency(dep, version);
                    },
                    None => {
                        return Err(malformed("pnpm-lock.yaml"));
                    },
                }
            }
        }
        proof {
            if pnpm_entry_before(lines@, i + 1) && !pnpm_entry_before(lines@, i as int) {
                let j = choose|j: int| 0 <= j < i + 1 && pnpm_entry_line((#[trigger] lines@[j])@) && packages_open(lines@, j);
                assert(j == i);
            }
        }
        i = i + 1;
    }
    if open {
        let ghost before = lf;
        let ghost new_key = key_of(block.name@, block.version@);
        lf.add(block);
        proof {
            lemma_nonempty_after_add(before, lf, new_key);
        }
    }
    Ok(lf)
}

/// Reads a `pnpm-lock.yaml` text.
pub fn parse_pnpm(text: &str) -> (r: Result<LockFile, ParseError>)
    ensures
        match r {
            Ok(g) => well_keyed(g) && (pnpm_text_has_entry(text@) ==> g.packages@.len() > 0),
            Err(e) => e matches ParseError::MalformedInput(d) && d@ == "pnpm-lock.yaml"@,
        },
{
    let lines = split_lines(text);
    proof {
        lemma_pnpm_lines_agree(lines@, lines_of(text@));
    }
    parse_pnpm_lines(&lines)
}

impl LockFile {
    /// Reads the text of a lock file in the dialect its file name announces.
    pub fn parse_named(file_name: &str, contents: &str) -> (r: Result<LockFile, ParseError>)
        ensures
            dialect_of(file_name@) is None <==> r matches Err(ParseError::UnsupportedFormat(_)),
            r matches Err(ParseError::UnsupportedFormat(f)) ==> f@ == file_name@,
            dialect_of(file_name@) == Some(Dialect::Npm) ==> (json_document(contents@).is_none() <==> r is Err),
            dialect_of(file_name@) == Some(Dialect::Npm) ==> match json_document(contents@) {
                Some(doc) => r matches Ok(g) && npm_graph_of(doc, g),
                None => true,
            },
            r matches Err(ParseError::MalformedInput(d)) ==> d@ == file_name@,
            r is Ok ==> well_keyed(r->Ok_0),
            dialect_of(file_name@) == Some(Dialect::Yarn) && yarn_text_has_header(contents@) && r is Ok
                ==> r->Ok_0.packages@.len() > 0,
            dialect_of(file_name@) == Some(Dialect::Pnpm) && pnpm_text_has_entry(contents@) && r is Ok
                ==> r->Ok_0.packages@.len() > 0,
            !(r matches Err(ParseError::IoError(_))),
    {
        match dialect(file_name) {
            Some(Dialect::Npm) => parse_npm(contents),
            Some(Dialect::Yarn) => parse_yarn(contents),
            Some(Dialect::Pnpm) => parse_pnpm(contents),
            None => Err(ParseError::UnsupportedFormat(String::from_str(file_name))),
        }
    }

    /// Reads a lock file given the outcome of loading it: a failed load is an
    /// `IoError` carrying its cause, whatever the name.
    pub fn parse_loaded(file_name: &str, loaded: Result<String, String>) -> (r: Result<LockFile, ParseError>)
        ensures
            loaded is Err ==> (r matches Err(ParseError::IoError(c)) && c == loaded->Err_0),
            loaded is Ok ==> (dialect_of(file_name@) is None <==> r matches Err(ParseError::UnsupportedFormat(_))),
            loaded is Ok && dialect_of(file_name@) == Some(Dialect::Npm) ==> (json_document(loaded->Ok_0@).is_none()
                <==> r is Err),
            loaded is Ok && dialect_of(file_name@) == Some(Dialect::Npm) ==> match json_document(loaded->Ok_0@) {
                Some(doc) => r matches Ok(g) && npm_graph_of(doc, g),
                None => true,
            },
            r matches Err(ParseError::MalformedInput(d)) ==> d@ == file_name@,
            r is Ok ==> well_keyed(r->Ok_0),
            loaded is Ok && dialect_of(file_name@) == Some(Dialect::Yarn) && yarn_text_has_header(loaded->Ok_0@) && r is Ok
                ==> r->Ok_0.packages@.len() > 0,
            loaded is Ok && dialect_of(file_name@) == Some(Dialect::Pnpm) && pnpm_text_has_entry(loaded->Ok_0@) && r is Ok
                ==> r->Ok_0.packages@.len() > 0,
    {
        match loaded {
            Ok(contents) => Self::parse_named(file_name, contents.as_str()),
            Err(cause) => Err(ParseError::IoError(cause)),
        }
    }
}

} // verus!
