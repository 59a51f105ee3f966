use vstd::prelude::*;

verus! {

/// Position of the last `@` of `s` that is not its first character, if any:
/// the boundary between a (possibly scoped) name and a version.
pub open spec fn version_at(s: Seq<char>, p: int) -> bool {
    &&& 0 < p < s.len()
    &&& s[p] == '@'
    &&& forall|q: int| p < q < s.len() ==> s[q] != '@'
}

/// Splits `name@version` on its last `@`. A query with no `@` past its first
/// character (`lodash`, `@scope/name`) names every version.
pub fn parse_package_query(query: &str) -> (r: (String, Option<String>))
    ensures
        match r.1 {
            Some(v) => exists|p: int|
                version_at(query@, p) && r.0@ == query@.subrange(0, p) && v@ == query@.subrange(
                    p + 1,
                    query@.len() as int,
                ),
            None => r.0@ == query@ && forall|q: int| 0 < q < query@.len() ==> query@[q] != '@',
        },
{
    let len = query.unicode_len();
    let mut i: usize = len;
    while i > 1
        invariant
            len == query@.len(),
            i <= len,
            forall|q: int| i <= q < len ==> query@[q] != '@',
        decreases i,
    {
        if query.get_char(i - 1) == '@' {
            let p = i - 1;
            let name = String::from_str(query.substring_char(0, p));
            let version = String::from_str(query.substring_char(p + 1, len));
            assert(version_at(query@, p as int));
            return (name, Some(version));
        }
        i = i - 1;
    }
    (String::from_str(query), None)
}

} // verus!
