//! Choice of a substitute library for an unresolved name.
//!
//! For an unresolved name such as `libtinfo.so.5` the resolver computes a
//! prefix key by removing the final dot-delimited segment (`libtinfo.so`),
//! then picks, among the catalog entries whose file name starts with that
//! key, the one with the longest name — a longer name usually carries a more
//! specific version suffix. Ties in length keep the first entry encountered.
//! A name without a dot, or whose prefix key would be empty, has no
//! resolvable prefix and is skipped. An empty candidate set is a valid
//! outcome, not an error: the name simply stays unmapped.

use vstd::prelude::*;

verus! {

/// One entry of the host's library catalog: a file name and the absolute
/// path it was found at, drawn from one snapshot of the library directory.
#[derive(Debug, PartialEq, Eq)]
pub struct LibraryEntry {
    pub name: Vec<u8>,
    pub path: Vec<u8>,
}

impl View for LibraryEntry {
    type V = (Seq<u8>, Seq<u8>);

    open spec fn view(&self) -> (Seq<u8>, Seq<u8>) {
        (self.name@, self.path@)
    }
}

/// The catalog as a sequence of (name, path) pairs.
pub open spec fn entries_view(es: Seq<LibraryEntry>) -> Seq<(Seq<u8>, Seq<u8>)> {
    es.map_values(|e: LibraryEntry| e@)
}

/// The prefix key of an unresolved name: the name with its final
/// dot-delimited segment removed. A name with no dot, or one whose key
/// would come out empty, has no resolvable prefix.
pub open spec fn prefix_key(name: Seq<u8>) -> Option<Seq<u8>> {
    match name.index_of_last('.' as u8) {
        Some(i) => if i > 0 {
            Some(name.subrange(0, i))
        } else {
            None
        },
        None => None,
    }
}

/// Entry `i` of the catalog is a substitute candidate for prefix key `key`.
pub open spec fn is_candidate(es: Seq<(Seq<u8>, Seq<u8>)>, key: Seq<u8>, i: int) -> bool {
    0 <= i < es.len() && key.is_prefix_of(es[i].0)
}

/// The first catalog entry of greatest name length among the candidates for
/// `key`: a left fold that replaces its best only for a strictly longer name.
pub open spec fn best_candidate(es: Seq<(Seq<u8>, Seq<u8>)>, key: Seq<u8>) -> Option<
    (Seq<u8>, Seq<u8>),
>
    decreases es.len(),
{
    if es.len() == 0 {
        None
    } else {
        let prev = best_candidate(es.drop_last(), key);
        let e = es.last();
        if key.is_prefix_of(e.0) {
            match prev {
                Some(b) => if e.0.len() > b.0.len() {
                    Some(e)
                } else {
                    Some(b)
                },
                None => Some(e),
            }
        } else {
            prev
        }
    }
}

/// What the resolver yields for one unresolved name against one catalog.
pub open spec fn resolve_spec(name: Seq<u8>, es: Seq<(Seq<u8>, Seq<u8>)>) -> Option<
    (Seq<u8>, Seq<u8>),
> {
    match prefix_key(name) {
        Some(key) => best_candidate(es, key),
        None => None,
    }
}

/// `best_candidate` yields a candidate of maximal name length — the first
/// such in catalog order — and yields nothing exactly when no entry's name
/// starts with the key.
pub proof fn lemma_best_candidate(es: Seq<(Seq<u8>, Seq<u8>)>, key: Seq<u8>)
    ensures
        match best_candidate(es, key) {
            Some(b) => exists|j: int|
                {
                    &&& #[trigger] is_candidate(es, key, j)
                    &&& es[j] == b
                    &&& forall|i: int|
                        #[trigger] is_candidate(es, key, i) ==> es[i].0.len() <= es[j].0.len()
                    &&& forall|i: int|
                        i < j && #[trigger] is_candidate(es, key, i) ==> es[i].0.len()
                            < es[j].0.len()
                },
            None => forall|i: int| !is_candidate(es, key, i),
        },
    decreases es.len(),
{
    if es.len() > 0 {
        let rest = es.drop_last();
        lemma_best_candidate(rest, key);
        assert(forall|i: int| 0 <= i < rest.len() ==> es[i] == rest[i]);
        assert(forall|i: int|
            i < es.len() - 1 ==> (#[trigger] is_candidate(es, key, i) == is_candidate(
                rest,
                key,
                i,
            )));
        match best_candidate(es, key) {
            Some(b) => {
                let e = es.last();
                if key.is_prefix_of(e.0) && (best_candidate(rest, key) is None
                    || e.0.len() > best_candidate(rest, key).unwrap().0.len()) {
                    assert(is_candidate(es, key, es.len() - 1));
                    assert(es[es.len() - 1] == b);
                } else if key.is_prefix_of(e.0) {
                    let j = choose|j: int|
                        {
                            &&& #[trigger] is_candidate(rest, key, j)
                            &&& rest[j] == b
                            &&& forall|i: int|
                                #[trigger] is_candidate(rest, key, i) ==> rest[i].0.len()
                                    <= rest[j].0.len()
                            &&& forall|i: int|
                                i < j && #[trigger] is_candidate(rest, key, i) ==> rest[i].0.len()
                                    < rest[j].0.len()
                        };
                    assert(is_candidate(es, key, j));
                    assert(es[j] == b);
                } else {
                    let j = choose|j: int|
                        {
                            &&& #[trigger] is_candidate(rest, key, j)
                            &&& rest[j] == b
                            &&& forall|i: int|
                                #[trigger] is_candidate(rest, key, i) ==> rest[i].0.len()
                                    <= rest[j].0.len()
                            &&& forall|i: int|
                                i < j && #[trigger] is_candidate(rest, key, i) ==> rest[i].0.len()
                                    < rest[j].0.len()
                        };
                    assert(is_candidate(es, key, j));
                    assert(es[j] == b);
                }
            },
            None => {
                assert forall|i: int| !is_candidate(es, key, i) by {
                    if 0 <= i < es.len() - 1 {
                        assert(!is_candidate(rest, key, i));
                    }
                }
            },
        }
    }
}

/// Copies `s[start..end]` into a fresh vector.
pub fn clone_range(s: &[u8], start: usize, end: usize) -> (r: Vec<u8>)
    requires
        start <= end <= s@.len(),
    ensures
        r@ == s@.subrange(start as int, end as int),
{
    let mut r: Vec<u8> = Vec::new();
    proof {
        assert(r@ =~= s@.subrange(start as int, start as int));
    }
    let mut i: usize = start;
    while i < end
        invariant
            start <= i <= end <= s@.len(),
            r@ == s@.subrange(start as int, i as int),
        decreases end - i,
    {
        r.push(s[i]);
        proof {
            assert(s@.subrange(start as int, i as int + 1) =~= s@.subrange(
                start as int,
                i as int,
            ).push(s@[i as int]));
        }
        i = i + 1;
    }
    r
}

/// Copies the first `end` bytes of a slice into a fresh vector.
pub fn clone_prefix(s: &[u8], end: usize) -> (r: Vec<u8>)
    requires
        end <= s@.len(),
    ensures
        r@ == s@.subrange(0, end as int),
{
    clone_range(s, 0, end)
}

/// Copies a byte slice into a fresh vector.
pub fn clone_bytes(s: &[u8]) -> (r: Vec<u8>)
    ensures
        r@ == s@,
{
    let r = clone_prefix(s, s.len());
    proof {
        assert(s@.subrange(0, s@.len() as int) =~= s@);
    }
    r
}

/// Decides whether `s` starts with `p`.
pub fn starts_with_bytes(s: &[u8], p: &[u8]) -> (r: bool)
    ensures
        r == p@.is_prefix_of(s@),
{
    let n: usize = s.len();
    let m: usize = p.len();
    if m > n {
        return false;
    }
    let mut k: usize = 0;
    while k < m
        invariant
            k <= m <= n,
            n == s@.len(),
            m == p@.len(),
            forall|t: int| 0 <= t < k ==> s@[t] == p@[t],
        decreases m - k,
    {
        if s[k] != p[k] {
            proof {
                assert(s@.subrange(0, m as int)[k as int] == s@[k as int]);
            }
            return false;
        }
        k = k + 1;
    }
    proof {
        assert(s@.subrange(0, m as int) =~= p@);
    }
    true
}

/// Computes the prefix key of an unresolved name, scanning for its last dot.
pub fn compute_prefix_key(name: &[u8]) -> (r: Option<Vec<u8>>)
    ensures
        match r {
            Some(p) => prefix_key(name@) == Some(p@),
            None => prefix_key(name@) is None,
        },
{
    let n: usize = name.len();
    let mut i: usize = n;
    while i > 0
        invariant
            i <= n,
            n == name@.len(),
            forall|k: int| i <= k < n ==> name@[k] != '.' as u8,
        decreases i,
    {
        i = i - 1;
        if name[i] == '.' as u8 {
            proof {
                name@.index_of_last_ensures('.' as u8);
                assert(name@.index_of_last('.' as u8) == Some(i as int));
            }
            if i == 0 {
                return None;
            }
            let key = clone_prefix(name, i);
            return Some(key);
        }
    }
    proof {
        name@.index_of_last_ensures('.' as u8);
    }
    None
}

/// Resolves one unresolved name against the catalog: the first catalog entry
/// of greatest name length whose name starts with the prefix key, returned
/// as a fresh (name, path) pair; `None` when the name has no resolvable
/// prefix or no entry matches.
pub fn lib_root_name(lib_name: &[u8], system_libs: &Vec<LibraryEntry>) -> (r: Option<
    (Vec<u8>, Vec<u8>),
>)
    ensures
        match r {
            Some(p) => resolve_spec(lib_name@, entries_view(system_libs@)) == Some((p.0@, p.1@)),
            None => resolve_spec(lib_name@, entries_view(system_libs@)) is None,
        },
{
    let key = match compute_prefix_key(lib_name) {
        Some(k) => k,
        None => {
            return None;
        },
    };
    let ghost es = entries_view(system_libs@);
    let n: usize = system_libs.len();
    let mut best: Option<usize> = None;
    proof {
        assert(es.subrange(0, 0) =~= Seq::<(Seq<u8>, Seq<u8>)>::empty());
    }
    let mut i: usize = 0;
    while i < n
        invariant
            i <= n,
            n == system_libs@.len(),
            es == entries_view(system_libs@),
            match best {
                None => best_candidate(es.subrange(0, i as int), key@) is None,
                Some(bi) => bi < i && best_candidate(es.subrange(0, i as int), key@) == Some(
                    es[bi as int],
                ),
            },
        decreases n - i,
    {
        proof {
            assert(es.subrange(0, i as int + 1).drop_last() =~= es.subrange(0, i as int));
            assert(es.subrange(0, i as int + 1).last() == es[i as int]);
        }
        if starts_with_bytes(system_libs[i].name.as_slice(), key.as_slice()) {
            match best {
                None => {
                    best = Some(i);
                },
                Some(bi) => {
                    if system_libs[i].name.len() > system_libs[bi].name.len() {
                        best = Some(i);
                    }
                },
            }
        }
        i = i + 1;
    }
    proof {
        assert(es.subrange(0, n as int) =~= es);
    }
    match best {
        None => None,
        Some(bi) => Some(
            (
                clone_bytes(system_libs[bi].name.as_slice()),
                clone_bytes(system_libs[bi].path.as_slice()),
            ),
        ),
    }
}

/// One planned symlink: the exact unresolved file name the loader searches
/// for, and the absolute path of the substitute it shall point at.
#[derive(Debug, PartialEq, Eq)]
pub struct ResolvedMapping {
    pub link_name: Vec<u8>,
    pub target_path: Vec<u8>,
}

impl View for ResolvedMapping {
    type V = (Seq<u8>, Seq<u8>);

    open spec fn view(&self) -> (Seq<u8>, Seq<u8>) {
        (self.link_name@, self.target_path@)
    }
}

/// A mapping list as a sequence of (link name, target path) pairs.
pub open spec fn mappings_view(ms: Seq<ResolvedMapping>) -> Seq<(Seq<u8>, Seq<u8>)> {
    ms.map_values(|m: ResolvedMapping| m@)
}

/// The mappings for a list of unresolved names, in order: one pair per name
/// the resolver can serve, nothing for the names it cannot.
pub open spec fn mappings_spec(names: Seq<Seq<u8>>, es: Seq<(Seq<u8>, Seq<u8>)>) -> Seq<
    (Seq<u8>, Seq<u8>),
>
    decreases names.len(),
{
    if names.len() == 0 {
        Seq::empty()
    } else {
        let rest = mappings_spec(names.drop_last(), es);
        match resolve_spec(names.last(), es) {
            Some(e) => rest.push((names.last(), e.1)),
            None => rest,
        }
    }
}

/// Resolves every unresolved name against the catalog, keeping report order
/// and skipping the names for which no substitute exists.
pub fn resolve_all(missing: &Vec<Vec<u8>>, system_libs: &Vec<LibraryEntry>) -> (r: Vec<
    ResolvedMapping,
>)
    ensures
        mappings_view(r@) == mappings_spec(
            missing@.map_values(|n: Vec<u8>| n@),
            entries_view(system_libs@),
        ),
{
    let ghost names = missing@.map_values(|n: Vec<u8>| n@);
    let ghost es = entries_view(system_libs@);
    let mut r: Vec<ResolvedMapping> = Vec::new();
    proof {
        assert(names.subrange(0, 0) =~= Seq::<Seq<u8>>::empty());
        assert(mappings_view(r@) =~= Seq::<(Seq<u8>, Seq<u8>)>::empty());
    }
    let mut i: usize = 0;
    while i < missing.len()
        invariant
            i <= missing@.len(),
            names == missing@.map_values(|n: Vec<u8>| n@),
            es == entries_view(system_libs@),
            mappings_view(r@) == mappings_spec(names.subrange(0, i as int), es),
        decreases missing@.len() - i,
    {
        proof {
            assert(names.subrange(0, i as int + 1).drop_last() =~= names.subrange(0, i as int));
            assert(names.subrange(0, i as int + 1).last() == names[i as int]);
            assert(names[i as int] == missing@[i as int]@);
        }
        match lib_root_name(missing[i].as_slice(), system_libs) {
            Some(p) => {
                let m = ResolvedMapping {
                    link_name: clone_bytes(missing[i].as_slice()),
                    target_path: p.1,
                };
                proof {
                    assert(mappings_view(r@.push(m)) =~= mappings_view(r@).push(m@));
                }
                r.push(m);
            },
            None => {},
        }
        i = i + 1;
    }
    proof {
        assert(names.subrange(0, names.len() as int) =~= names);
    }
    r
}

/// For a name with a resolvable prefix key, the resolver yields no mapping
/// exactly when no catalog entry's name starts with that key — and yielding
/// none is a valid outcome, not an error. (A name without a key — no dot, or
/// a key that would be empty — is skipped outright: `resolve_spec` is `None`
/// by definition there.)
pub proof fn lemma_no_mapping_iff_no_candidate(name: Seq<u8>, es: Seq<(Seq<u8>, Seq<u8>)>)
    requires
        prefix_key(name) is Some,
    ensures
        resolve_spec(name, es) is None <==> forall|i: int|
            !is_candidate(es, prefix_key(name).unwrap(), i),
{
    lemma_best_candidate(es, prefix_key(name).unwrap());
}

/// The mapping list is exact: every name the resolver can serve appears with
/// the target the resolver chose for it; every pair on the list belongs to
/// such a name; and a name for which no catalog entry shares the prefix key
/// is never mapped — while the other names are still served.
pub proof fn lemma_mappings_exact(names: Seq<Seq<u8>>, es: Seq<(Seq<u8>, Seq<u8>)>)
    ensures
        forall|i: int|
            0 <= i < names.len() && (#[trigger] resolve_spec(names[i], es)) is Some
                ==> mappings_spec(names, es).contains(
                (names[i], resolve_spec(names[i], es).unwrap().1),
            ),
        forall|k: int|
            0 <= k < mappings_spec(names, es).len() ==> exists|i: int|
                {
                    &&& 0 <= i < names.len()
                    &&& names[i] == (#[trigger] mappings_spec(names, es)[k]).0
                    &&& resolve_spec(names[i], es) is Some
                    &&& mappings_spec(names, es)[k].1 == resolve_spec(names[i], es).unwrap().1
                },
        forall|i: int, k: int|
            0 <= i < names.len() && (#[trigger] resolve_spec(names[i], es)) is None && 0 <= k
                < mappings_spec(names, es).len() ==> (#[trigger] mappings_spec(names, es)[k]).0
                != names[i],
    decreases names.len(),
{
    if names.len() > 0 {
        let rest = names.drop_last();
        lemma_mappings_exact(rest, es);
        let prev = mappings_spec(rest, es);
        let cur = mappings_spec(names, es);
        assert(forall|i: int| 0 <= i < rest.len() ==> names[i] == rest[i]);
        assert forall|i: int|
            0 <= i < names.len() && (#[trigger] resolve_spec(names[i], es)) is Some implies cur
            .contains((names[i], resolve_spec(names[i], es).unwrap().1)) by {
            if i < names.len() - 1 {
                assert(prev.contains((rest[i], resolve_spec(rest[i], es).unwrap().1)));
                let k = choose|k: int|
                    0 <= k < prev.len() && prev[k] == (rest[i], resolve_spec(rest[i], es).unwrap().1);
                assert(cur[k] == prev[k]);
            } else {
                assert(cur.last() == (names[i], resolve_spec(names[i], es).unwrap().1));
            }
        }
        assert forall|k: int| 0 <= k < cur.len() implies exists|i: int|
            {
                &&& 0 <= i < names.len()
                &&& names[i] == (#[trigger] cur[k]).0
                &&& resolve_spec(names[i], es) is Some
                &&& cur[k].1 == resolve_spec(names[i], es).unwrap().1
            } by {
            if k < prev.len() {
                assert(cur[k] == prev[k]);
                let i = choose|i: int|
                    {
                        &&& 0 <= i < rest.len()
                        &&& rest[i] == (#[trigger] prev[k]).0
                        &&& resolve_spec(rest[i], es) is Some
                        &&& prev[k].1 == resolve_spec(rest[i], es).unwrap().1
                    };
                assert(0 <= i < names.len() && names[i] == cur[k].0 && resolve_spec(names[i], es)
                    is Some && cur[k].1 == resolve_spec(names[i], es).unwrap().1);
            } else {
                let i = names.len() - 1;
                assert(0 <= i < names.len() && names[i] == cur[k].0 && resolve_spec(names[i], es)
                    is Some && cur[k].1 == resolve_spec(names[i], es).unwrap().1);
            }
        }
    }
    assert forall|i: int, k: int|
        0 <= i < names.len() && (#[trigger] resolve_spec(names[i], es)) is None && 0 <= k
            < mappings_spec(names, es).len() implies (#[trigger] mappings_spec(names, es)[k]).0
        != names[i] by {
        if mappings_spec(names, es)[k].0 == names[i] {
            let j = choose|j: int|
                {
                    &&& 0 <= j < names.len()
                    &&& names[j] == (#[trigger] mappings_spec(names, es)[k]).0
                    &&& resolve_spec(names[j], es) is Some
                    &&& mappings_spec(names, es)[k].1 == resolve_spec(names[j], es).unwrap().1
                };
            assert(resolve_spec(names[j], es) == resolve_spec(names[i], es));
        }
    }
}

} // verus!
