//! The symlink sandbox: a private, per-executable directory of symlinks that
//! the dynamic loader consults in place of the missing libraries.
//!
//! The directory path derives deterministically from the executable's base
//! file name under a fixed private root. The directory is created once and
//! reused: creation that fails because it already exists is success, and a
//! symlink that already exists is left alone, so a second run over the same
//! mappings changes nothing. The link set is modelled here as a map from
//! link name to target path, and the laws below state that populating it is
//! monotone and idempotent.

use vstd::prelude::*;
use crate::resolver::{clone_bytes, clone_range};

verus! {

/// `p` ends in a lone `.` path component: it is `.` itself, or ends in `/.`.
/// Such a component names the directory it stands in, not a file.
pub open spec fn ends_in_dot_component(p: Seq<u8>) -> bool {
    p.len() > 0 && p.last() == '.' as u8 && (p.len() == 1 || p[p.len() - 2] == '/' as u8)
}

/// `p` without its trailing slashes and trailing `.` components, which name
/// no file of their own.
pub open spec fn strip_path_tail(p: Seq<u8>) -> Seq<u8>
    decreases p.len(),
{
    if p.len() > 0 && (p.last() == '/' as u8 || ends_in_dot_component(p)) {
        strip_path_tail(p.drop_last())
    } else {
        p
    }
}

/// The component that steps to the parent directory.
pub open spec fn parent_marker() -> Seq<u8> {
    seq!['.' as u8, '.' as u8]
}

/// The base file name of a path: its final component, after trailing slashes
/// and `.` components are stepped over. A path with nothing left, or whose
/// final component is `..`, names no file and has no base name.
pub open spec fn basename(p: Seq<u8>) -> Option<Seq<u8>> {
    let s = strip_path_tail(p);
    let c = match s.index_of_last('/' as u8) {
        Some(i) => s.subrange(i + 1, s.len() as int),
        None => s,
    };
    if c.len() == 0 || c == parent_marker() {
        None
    } else {
        Some(c)
    }
}

/// The sandbox directory for an executable: `<root>/<basename>`.
pub open spec fn sandbox_dir_spec(root: Seq<u8>, exe_path: Seq<u8>) -> Option<Seq<u8>> {
    match basename(exe_path) {
        Some(b) => Some(root + seq!['/' as u8] + b),
        None => None,
    }
}

/// A path that ends in neither a slash nor a `.` component is left alone.
proof fn lemma_strip_fixed(p: Seq<u8>)
    requires
        p.len() == 0 || (p.last() != '/' as u8 && !ends_in_dot_component(p)),
    ensures
        strip_path_tail(p) == p,
{
}

/// Index right after the last slash of `path[..end]`, or 0 without one.
fn component_start(path: &[u8], end: usize) -> (r: usize)
    requires
        end <= path@.len(),
    ensures
        r <= end,
        match path@.subrange(0, end as int).index_of_last('/' as u8) {
            Some(i) => r as int == i + 1,
            None => r == 0,
        },
{
    let ghost s = path@.subrange(0, end as int);
    let mut i: usize = end;
    while i > 0
        invariant
            i <= end <= path@.len(),
            s == path@.subrange(0, end as int),
            forall|k: int| i <= k < end ==> s[k] != '/' as u8,
        decreases i,
    {
        i = i - 1;
        if path[i] == '/' as u8 {
            proof {
                s.index_of_last_ensures('/' as u8);
                assert(s[i as int] == path@[i as int]);
                assert(s.index_of_last('/' as u8) == Some(i as int));
            }
            return i + 1;
        }
        proof {
            assert(s[i as int] == path@[i as int]);
        }
    }
    proof {
        s.index_of_last_ensures('/' as u8);
        assert(s.index_of_last('/' as u8) is None);
    }
    0
}

/// Extracts the base file name of an executable path.
pub fn path_basename(path: &[u8]) -> (r: Option<Vec<u8>>)
    ensures
        match r {
            Some(b) => basename(path@) == Some(b@),
            None => basename(path@) is None,
        },
{
    let n: usize = path.len();
    proof {
        assert(path@.subrange(0, n as int) =~= path@);
    }
    let mut end: usize = n;
    while end > 0 && (path[end - 1] == '/' as u8 || (path[end - 1] == '.' as u8 && (end == 1
        || path[end - 2] == '/' as u8)))
        invariant
            end <= n,
            n == path@.len(),
            strip_path_tail(path@.subrange(0, end as int)) == strip_path_tail(path@),
        decreases end,
    {
        proof {
            assert(path@.subrange(0, end as int).drop_last() =~= path@.subrange(
                0,
                end as int - 1,
            ));
        }
        end = end - 1;
    }
    proof {
        lemma_strip_fixed(path@.subrange(0, end as int));
    }
    let ghost s = path@.subrange(0, end as int);
    if end == 0 {
        proof {
            s.index_of_last_ensures('/' as u8);
        }
        return None;
    }
    let start = component_start(path, end);
    proof {
        s.index_of_last_ensures('/' as u8);
        match s.index_of_last('/' as u8) {
            Some(i) => {
                assert(s[end - 1] == path@[end - 1]);
                assert(i < end - 1);
                assert(s.subrange(i + 1, s.len() as int) =~= path@.subrange(
                    start as int,
                    end as int,
                ));
            },
            None => {
                assert(s =~= path@.subrange(start as int, end as int));
            },
        }
    }
    if end - start == 2 && path[start] == '.' as u8 && path[start + 1] == '.' as u8 {
        proof {
            assert(path@.subrange(start as int, end as int) =~= parent_marker());
        }
        return None;
    }
    proof {
        assert(path@.subrange(start as int, end as int) != parent_marker()) by {
            if path@.subrange(start as int, end as int) == parent_marker() {
                assert(end - start == 2);
                assert(path@[start as int] == '.' as u8);
                assert(path@[start as int + 1] == '.' as u8);
            }
        }
    }
    Some(clone_range(path, start, end))
}

/// Builds the sandbox directory path `<root>/<basename of exe_path>`.
pub fn sandbox_dir_path(root: &[u8], exe_path: &[u8]) -> (r: Option<Vec<u8>>)
    ensures
        match r {
            Some(p) => sandbox_dir_spec(root@, exe_path@) == Some(p@),
            None => sandbox_dir_spec(root@, exe_path@) is None,
        },
{
    match path_basename(exe_path) {
        None => None,
        Some(base) => {
            let mut p = clone_bytes(root);
            p.push('/' as u8);
            let mut tail = base;
            p.append(&mut tail);
            proof {
                assert(p@ =~= root@ + seq!['/' as u8] + basename(exe_path@).unwrap());
            }
            Some(p)
        },
    }
}

/// What the host reported back for the attempt to create the sandbox
/// directory.
#[derive(Clone, Copy, Debug, PartialEq, Eq, Structural)]
pub enum DirOutcome {
    /// The directory was created.
    Created,
    /// The directory was already there from an earlier run.
    AlreadyExists,
    /// Creation failed for any other reason.
    Failed,
}

/// What the host reported back for one symlink-creation attempt.
#[derive(Clone, Copy, Debug, PartialEq, Eq, Structural)]
pub enum LinkOutcome {
    /// The link was created.
    Created,
    /// A link of that name was already there; it is left alone.
    AlreadyExists,
    /// Creation failed for any other reason.
    Failed,
}

/// What to do after one symlink-creation attempt.
#[derive(Clone, Copy, Debug, PartialEq, Eq, Structural)]
pub enum LinkDisposition {
    /// Treat the attempt as success and move on silently.
    Done,
    /// Report the failure, then still continue with the remaining mappings.
    ReportAndContinue,
}

/// Judges the outcome of creating the sandbox directory: only a failure for
/// a reason other than "already exists" is fatal — the sandbox is required
/// for the launch to have any effect.
pub fn judge_dir_outcome(o: DirOutcome) -> (fatal: bool)
    ensures
        fatal <==> o == DirOutcome::Failed,
{
    match o {
        DirOutcome::Failed => true,
        _ => false,
    }
}

/// Judges one symlink attempt: an existing link counts as success, expected
/// on repeat runs; any other failure is reported but never halts the run.
pub fn judge_link_outcome(o: LinkOutcome) -> (d: LinkDisposition)
    ensures
        d == LinkDisposition::ReportAndContinue <==> o == LinkOutcome::Failed,
        d == LinkDisposition::Done <==> (o == LinkOutcome::Created || o
            == LinkOutcome::AlreadyExists),
{
    match o {
        LinkOutcome::Failed => LinkDisposition::ReportAndContinue,
        _ => LinkDisposition::Done,
    }
}

/// The link set of a sandbox directory after the mappings are materialized,
/// in order: a link whose name is already present is left untouched, the
/// others are created.
pub open spec fn apply_mappings(
    links: Map<Seq<u8>, Seq<u8>>,
    ms: Seq<(Seq<u8>, Seq<u8>)>,
) -> Map<Seq<u8>, Seq<u8>>
    decreases ms.len(),
{
    if ms.len() == 0 {
        links
    } else {
        let prev = apply_mappings(links, ms.drop_last());
        if prev.dom().contains(ms.last().0) {
            prev
        } else {
            prev.insert(ms.last().0, ms.last().1)
        }
    }
}

/// Materializing mappings never removes or redirects an existing link: the
/// link set only grows across runs.
pub proof fn lemma_sandbox_monotonic(links: Map<Seq<u8>, Seq<u8>>, ms: Seq<(Seq<u8>, Seq<u8>)>)
    ensures
        forall|k: Seq<u8>|
            links.dom().contains(k) ==> #[trigger] apply_mappings(links, ms).dom().contains(k)
                && apply_mappings(links, ms)[k] == links[k],
    decreases ms.len(),
{
    if ms.len() > 0 {
        lemma_sandbox_monotonic(links, ms.drop_last());
        assert forall|k: Seq<u8>| links.dom().contains(k) implies #[trigger] apply_mappings(
            links,
            ms,
        ).dom().contains(k) && apply_mappings(links, ms)[k] == links[k] by {
            assert(apply_mappings(links, ms.drop_last()).dom().contains(k));
            assert(apply_mappings(links, ms.drop_last())[k] == links[k]);
            assert(apply_mappings(links, ms) == if apply_mappings(links, ms.drop_last()).dom()
                .contains(ms.last().0) {
                apply_mappings(links, ms.drop_last())
            } else {
                apply_mappings(links, ms.drop_last()).insert(ms.last().0, ms.last().1)
            });
        }
    }
}

/// After the mappings are materialized, every mapped link name is present.
pub proof fn lemma_apply_covers(links: Map<Seq<u8>, Seq<u8>>, ms: Seq<(Seq<u8>, Seq<u8>)>)
    ensures
        forall|i: int|
            0 <= i < ms.len() ==> apply_mappings(links, ms).dom().contains(
                (#[trigger] ms[i]).0,
            ),
    decreases ms.len(),
{
    if ms.len() > 0 {
        let rest = ms.drop_last();
        lemma_apply_covers(links, rest);
        assert(forall|i: int| 0 <= i < rest.len() ==> ms[i] == rest[i]);
        assert forall|i: int| 0 <= i < ms.len() implies apply_mappings(links, ms).dom().contains(
            (#[trigger] ms[i]).0,
        ) by {
            if i < ms.len() - 1 {
                assert(apply_mappings(links, rest).dom().contains(ms[i].0));
            }
        }
    }
}

/// Materializing mappings into a link set that already holds them all
/// changes nothing.
proof fn lemma_apply_saturated(s: Map<Seq<u8>, Seq<u8>>, ms: Seq<(Seq<u8>, Seq<u8>)>)
    requires
        forall|i: int| 0 <= i < ms.len() ==> s.dom().contains((#[trigger] ms[i]).0),
    ensures
        apply_mappings(s, ms) == s,
    decreases ms.len(),
{
    if ms.len() > 0 {
        let rest = ms.drop_last();
        assert(forall|i: int| 0 <= i < rest.len() ==> ms[i] == rest[i]);
        lemma_apply_saturated(s, rest);
    }
}

/// A second run over the same mappings is a no-op: it creates zero new
/// symlinks and leaves every link as the first run left it.
pub proof fn lemma_sandbox_idempotent(links: Map<Seq<u8>, Seq<u8>>, ms: Seq<(Seq<u8>, Seq<u8>)>)
    ensures
        apply_mappings(apply_mappings(links, ms), ms) == apply_mappings(links, ms),
{
    lemma_apply_covers(links, ms);
    lemma_apply_saturated(apply_mappings(links, ms), ms);
}

} // verus!
