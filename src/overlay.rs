//! The overlay driver's decisions: mount option strings, the child mounts to
//! restore under a partition root, and how each child is restored.
use vstd::prelude::*;
use crate::bytes::{
    copy_bytes, has_prefix, insert_sorted, join, join_path, push_bytes, starts_with,
    strictly_sorted, views, SLASH,
};

use crate::defs::bytes_of;

verus! {

/// The byte `:` that separates OverlayFS lower dirs.
pub const COLON: u8 = 0x3a;

/// The byte `.`.
pub const DOT: u8 = 0x2e;

/// The parts joined by `:`.
pub open spec fn colon_join(s: Seq<Seq<u8>>) -> Seq<u8>
    decreases s.len(),
{
    if s.len() == 0 {
        seq![]
    } else if s.len() == 1 {
        s[0]
    } else {
        colon_join(s.drop_last()) + seq![COLON] + s.last()
    }
}

/// The `lowerdir` option: the lower dirs, top first, then the stock root.
pub fn lowerdir_option(lower_dirs: &Vec<Vec<u8>>, lowest: &[u8]) -> (r: Vec<u8>)
    ensures
        r@ == colon_join(views(lower_dirs@).push(lowest@)),
{
    let ghost all = views(lower_dirs@).push(lowest@);
    let mut r: Vec<u8> = Vec::new();
    let mut i: usize = 0;
    while i < lower_dirs.len()
        invariant
            i <= lower_dirs@.len(),
            all == views(lower_dirs@).push(lowest@),
            r@ == colon_join(all.subrange(0, i as int)),
        decreases lower_dirs.len() - i,
    {
        assert(all.subrange(0, i + 1).drop_last() =~= all.subrange(0, i as int));
        assert(all[i as int] == lower_dirs@[i as int]@);
        if i > 0 {
            r.push(COLON);
        }
        push_bytes(&mut r, lower_dirs[i].as_slice());
        proof {
            if i == 0 {
                assert(r@ =~= all.subrange(0, 1)[0]);
            }
        }
        i = i + 1;
    }
    assert(all.subrange(0, i + 1).drop_last() =~= all.subrange(0, i as int));
    assert(all.subrange(0, i + 1) =~= all);
    if i > 0 {
        r.push(COLON);
    }
    push_bytes(&mut r, lowest);
    proof {
        if i == 0 {
            assert(r@ =~= all[0]);
        }
    }
    r
}

/// The data string of the legacy mount call.
pub open spec fn legacy_data(lowerdir: Seq<u8>, upper: Option<Seq<u8>>, work: Option<Seq<u8>>) -> Seq<u8> {
    let base = bytes_of("lowerdir=") + lowerdir;
    match (upper, work) {
        (Some(u), Some(w)) => base + bytes_of(",upperdir=") + u + bytes_of(",workdir=") + w,
        _ => base,
    }
}

pub open spec fn opt_view(o: Option<Vec<u8>>) -> Option<Seq<u8>> {
    match o {
        Some(v) => Some(v@),
        None => None,
    }
}

/// `lowerdir=...`, with `upperdir` and `workdir` only when both are given.
pub fn legacy_mount_data(lowerdir: &[u8], upperdir: &Option<Vec<u8>>, workdir: &Option<Vec<u8>>) -> (r: Vec<u8>)
    ensures
        r@ == legacy_data(lowerdir@, opt_view(*upperdir), opt_view(*workdir)),
{
    let mut r = copy_bytes("lowerdir=".as_bytes());
    push_bytes(&mut r, lowerdir);
    match (upperdir, workdir) {
        (Some(u), Some(w)) => {
            push_bytes(&mut r, ",upperdir=".as_bytes());
            push_bytes(&mut r, u.as_slice());
            push_bytes(&mut r, ",workdir=".as_bytes());
            push_bytes(&mut r, w.as_slice());
        },
        _ => {},
    }
    r
}

/// A mount point strictly under the root, in the sense of path components.
pub open spec fn strictly_under(mp: Seq<u8>, root: Seq<u8>) -> bool {
    has_prefix(mp, root.push(SLASH))
}

/// The child mount points to restore under `target_root`, sorted, each once.
pub fn child_mounts(target_root: &[u8], mount_points: &Vec<Vec<u8>>) -> (r: Vec<Vec<u8>>)
    ensures
        strictly_sorted(views(r@)),
        views(r@).to_set() == Set::new(
            |mp: Seq<u8>| views(mount_points@).contains(mp) && strictly_under(mp, target_root@),
        ),
{
    let mut root = copy_bytes(target_root);
    root.push(SLASH);
    let mut r: Vec<Vec<u8>> = Vec::new();
    let mut i: usize = 0;
    while i < mount_points.len()
        invariant
            i <= mount_points@.len(),
            root@ == target_root@.push(SLASH),
            strictly_sorted(views(r@)),
            views(r@).to_set() == Set::new(
                |mp: Seq<u8>|
                    views(mount_points@.subrange(0, i as int)).contains(mp) && strictly_under(
                        mp,
                        target_root@,
                    ),
            ),
        decreases mount_points.len() - i,
    {
        let ghost before = views(r@).to_set();
        let ghost x = mount_points@[i as int]@;
        let under = starts_with(mount_points[i].as_slice(), root.as_slice());
        if under {
            insert_sorted(&mut r, copy_bytes(mount_points[i].as_slice()));
        }
        proof {
            let pre = views(mount_points@.subrange(0, i as int));
            let cur = views(mount_points@.subrange(0, i + 1));
            assert(cur =~= pre.push(x));
            assert forall|mp: Seq<u8>| cur.contains(mp) <==> (pre.contains(mp) || mp == x) by {
                if cur.contains(mp) {
                    let k = choose|k: int| 0 <= k < cur.len() && cur[k] == mp;
                    if k < pre.len() {
                        assert(pre[k] == mp);
                    }
                }
                if pre.contains(mp) {
                    let k = choose|k: int| 0 <= k < pre.len() && pre[k] == mp;
                    assert(cur[k] == mp);
                }
                if mp == x {
                    assert(cur[i as int] == mp);
                }
            }
            assert(views(r@).to_set() =~= Set::new(
                |mp: Seq<u8>| cur.contains(mp) && strictly_under(mp, target_root@),
            ));
        }
        i = i + 1;
    }
    assert(mount_points@.subrange(0, i as int) =~= mount_points@);
    r
}

/// The mount point with the root stripped once from the front.
pub open spec fn relative_of(mp: Seq<u8>, root: Seq<u8>) -> Seq<u8> {
    if has_prefix(mp, root) {
        mp.subrange(root.len() as int, mp.len() as int)
    } else {
        mp
    }
}

pub fn relative_path(mount_point: &[u8], target_root: &[u8]) -> (r: Vec<u8>)
    ensures
        r@ == relative_of(mount_point@, target_root@),
{
    if starts_with(mount_point, target_root) {
        let mut r: Vec<u8> = Vec::new();
        let mut i: usize = target_root.len();
        while i < mount_point.len()
            invariant
                target_root@.len() <= i <= mount_point@.len(),
                r@ == mount_point@.subrange(target_root@.len() as int, i as int),
            decreases mount_point.len() - i,
        {
            r.push(mount_point[i]);
            assert(r@ =~= mount_point@.subrange(target_root@.len() as int, i + 1));
            i = i + 1;
        }
        r
    } else {
        copy_bytes(mount_point)
    }
}

/// The child's stock content, reached through the held working directory.
pub open spec fn stock_child_of(relative: Seq<u8>) -> Seq<u8> {
    seq![DOT] + relative
}

pub fn stock_child(relative: &[u8]) -> (r: Vec<u8>)
    ensures
        r@ == stock_child_of(relative@),
{
    let mut r: Vec<u8> = Vec::new();
    r.push(DOT);
    push_bytes(&mut r, relative);
    r
}

/// The path with its leading slashes removed.
pub open spec fn trim_slashes(p: Seq<u8>) -> Seq<u8>
    decreases p.len(),
{
    if p.len() > 0 && p[0] == SLASH {
        trim_slashes(p.drop_first())
    } else {
        p
    }
}

fn trimmed(p: &[u8]) -> (r: Vec<u8>)
    ensures
        r@ == trim_slashes(p@),
{
    let mut i: usize = 0;
    assert(p@.subrange(0, p@.len() as int) =~= p@);
    while i < p.len() && p[i] == SLASH
        invariant
            i <= p@.len(),
            trim_slashes(p@) == trim_slashes(p@.subrange(i as int, p@.len() as int)),
        decreases p.len() - i,
    {
        assert(p@.subrange(i as int, p@.len() as int).drop_first() =~= p@.subrange(
            i + 1,
            p@.len() as int,
        ));
        i = i + 1;
    }
    let mut r: Vec<u8> = Vec::new();
    let mut k: usize = i;
    while k < p.len()
        invariant
            i <= k <= p@.len(),
            r@ == p@.subrange(i as int, k as int),
        decreases p.len() - k,
    {
        r.push(p[k]);
        assert(r@ =~= p@.subrange(i as int, k + 1));
        k = k + 1;
    }
    r
}

/// What a module root holds at a child's relative path.
#[derive(Clone, Copy)]
pub struct ChildProbe {
    pub exists: bool,
    pub is_dir: bool,
}

/// How a child mount is restored after the root overlay is laid.
pub enum ChildAction {
    /// Bind the stock child back onto the mount point.
    Bind,
    /// Leave the mount point as it is.
    Skip,
    /// Lay an overlay of these lower dirs over the stock child (and bind the
    /// stock child back if that fails).
    Overlay(Vec<Vec<u8>>),
}

/// The module roots' lower dirs for the child, in the order of the roots.
pub open spec fn child_layers(roots: Seq<Seq<u8>>, probes: Seq<ChildProbe>, rel: Seq<u8>) -> Seq<
    Seq<u8>,
>
    decreases roots.len(),
{
    if roots.len() == 0 || probes.len() == 0 {
        seq![]
    } else {
        let rest = child_layers(roots.drop_last(), probes.drop_last(), rel);
        if probes.last().is_dir {
            rest.push(join(roots.last(), trim_slashes(rel)))
        } else {
            rest
        }
    }
}

/// Some module holds the child's relative path.
pub open spec fn modified(probes: Seq<ChildProbe>) -> bool {
    exists|i: int| 0 <= i < probes.len() && (#[trigger] probes[i]).exists
}

/// Some module holds a non-directory where the child is a directory.
pub open spec fn collides(probes: Seq<ChildProbe>) -> bool {
    exists|i: int| 0 <= i < probes.len() && (#[trigger] probes[i]).exists && !probes[i].is_dir
}

/// Decides how to restore one child mount. `probes[i]` tells what
/// `module_roots[i]/<relative>` is; `stock_is_dir` whether the stock child is
/// a directory.
pub fn child_action(
    relative: &[u8],
    module_roots: &Vec<Vec<u8>>,
    probes: &Vec<ChildProbe>,
    stock_is_dir: bool,
) -> (r: ChildAction)
    requires
        probes@.len() == module_roots@.len(),
        forall|i: int| 0 <= i < probes@.len() ==> (#[trigger] probes@[i]).is_dir ==> probes@[i].exists,
    ensures
        !modified(probes@) ==> r == ChildAction::Bind,
        modified(probes@) && (!stock_is_dir || collides(probes@)) ==> r == ChildAction::Skip,
        modified(probes@) && stock_is_dir && !collides(probes@) ==> match r {
            ChildAction::Overlay(l) => views(l@) == child_layers(views(module_roots@), probes@, relative@)
                && l@.len() > 0,
            ChildAction::Skip => child_layers(views(module_roots@), probes@, relative@).len() == 0,
            ChildAction::Bind => false,
        },
{
    let mut any = false;
    let mut i: usize = 0;
    while i < probes.len()
        invariant
            i <= probes@.len(),
            any == exists|k: int| 0 <= k < i && (#[trigger] probes@[k]).exists,
        decreases probes.len() - i,
    {
        if probes[i].exists {
            any = true;
        }
        i = i + 1;
    }
    if !any {
        return ChildAction::Bind;
    }
    if !stock_is_dir {
        return ChildAction::Skip;
    }
    let rel = trimmed(relative);
    let ghost roots = views(module_roots@);
    let mut lower_dirs: Vec<Vec<u8>> = Vec::new();
    let mut j: usize = 0;
    while j < module_roots.len()
        invariant
            j <= module_roots@.len(),
            probes@.len() == module_roots@.len(),
            roots == views(module_roots@),
            rel@ == trim_slashes(relative@),
            views(lower_dirs@) == child_layers(
                roots.subrange(0, j as int),
                probes@.subrange(0, j as int),
                relative@,
            ),
            forall|k: int| 0 <= k < j ==> !((#[trigger] probes@[k]).exists && !probes@[k].is_dir),
        decreases module_roots.len() - j,
    {
        assert(roots.subrange(0, j + 1).drop_last() =~= roots.subrange(0, j as int));
        assert(probes@.subrange(0, j + 1).drop_last() =~= probes@.subrange(0, j as int));
        let probe = probes[j];
        if probe.is_dir {
            let l = join_path(module_roots[j].as_slice(), rel.as_slice());
            let ghost before = views(lower_dirs@);
            lower_dirs.push(l);
            assert(views(lower_dirs@) =~= before.push(l@));
        } else if probe.exists {
            return ChildAction::Skip;
        }
        j = j + 1;
    }
    assert(roots.subrange(0, j as int) =~= roots);
    assert(probes@.subrange(0, j as int) =~= probes@);
    if lower_dirs.len() == 0 {
        ChildAction::Skip
    } else {
        ChildAction::Overlay(lower_dirs)
    }
}

/// For a mount point strictly under the root, the relative path starts with
/// `/` and the stock child is the mount point's path below the root, reached
/// from the held working directory (`./<rest>`).
pub proof fn lemma_child_restoration(mp: Seq<u8>, root: Seq<u8>)
    requires
        strictly_under(mp, root),
    ensures
        stock_child_of(relative_of(mp, root)) == seq![DOT] + mp.subrange(
            root.len() as int,
            mp.len() as int,
        ),
        relative_of(mp, root)[0] == SLASH,
{
    assert(mp.subrange(0, root.len() as int) =~= root) by {
        assert forall|k: int| 0 <= k < root.len() implies mp[k] == root[k] by {
            assert(mp.subrange(0, root.len() as int + 1)[k] == root.push(SLASH)[k]);
        }
    }
    assert(mp.subrange(0, root.len() as int + 1)[root.len() as int] == SLASH);
}

} // verus!
